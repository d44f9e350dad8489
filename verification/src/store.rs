//! The device-record table: durable identities keyed by the composite
//! (user, room, appliance). `ensure_record` is an atomic find-or-create: the
//! same identity always maps to the same durable id, and at most one record
//! ever exists per composite key.

use crate::identity::{DeviceIdentity, IdentityView};
use vstd::prelude::*;

verus! {

/// One durable device record.
pub struct DeviceRecord {
    /// The durable id the store assigned to this record.
    pub id: usize,
    /// Vendor model reported when the record was created.
    pub model: String,
    pub user: String,
    pub room: String,
    pub appliance: String,
}

/// The mathematical content of a `DeviceRecord`.
pub struct RecordView {
    pub id: int,
    pub model: Seq<char>,
    pub user: Seq<char>,
    pub room: Seq<char>,
    pub appliance: Seq<char>,
}

impl View for DeviceRecord {
    type V = RecordView;

    open spec fn view(&self) -> RecordView {
        RecordView {
            id: self.id as int,
            model: self.model@,
            user: self.user@,
            room: self.room@,
            appliance: self.appliance@,
        }
    }
}

/// The composite key of a record.
pub open spec fn record_key(r: RecordView) -> (Seq<char>, Seq<char>, Seq<char>) {
    (r.user, r.room, r.appliance)
}

/// The composite key of an identity.
pub open spec fn identity_key(q: IdentityView) -> (Seq<char>, Seq<char>, Seq<char>) {
    (q.user, q.room, q.appliance)
}

/// The record belongs to this identity.
pub open spec fn key_matches(r: RecordView, q: IdentityView) -> bool {
    record_key(r) == identity_key(q)
}

/// Some record in `t` belongs to `q`.
pub open spec fn has_key(t: Seq<RecordView>, q: IdentityView) -> bool {
    exists|i: int| 0 <= i < t.len() && key_matches(#[trigger] t[i], q)
}

/// The index of the record belonging to `q`, when one exists.
pub open spec fn found_index(t: Seq<RecordView>, q: IdentityView) -> int {
    choose|i: int| 0 <= i < t.len() && key_matches(#[trigger] t[i], q)
}

/// The record inserted for `q` when none exists, with durable id `n`.
pub open spec fn new_record(n: int, q: IdentityView) -> RecordView {
    RecordView { id: n, model: q.model, user: q.user, room: q.room, appliance: q.appliance }
}

/// The table after a find-or-create for `q`.
pub open spec fn spec_ensure_table(t: Seq<RecordView>, q: IdentityView) -> Seq<RecordView> {
    if has_key(t, q) {
        t
    } else {
        t.push(new_record(t.len() as int, q))
    }
}

/// The durable id a find-or-create for `q` yields.
pub open spec fn spec_ensure_id(t: Seq<RecordView>, q: IdentityView) -> int {
    if has_key(t, q) {
        t[found_index(t, q)].id
    } else {
        t.len() as int
    }
}

/// Well-formedness: durable ids are the record positions and composite keys
/// are unique.
pub open spec fn table_wf(t: Seq<RecordView>) -> bool {
    &&& forall|i: int| 0 <= i < t.len() ==> (#[trigger] t[i]).id == i
    &&& forall|i: int, j: int|
        0 <= i < t.len() && 0 <= j < t.len() && i != j ==> record_key(#[trigger] t[i])
            != record_key(#[trigger] t[j])
}

/// The collection of durable device records.
pub struct DeviceTable {
    records: Vec<DeviceRecord>,
}

impl View for DeviceTable {
    type V = Seq<RecordView>;

    closed spec fn view(&self) -> Seq<RecordView> {
        Seq::new(self.records@.len(), |i: int| self.records@[i]@)
    }
}

impl DeviceTable {
    pub open spec fn wf(self) -> bool {
        table_wf(self@)
    }

    /// An empty table.
    pub fn new() -> (t: DeviceTable)
        ensures
            t@ == Seq::<RecordView>::empty(),
            t.wf(),
    {
        let t = DeviceTable { records: Vec::new() };
        proof {
            assert(t@ =~= Seq::<RecordView>::empty());
        }
        t
    }

    /// How many records exist.
    pub fn len(&self) -> (n: usize)
        ensures
            n as int == self@.len(),
    {
        self.records.len()
    }

    /// The record at a position.
    pub fn record_at(&self, i: usize) -> (r: &DeviceRecord)
        requires
            i < self@.len(),
        ensures
            r@ == self@[i as int],
    {
        &self.records[i]
    }

    /// Atomic find-or-create by the composite key of `q`: returns the durable
    /// id of the existing record for (user, room, appliance), or inserts a
    /// new record and returns its freshly assigned id. Never creates a
    /// duplicate for a key.
    pub fn ensure_record(&mut self, q: &DeviceIdentity) -> (id: usize)
        requires
            old(self).wf(),
        ensures
            final(self).wf(),
            final(self)@ == spec_ensure_table(old(self)@, q@),
            id as int == spec_ensure_id(old(self)@, q@),
            0 <= (id as int) < final(self)@.len(),
            key_matches(final(self)@[id as int], q@),
            final(self)@[id as int].id == id as int,
    {
        let n = self.records.len();
        let mut i: usize = 0;
        while i < n
            invariant
                *self == *old(self),
                self.wf(),
                n == self@.len(),
                i <= n,
                forall|t: int| 0 <= t < i as int ==> !key_matches(#[trigger] self@[t], q@),
            decreases n - i,
        {
            let rec = &self.records[i];
            if rec.user == q.user && rec.room == q.room && rec.appliance == q.appliance {
                proof {
                    assert(key_matches(self@[i as int], q@));
                    assert(has_key(self@, q@));
                    let w = found_index(self@, q@);
                    if w != i as int {
                        assert(record_key(self@[w]) == identity_key(q@));
                        assert(false);
                    }
                    assert(spec_ensure_id(self@, q@) == i as int);
                }
                return rec.id;
            }
            i = i + 1;
        }
        proof {
            assert(!has_key(self@, q@));
        }
        let id = n;
        let rec = DeviceRecord {
            id,
            model: q.model.clone(),
            user: q.user.clone(),
            room: q.room.clone(),
            appliance: q.appliance.clone(),
        };
        self.records.push(rec);
        proof {
            assert(self@ =~= old(self)@.push(new_record(old(self)@.len() as int, q@)));
            assert(key_matches(self@[id as int], q@));
            assert forall|a: int, b: int|
                0 <= a < self@.len() && 0 <= b < self@.len() && a != b implies record_key(
                #[trigger] self@[a],
            ) != record_key(#[trigger] self@[b]) by {
                if a == self@.len() - 1 {
                    assert(!key_matches(old(self)@[b], q@));
                } else if b == self@.len() - 1 {
                    assert(!key_matches(old(self)@[a], q@));
                }
            }
        }
        id
    }
}

/// Find-or-create is idempotent by key: a second call with the same identity
/// returns the same durable id, inserts nothing, and exactly one record for
/// that key exists afterwards.
pub proof fn lemma_ensure_record_idempotent(t: Seq<RecordView>, q: IdentityView)
    requires
        table_wf(t),
    ensures
        table_wf(spec_ensure_table(t, q)),
        spec_ensure_table(spec_ensure_table(t, q), q) == spec_ensure_table(t, q),
        spec_ensure_id(spec_ensure_table(t, q), q) == spec_ensure_id(t, q),
        has_key(spec_ensure_table(t, q), q),
        forall|i: int, j: int|
            0 <= i < spec_ensure_table(t, q).len() && 0 <= j < spec_ensure_table(t, q).len()
                && key_matches(#[trigger] spec_ensure_table(t, q)[i], q) && key_matches(
                #[trigger] spec_ensure_table(t, q)[j],
                q,
            ) ==> i == j,
{
    let t1 = spec_ensure_table(t, q);
    if has_key(t, q) {
        assert(t1 == t);
        let w = found_index(t, q);
        assert(0 <= w < t.len() && key_matches(t[w], q));
    } else {
        assert(t1 == t.push(new_record(t.len() as int, q)));
        assert(key_matches(t1[t.len() as int], q));
        assert(has_key(t1, q));
        assert forall|a: int, b: int|
            0 <= a < t1.len() && 0 <= b < t1.len() && a != b implies record_key(#[trigger] t1[a])
            != record_key(#[trigger] t1[b]) by {
            if a == t1.len() - 1 {
                assert(!key_matches(t[b], q));
            } else if b == t1.len() - 1 {
                assert(!key_matches(t[a], q));
            }
        }
        let w = found_index(t1, q);
        assert(0 <= w < t1.len() && key_matches(t1[w], q));
        if w != t.len() as int {
            assert(record_key(t1[w]) != record_key(t1[t.len() as int]));
            assert(false);
        }
        assert(spec_ensure_id(t1, q) == t.len() as int);
    }
    assert forall|i: int, j: int|
        0 <= i < t1.len() && 0 <= j < t1.len() && key_matches(#[trigger] t1[i], q) && key_matches(
            #[trigger] t1[j],
            q,
        ) implies i == j by {
        if i != j {
            assert(record_key(t1[i]) != record_key(t1[j]));
            assert(false);
        }
    }
}

} // verus!
