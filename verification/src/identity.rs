//! The identity resolver: parses a device's self-reported label into a
//! structured identity. A label is well formed when it consists of exactly
//! four non-empty dash-delimited segments (vendor model, user, room,
//! appliance); any other shape degrades to an identity whose four fields are
//! all empty, so that resolution itself never fails.

use crate::text::{
    lemma_sep_indices_absent, lemma_sep_indices_concat, lemma_sep_indices_facts, sep_indices,
    split_on, split_str, views_of,
};
use vstd::prelude::*;

verus! {

/// The structured composite identity of one device.
pub struct DeviceIdentity {
    /// Vendor model of the metering plug.
    pub model: String,
    /// The user the device is assigned to.
    pub user: String,
    /// The room the device sits in.
    pub room: String,
    /// The appliance the device meters.
    pub appliance: String,
}

/// The mathematical content of a `DeviceIdentity`.
pub struct IdentityView {
    pub model: Seq<char>,
    pub user: Seq<char>,
    pub room: Seq<char>,
    pub appliance: Seq<char>,
}

impl View for DeviceIdentity {
    type V = IdentityView;

    open spec fn view(&self) -> IdentityView {
        IdentityView {
            model: self.model@,
            user: self.user@,
            room: self.room@,
            appliance: self.appliance@,
        }
    }
}

/// The dash-delimited segments of a label.
pub open spec fn label_segments(s: Seq<char>) -> Seq<Seq<char>> {
    split_on(s, '-')
}

/// Exactly four segments, all non-empty.
pub open spec fn label_well_formed(s: Seq<char>) -> bool {
    label_segments(s).len() == 4 && (forall|j: int|
        0 <= j < 4 ==> #[trigger] label_segments(s)[j].len() > 0)
}

/// The identity with all four fields empty.
pub open spec fn empty_identity() -> IdentityView {
    IdentityView {
        model: Seq::empty(),
        user: Seq::empty(),
        room: Seq::empty(),
        appliance: Seq::empty(),
    }
}

/// What `resolve` returns for a given label.
pub open spec fn identity_of(s: Seq<char>) -> IdentityView {
    if label_well_formed(s) {
        IdentityView {
            model: label_segments(s)[0],
            user: label_segments(s)[1],
            room: label_segments(s)[2],
            appliance: label_segments(s)[3],
        }
    } else {
        empty_identity()
    }
}

/// Parses a label. Well-formed labels yield their four segments in order;
/// malformed labels yield the all-empty identity. Never fails.
pub fn resolve(label: &str) -> (r: DeviceIdentity)
    ensures
        r@ == identity_of(label@),
{
    let segs = split_str(label, '-');
    proof {
        assert(views_of(segs@).len() == segs@.len());
        assert forall|j: int| 0 <= j < segs@.len() implies #[trigger] views_of(segs@)[j]
            == segs@[j]@ by {}
    }
    if segs.len() == 4 && !segs[0].as_str().is_empty() && !segs[1].as_str().is_empty()
        && !segs[2].as_str().is_empty() && !segs[3].as_str().is_empty() {
        let r = DeviceIdentity {
            model: segs[0].clone(),
            user: segs[1].clone(),
            room: segs[2].clone(),
            appliance: segs[3].clone(),
        };
        proof {
            assert(label_well_formed(label@));
        }
        r
    } else {
        let r = DeviceIdentity {
            model: String::new(),
            user: String::new(),
            room: String::new(),
            appliance: String::new(),
        };
        proof {
            if segs@.len() == 4 {
                assert(label_segments(label@)[0] == segs@[0]@);
                assert(label_segments(label@)[1] == segs@[1]@);
                assert(label_segments(label@)[2] == segs@[2]@);
                assert(label_segments(label@)[3] == segs@[3]@);
            }
            assert(!label_well_formed(label@));
        }
        r
    }
}

/// No dash occurs in `t`.
pub open spec fn dash_free(t: Seq<char>) -> bool {
    forall|i: int| 0 <= i < t.len() ==> t[i] != '-'
}

/// `s` is exactly the four non-empty dash-free segments `a`, `b`, `c`, `d`
/// joined by single dashes.
pub open spec fn splits_into(
    s: Seq<char>,
    a: Seq<char>,
    b: Seq<char>,
    c: Seq<char>,
    d: Seq<char>,
) -> bool {
    &&& s == a + seq!['-'] + b + seq!['-'] + c + seq!['-'] + d
    &&& a.len() > 0
    &&& b.len() > 0
    &&& c.len() > 0
    &&& d.len() > 0
    &&& dash_free(a)
    &&& dash_free(b)
    &&& dash_free(c)
    &&& dash_free(d)
}

/// The dash positions of a single dash are exactly position zero.
proof fn lemma_sep_indices_dash()
    ensures
        sep_indices(seq!['-'], '-') == seq![0int],
{
    let s = seq!['-'];
    assert(s.drop_last() =~= Seq::<char>::empty());
    assert(sep_indices(Seq::<char>::empty(), '-') == Seq::<int>::empty());
    assert(sep_indices(s, '-') =~= seq![0int]);
}

/// The dash positions of a label built from four dash-free segments.
proof fn lemma_label_dashes(a: Seq<char>, b: Seq<char>, c: Seq<char>, d: Seq<char>)
    requires
        dash_free(a),
        dash_free(b),
        dash_free(c),
        dash_free(d),
    ensures
        sep_indices(a + seq!['-'] + b + seq!['-'] + c + seq!['-'] + d, '-') == seq![
            a.len() as int,
            a.len() as int + b.len() + 1,
            a.len() as int + b.len() + c.len() + 2,
        ],
{
    let dash = seq!['-'];
    let la = a.len() as int;
    let lb = b.len() as int;
    let lc = c.len() as int;
    lemma_sep_indices_dash();
    lemma_sep_indices_absent(a, '-');
    lemma_sep_indices_absent(b, '-');
    lemma_sep_indices_absent(c, '-');
    lemma_sep_indices_absent(d, '-');
    lemma_sep_indices_concat(a, dash, '-');
    assert(sep_indices(a + dash, '-') =~= seq![la]);
    lemma_sep_indices_concat(a + dash, b, '-');
    assert(sep_indices(a + dash + b, '-') =~= seq![la]);
    lemma_sep_indices_concat(a + dash + b, dash, '-');
    assert(sep_indices(a + dash + b + dash, '-') =~= seq![la, la + lb + 1]);
    lemma_sep_indices_concat(a + dash + b + dash, c, '-');
    assert(sep_indices(a + dash + b + dash + c, '-') =~= seq![la, la + lb + 1]);
    lemma_sep_indices_concat(a + dash + b + dash + c, dash, '-');
    assert(sep_indices(a + dash + b + dash + c + dash, '-') =~= seq![
        la,
        la + lb + 1,
        la + lb + lc + 2,
    ]);
    lemma_sep_indices_concat(a + dash + b + dash + c + dash, d, '-');
    assert(sep_indices(a + dash + b + dash + c + dash + d, '-') =~= seq![
        la,
        la + lb + 1,
        la + lb + lc + 2,
    ]);
}

/// Resolution of a well-shaped label: a label made of exactly four
/// non-empty dash-free segments resolves to those segments, in order.
pub proof fn lemma_resolve_well_formed(
    s: Seq<char>,
    a: Seq<char>,
    b: Seq<char>,
    c: Seq<char>,
    d: Seq<char>,
)
    requires
        splits_into(s, a, b, c, d),
    ensures
        label_well_formed(s),
        identity_of(s) == (IdentityView { model: a, user: b, room: c, appliance: d }),
{
    lemma_label_dashes(a, b, c, d);
    let la = a.len() as int;
    let lb = b.len() as int;
    let lc = c.len() as int;
    let dd = sep_indices(s, '-');
    assert(dd =~= seq![la, la + lb + 1, la + lb + lc + 2]);
    assert(s.len() == a.len() + b.len() + c.len() + d.len() + 3);
    assert(label_segments(s).len() == 4);
    assert(label_segments(s)[0] =~= a);
    assert(label_segments(s)[1] =~= b);
    assert(label_segments(s)[2] =~= c);
    assert(label_segments(s)[3] =~= d);
    assert(label_well_formed(s));
}

/// Every well-formed label is such a join of its own four fields.
#[verifier::rlimit(100)]
pub proof fn lemma_well_formed_splits(s: Seq<char>)
    requires
        label_well_formed(s),
    ensures
        splits_into(
            s,
            identity_of(s).model,
            identity_of(s).user,
            identity_of(s).room,
            identity_of(s).appliance,
        ),
{
    lemma_sep_indices_facts(s, '-');
    let dd = sep_indices(s, '-');
    assert(dd.len() == 3);
    let i = dd[0];
    let j = dd[1];
    let k = dd[2];
    let a = label_segments(s)[0];
    let b = label_segments(s)[1];
    let c = label_segments(s)[2];
    let d = label_segments(s)[3];
    assert(a == s.subrange(0, i));
    assert(b == s.subrange(i + 1, j));
    assert(c == s.subrange(j + 1, k));
    assert(d == s.subrange(k + 1, s.len() as int));
    assert(s =~= a + seq!['-'] + b + seq!['-'] + c + seq!['-'] + d);
    assert forall|t: int| 0 <= t < a.len() implies a[t] != '-' by {
        if a[t] == '-' {
            assert(s[t] == '-');
            assert(dd.contains(t));
            let w = choose|w: int| 0 <= w < dd.len() && dd[w] == t;
            assert(false);
        }
    }
    assert forall|t: int| 0 <= t < b.len() implies b[t] != '-' by {
        if b[t] == '-' {
            assert(s[i + 1 + t] == '-');
            assert(dd.contains(i + 1 + t));
            let w = choose|w: int| 0 <= w < dd.len() && dd[w] == i + 1 + t;
            assert(false);
        }
    }
    assert forall|t: int| 0 <= t < c.len() implies c[t] != '-' by {
        if c[t] == '-' {
            assert(s[j + 1 + t] == '-');
            assert(dd.contains(j + 1 + t));
            let w = choose|w: int| 0 <= w < dd.len() && dd[w] == j + 1 + t;
            assert(false);
        }
    }
    assert forall|t: int| 0 <= t < d.len() implies d[t] != '-' by {
        if d[t] == '-' {
            assert(s[k + 1 + t] == '-');
            assert(dd.contains(k + 1 + t));
            let w = choose|w: int| 0 <= w < dd.len() && dd[w] == k + 1 + t;
            assert(false);
        }
    }
}

/// Resolution of any other label shape: a label that is not a join of four
/// non-empty dash-free segments resolves to the all-empty identity.
pub proof fn lemma_resolve_malformed(s: Seq<char>)
    requires
        forall|a: Seq<char>, b: Seq<char>, c: Seq<char>, d: Seq<char>|
            !#[trigger] splits_into(s, a, b, c, d),
    ensures
        identity_of(s) == empty_identity(),
{
    if label_well_formed(s) {
        lemma_well_formed_splits(s);
        assert(false);
    }
}

} // verus!
