//! The discoverer: filters network-scan output down to the addresses of
//! known metering devices, and retries a scan that found nothing for a
//! bounded number of attempts before giving up for good.

use crate::text::{
    is_prefix, split_on, split_str, starts_with_prefix, tokens, tokens_of, views_of,
};
use vstd::prelude::*;

verus! {

/// How many scans are attempted before discovery is declared exhausted.
pub const MAX_SCAN_ATTEMPTS: usize = 5;

/// Seconds waited between two scan attempts.
pub const SCAN_RETRY_DELAY_SECS: u64 = 5;

/// The first known hardware-identifier prefix of a metering device.
pub open spec fn primary_hw_prefix() -> Seq<char> {
    "30:de:4b:36"@
}

/// The second known hardware-identifier prefix of a metering device.
pub open spec fn secondary_hw_prefix() -> Seq<char> {
    "78:8c:b5:7"@
}

/// The address a scan line contributes: its first whitespace-delimited
/// field, provided a second field exists and starts with a known hardware
/// prefix.
pub open spec fn line_address(line: Seq<char>) -> Option<Seq<char>> {
    let toks = tokens(line);
    if toks.len() >= 2 && (is_prefix(primary_hw_prefix(), toks[1]) || is_prefix(
        secondary_hw_prefix(),
        toks[1],
    )) {
        Some(toks[0])
    } else {
        None
    }
}

/// The addresses contributed by a sequence of scan lines, in order.
pub open spec fn collect_addresses(ls: Seq<Seq<char>>) -> Seq<Seq<char>>
    decreases ls.len(),
{
    if ls.len() == 0 {
        Seq::empty()
    } else {
        let prev = collect_addresses(ls.drop_last());
        match line_address(ls.last()) {
            Some(a) => prev.push(a),
            None => prev,
        }
    }
}

/// The addresses of the matching lines of a whole scan output, one entry
/// per line, duplicates included.
pub open spec fn scan_addresses(text: Seq<char>) -> Seq<Seq<char>> {
    collect_addresses(split_on(text, '\n'))
}

/// The first occurrence of each element, in order of first appearance.
pub open spec fn first_occurrences(s: Seq<Seq<char>>) -> Seq<Seq<char>>
    decreases s.len(),
{
    if s.len() == 0 {
        Seq::empty()
    } else {
        let prev = first_occurrences(s.drop_last());
        if prev.contains(s.last()) {
            prev
        } else {
            prev.push(s.last())
        }
    }
}

/// The set of device addresses a scan output yields: each distinct address
/// of a matching line exactly once, in order of first appearance. A scan
/// tool may answer the same device with several replies; discovery hands
/// out a set.
pub open spec fn device_addresses(text: Seq<char>) -> Seq<Seq<char>> {
    first_occurrences(scan_addresses(text))
}

/// Keeping first occurrences keeps exactly the members, and leaves no
/// element twice.
pub proof fn lemma_first_occurrences(s: Seq<Seq<char>>)
    ensures
        forall|x: Seq<char>| first_occurrences(s).contains(x) <==> s.contains(x),
        forall|i: int, j: int|
            0 <= i < j < first_occurrences(s).len() ==> first_occurrences(s)[i]
                != first_occurrences(s)[j],
    decreases s.len(),
{
    if s.len() > 0 {
        lemma_first_occurrences(s.drop_last());
        let prev = first_occurrences(s.drop_last());
        let fo = first_occurrences(s);
        assert forall|x: Seq<char>| fo.contains(x) implies s.contains(x) by {
            let w = choose|w: int| 0 <= w < fo.len() && fo[w] == x;
            if w < prev.len() {
                assert(prev.contains(x));
                assert(s.drop_last().contains(x));
                let v = choose|v: int| 0 <= v < s.drop_last().len() && s.drop_last()[v] == x;
                assert(s.drop_last()[v] == s[v]);
                assert(s[v] == x);
            } else {
                assert(s[s.len() - 1] == x);
            }
        }
        assert forall|x: Seq<char>| s.contains(x) implies fo.contains(x) by {
            let w = choose|w: int| 0 <= w < s.len() && s[w] == x;
            if w < s.len() - 1 {
                assert(s.drop_last()[w] == x);
                assert(s.drop_last().contains(x));
                assert(prev.contains(x));
                let v = choose|v: int| 0 <= v < prev.len() && prev[v] == x;
                assert(fo[v] == x);
            } else {
                if prev.contains(x) {
                    let v = choose|v: int| 0 <= v < prev.len() && prev[v] == x;
                    assert(fo[v] == x);
                } else {
                    assert(fo.last() == x);
                }
            }
        }
        assert forall|i: int, j: int| 0 <= i < j < fo.len() implies fo[i] != fo[j] by {
            if j == fo.len() - 1 && fo.len() == prev.len() + 1 {
                if fo[i] == fo[j] {
                    assert(prev[i] == s.last());
                    assert(prev.contains(s.last()));
                    assert(false);
                }
            }
        }
    }
}

/// An address stands among a line sequence's contributions exactly when
/// some line contributes it.
pub proof fn lemma_collect_membership(ls: Seq<Seq<char>>)
    ensures
        forall|x: Seq<char>|
            collect_addresses(ls).contains(x) <==> (exists|i: int|
                0 <= i < ls.len() && line_address(#[trigger] ls[i]) == Some(x)),
    decreases ls.len(),
{
    if ls.len() > 0 {
        lemma_collect_membership(ls.drop_last());
        let prev = collect_addresses(ls.drop_last());
        let cur = collect_addresses(ls);
        assert forall|x: Seq<char>| cur.contains(x) implies (exists|i: int|
            0 <= i < ls.len() && line_address(#[trigger] ls[i]) == Some(x)) by {
            let w = choose|w: int| 0 <= w < cur.len() && cur[w] == x;
            if w < prev.len() {
                assert(prev.contains(x));
                let v = choose|v: int|
                    0 <= v < ls.drop_last().len() && line_address(ls.drop_last()[v]) == Some(x);
                assert(line_address(ls[v]) == Some(x));
            } else {
                assert(line_address(ls[ls.len() - 1]) == Some(x));
            }
        }
        assert forall|x: Seq<char>| (exists|i: int|
            0 <= i < ls.len() && line_address(#[trigger] ls[i]) == Some(x)) implies cur.contains(
            x,
        ) by {
            let w = choose|w: int| 0 <= w < ls.len() && line_address(ls[w]) == Some(x);
            if w < ls.len() - 1 {
                assert(line_address(ls.drop_last()[w]) == Some(x));
                assert(prev.contains(x));
                let v = choose|v: int| 0 <= v < prev.len() && prev[v] == x;
                assert(cur[v] == x);
            } else {
                assert(cur.last() == x);
            }
        }
    }
}

/// Extracts the device address from one scan line, if the line reports a
/// known hardware-identifier prefix in its second field.
pub fn parse_scan_line(line: &str) -> (r: Option<String>)
    ensures
        match r {
            Some(a) => line_address(line@) == Some(a@),
            None => line_address(line@) is None,
        },
{
    let toks = tokens_of(line);
    proof {
        if toks@.len() >= 2 {
            assert(views_of(toks@)[0] == toks@[0]@);
            assert(views_of(toks@)[1] == toks@[1]@);
        }
    }
    if toks.len() >= 2 {
        let hit = starts_with_prefix(toks[1].as_str(), "30:de:4b:36") || starts_with_prefix(
            toks[1].as_str(),
            "78:8c:b5:7",
        );
        if hit {
            Some(toks[0].clone())
        } else {
            None
        }
    } else {
        None
    }
}

/// Whether one of the collected addresses already equals `s`.
fn holds_address(v: &Vec<String>, s: &String) -> (b: bool)
    ensures
        b == views_of(v@).contains(s@),
{
    let mut i: usize = 0;
    while i < v.len()
        invariant
            i <= v@.len(),
            forall|t: int| 0 <= t < i as int ==> #[trigger] v@[t]@ != s@,
        decreases v@.len() - i,
    {
        if v[i] == *s {
            proof {
                assert(views_of(v@)[i as int] == s@);
            }
            return true;
        }
        i = i + 1;
    }
    proof {
        if views_of(v@).contains(s@) {
            let w = choose|w: int| 0 <= w < views_of(v@).len() && views_of(v@)[w] == s@;
            assert(v@[w]@ == s@);
            assert(false);
        }
    }
    false
}

/// Filters a whole scan output down to the set of device addresses: an
/// address stands in the result exactly when some line of the output
/// contributes it, each address at most once, in order of first
/// appearance.
#[verifier::rlimit(60)]
pub fn parse_scan_output(text: &str) -> (r: Vec<String>)
    ensures
        views_of(r@) == device_addresses(text@),
        forall|x: Seq<char>|
            views_of(r@).contains(x) <==> (exists|i: int|
                0 <= i < split_on(text@, '\n').len() && line_address(
                    #[trigger] split_on(text@, '\n')[i],
                ) == Some(x)),
        forall|i: int, j: int| 0 <= i < j < r@.len() ==> r@[i]@ != r@[j]@,
{
    let lines = split_str(text, '\n');
    let k = lines.len();
    let ghost ls = split_on(text@, '\n');
    let mut r: Vec<String> = Vec::new();
    let mut i: usize = 0;
    while i < k
        invariant
            k == lines@.len(),
            views_of(lines@) == split_on(text@, '\n'),
            ls == split_on(text@, '\n'),
            i <= k,
            r@.len() == first_occurrences(collect_addresses(ls.take(i as int))).len(),
            forall|t: int|
                0 <= t < r@.len() ==> #[trigger] r@[t]@ == first_occurrences(
                    collect_addresses(ls.take(i as int)),
                )[t],
        decreases k - i,
    {
        proof {
            assert(views_of(lines@)[i as int] == lines@[i as int]@);
            assert(ls.take(i + 1).drop_last() =~= ls.take(i as int));
            assert(ls.take(i + 1).last() == ls[i as int]);
        }
        let ghost sofar = first_occurrences(collect_addresses(ls.take(i as int)));
        let a = parse_scan_line(lines[i].as_str());
        match a {
            Some(addr) => {
                proof {
                    assert(line_address(ls[i as int]) == Some(addr@));
                    assert(collect_addresses(ls.take(i + 1)) == collect_addresses(
                        ls.take(i as int),
                    ).push(addr@));
                    assert(collect_addresses(ls.take(i + 1)).drop_last() =~= collect_addresses(
                        ls.take(i as int),
                    ));
                    assert(views_of(r@) =~= sofar);
                }
                if !holds_address(&r, &addr) {
                    r.push(addr);
                    proof {
                        assert(!sofar.contains(collect_addresses(ls.take(i + 1)).last()));
                        assert(first_occurrences(collect_addresses(ls.take(i + 1))) == sofar.push(
                            collect_addresses(ls.take(i + 1)).last(),
                        ));
                    }
                } else {
                    proof {
                        assert(sofar.contains(collect_addresses(ls.take(i + 1)).last()));
                        assert(first_occurrences(collect_addresses(ls.take(i + 1))) == sofar);
                    }
                }
            },
            None => {
                proof {
                    assert(line_address(ls[i as int]) is None);
                    assert(collect_addresses(ls.take(i + 1)) == collect_addresses(
                        ls.take(i as int),
                    ));
                }
            },
        }
        i = i + 1;
    }
    proof {
        assert(ls.take(k as int) =~= ls);
        assert(collect_addresses(ls.take(k as int)) == collect_addresses(ls));
        assert forall|t: int| 0 <= t < r@.len() implies views_of(r@)[t] == device_addresses(
            text@,
        )[t] by {
            assert(r@[t]@ == first_occurrences(collect_addresses(ls.take(k as int)))[t]);
        }
        assert(views_of(r@) =~= device_addresses(text@));
        lemma_first_occurrences(scan_addresses(text@));
        lemma_collect_membership(ls);
        lemma_views_distinct(r@);
        assert forall|x: Seq<char>| views_of(r@).contains(x) <==> (exists|i: int|
            0 <= i < ls.len() && line_address(#[trigger] ls[i]) == Some(x)) by {
            assert(views_of(r@).contains(x) == device_addresses(text@).contains(x));
            assert(device_addresses(text@).contains(x) <==> scan_addresses(text@).contains(x));
            assert(scan_addresses(text@).contains(x) <==> (exists|i: int|
                0 <= i < ls.len() && line_address(#[trigger] ls[i]) == Some(x)));
        }
    }
    r
}

/// Distinctness of the views carries over to the strings' views pointwise.
proof fn lemma_views_distinct(v: Seq<String>)
    requires
        forall|i: int, j: int| 0 <= i < j < views_of(v).len() ==> views_of(v)[i] != views_of(v)[j],
    ensures
        forall|i: int, j: int| 0 <= i < j < v.len() ==> v[i]@ != v[j]@,
{
    assert forall|i: int, j: int| 0 <= i < j < v.len() implies v[i]@ != v[j]@ by {
        assert(views_of(v)[i] == v[i]@);
        assert(views_of(v)[j] == v[j]@);
    }
}

/// What one scan attempt produced: the scan tool's output, or the failure
/// to run the tool at all.
pub enum ScanAttempt {
    /// The tool ran and printed this line-oriented output.
    Output(String),
    /// The tool could not be invoked; this is fatal, not retried.
    InvocationFailed,
}

/// What the discoverer decides after one attempt.
pub enum DiscoveryStatus {
    /// At least one matching device: discovery ends with these addresses.
    Found(Vec<String>),
    /// Nothing found and attempts remain: wait, then scan again.
    RetryAfterDelay,
    /// Nothing found on the last allowed attempt: fatal.
    Exhausted,
    /// The scan tool itself failed: fatal, and distinct from finding
    /// nothing.
    ScanFailed,
}

/// The decision in mathematical form.
pub enum DiscoveryVerdict {
    Found(Seq<Seq<char>>),
    Retry,
    Exhausted,
    Fatal,
}

/// The discoverer's decision after one attempt, given how many attempts
/// came before it.
pub open spec fn discovery_verdict(attempts_before: int, attempt: ScanAttempt) -> DiscoveryVerdict {
    match attempt {
        ScanAttempt::InvocationFailed => DiscoveryVerdict::Fatal,
        ScanAttempt::Output(text) => {
            let addrs = device_addresses(text@);
            if addrs.len() > 0 {
                DiscoveryVerdict::Found(addrs)
            } else if attempts_before + 1 >= MAX_SCAN_ATTEMPTS as int {
                DiscoveryVerdict::Exhausted
            } else {
                DiscoveryVerdict::Retry
            }
        },
    }
}

/// The bounded-retry discovery loop, one attempt at a time.
pub struct Discoverer {
    /// Attempts consumed so far.
    pub attempts: usize,
}

impl Discoverer {
    /// A fresh discoverer that has scanned nothing yet.
    pub fn new() -> (d: Discoverer)
        ensures
            d.attempts == 0,
    {
        Discoverer { attempts: 0 }
    }

    /// Consumes one scan attempt. A scan with at least one matching line
    /// ends discovery at once with the set of its distinct addresses; an
    /// empty scan retries
    /// until the last allowed attempt, which exhausts discovery; a scan
    /// whose invocation failed is fatal immediately.
    pub fn step(&mut self, attempt: &ScanAttempt) -> (st: DiscoveryStatus)
        requires
            old(self).attempts < MAX_SCAN_ATTEMPTS,
        ensures
            final(self).attempts == old(self).attempts + 1,
            match discovery_verdict(old(self).attempts as int, *attempt) {
                DiscoveryVerdict::Found(a) => st matches DiscoveryStatus::Found(v) && views_of(v@)
                    == a,
                DiscoveryVerdict::Retry => st == DiscoveryStatus::RetryAfterDelay,
                DiscoveryVerdict::Exhausted => st == DiscoveryStatus::Exhausted,
                DiscoveryVerdict::Fatal => st == DiscoveryStatus::ScanFailed,
            },
    {
        self.attempts = self.attempts + 1;
        match attempt {
            ScanAttempt::InvocationFailed => DiscoveryStatus::ScanFailed,
            ScanAttempt::Output(text) => {
                let addrs = parse_scan_output(text.as_str());
                if addrs.len() > 0 {
                    DiscoveryStatus::Found(addrs)
                } else if self.attempts >= MAX_SCAN_ATTEMPTS {
                    DiscoveryStatus::Exhausted
                } else {
                    DiscoveryStatus::RetryAfterDelay
                }
            },
        }
    }
}

/// The attempt ran the scan tool and its output holds no matching line.
pub open spec fn empty_scan(attempt: ScanAttempt) -> bool {
    attempt matches ScanAttempt::Output(text) && scan_addresses(text@).len() == 0
}

/// Bounded retry: when every scan in a full round comes back without a
/// matching line, the discoverer retries after each attempt but the last,
/// and the last attempt exhausts discovery — it never retries beyond the
/// bound and never invents an address.
pub proof fn lemma_discovery_exhausts(outs: Seq<ScanAttempt>)
    requires
        outs.len() == MAX_SCAN_ATTEMPTS as int,
        forall|i: int| 0 <= i < outs.len() ==> #[trigger] empty_scan(outs[i]),
    ensures
        forall|i: int|
            0 <= i < outs.len() - 1 ==> discovery_verdict(i, #[trigger] outs[i])
                == DiscoveryVerdict::Retry,
        discovery_verdict(outs.len() - 1, outs[outs.len() - 1]) == DiscoveryVerdict::Exhausted,
{
    assert forall|i: int| 0 <= i < outs.len() - 1 implies discovery_verdict(i, #[trigger] outs[i])
        == DiscoveryVerdict::Retry by {
        assert(empty_scan(outs[i]));
        match outs[i] {
            ScanAttempt::Output(text) => {
                assert(scan_addresses(text@).len() == 0);
                assert(device_addresses(text@).len() == 0);
                assert(discovery_verdict(i, outs[i]) == DiscoveryVerdict::Retry);
            },
            ScanAttempt::InvocationFailed => {
                assert(false);
            },
        }
    }
    let last = outs.len() - 1;
    assert(empty_scan(outs[last]));
    match outs[last] {
        ScanAttempt::Output(text) => {
            assert(scan_addresses(text@).len() == 0);
            assert(device_addresses(text@).len() == 0);
        },
        ScanAttempt::InvocationFailed => {
            assert(false);
        },
    }
}

/// Short-circuit on success: any attempt whose scan output holds at least
/// one matching line ends discovery at once with exactly the distinct
/// addresses of its matching lines, regardless of how many failed attempts
/// came before.
pub proof fn lemma_discovery_short_circuits(attempts_before: int, attempt: ScanAttempt)
    requires
        attempt matches ScanAttempt::Output(text) && scan_addresses(text@).len() > 0,
    ensures
        attempt matches ScanAttempt::Output(text) ==> discovery_verdict(attempts_before, attempt)
            == DiscoveryVerdict::Found(device_addresses(text@)),
{
    match attempt {
        ScanAttempt::Output(text) => {
            lemma_first_occurrences(scan_addresses(text@));
            let sa = scan_addresses(text@);
            assert(sa.contains(sa[0]));
            assert(device_addresses(text@).contains(sa[0]));
            let w = choose|w: int|
                0 <= w < device_addresses(text@).len() && device_addresses(text@)[w] == sa[0];
            assert(device_addresses(text@).len() > 0);
        },
        ScanAttempt::InvocationFailed => {
            assert(false);
        },
    }
}

} // verus!
