//! Character-level text utilities: splitting on a separator, whitespace
//! tokenization, and prefix tests, each with an exact specification.

use vstd::prelude::*;

verus! {

/// The views of a sequence of strings, element by element.
pub open spec fn views_of(v: Seq<String>) -> Seq<Seq<char>> {
    Seq::new(v.len(), |i: int| v[i]@)
}

/// Positions of `sep` within `s`, in increasing order.
pub open spec fn sep_indices(s: Seq<char>, sep: char) -> Seq<int>
    decreases s.len(),
{
    if s.len() == 0 {
        Seq::empty()
    } else {
        let rest = sep_indices(s.drop_last(), sep);
        if s[s.len() - 1] == sep {
            rest.push(s.len() - 1)
        } else {
            rest
        }
    }
}

/// Start of the `j`-th segment, given the separator positions `d`.
pub open spec fn seg_lo(d: Seq<int>, j: int) -> int {
    if j == 0 {
        0
    } else {
        d[j - 1] + 1
    }
}

/// End (exclusive) of the `j`-th segment, given the separator positions `d`
/// and the total length `n`.
pub open spec fn seg_hi(d: Seq<int>, j: int, n: int) -> int {
    if j == d.len() {
        n
    } else {
        d[j]
    }
}

/// `s` split at every occurrence of `sep`; separators are dropped and empty
/// segments are kept, so the result always has one segment more than there
/// are separators.
pub open spec fn split_on(s: Seq<char>, sep: char) -> Seq<Seq<char>> {
    let d = sep_indices(s, sep);
    Seq::new(d.len() + 1, |j: int| s.subrange(seg_lo(d, j), seg_hi(d, j, s.len() as int)))
}

/// The separator positions are exactly the in-range indices holding `sep`,
/// and they are strictly increasing.
pub proof fn lemma_sep_indices_facts(s: Seq<char>, sep: char)
    ensures
        sep_indices(s, sep).len() <= s.len(),
        forall|j: int|
            0 <= j < sep_indices(s, sep).len() ==> 0 <= #[trigger] sep_indices(s, sep)[j]
                < s.len(),
        forall|j: int|
            0 < j < sep_indices(s, sep).len() ==> sep_indices(s, sep)[j - 1]
                < #[trigger] sep_indices(s, sep)[j],
        forall|j: int|
            0 <= j < sep_indices(s, sep).len() ==> s[#[trigger] sep_indices(s, sep)[j]] == sep,
        forall|t: int| 0 <= t < s.len() && s[t] == sep ==> sep_indices(s, sep).contains(t),
    decreases s.len(),
{
    if s.len() > 0 {
        let prefix = s.drop_last();
        lemma_sep_indices_facts(prefix, sep);
        let rest = sep_indices(prefix, sep);
        assert forall|t: int| 0 <= t < s.len() && s[t] == sep implies sep_indices(
            s,
            sep,
        ).contains(t) by {
            if t < s.len() - 1 {
                assert(prefix[t] == s[t]);
                assert(rest.contains(t));
                let w = choose|w: int| 0 <= w < rest.len() && rest[w] == t;
                if s[s.len() - 1] == sep {
                    assert(sep_indices(s, sep)[w] == t);
                } else {
                    assert(sep_indices(s, sep)[w] == t);
                }
            } else {
                assert(s[s.len() - 1] == sep);
                assert(sep_indices(s, sep).last() == t);
            }
        }
    }
}

/// Growing the scanned prefix by one character extends the separator
/// positions exactly when that character is the separator.
pub proof fn lemma_sep_indices_step(s: Seq<char>, sep: char, i: int)
    requires
        0 <= i < s.len(),
    ensures
        sep_indices(s.take(i + 1), sep) == if s[i] == sep {
            sep_indices(s.take(i), sep).push(i)
        } else {
            sep_indices(s.take(i), sep)
        },
{
    assert(s.take(i + 1).drop_last() =~= s.take(i));
    assert(s.take(i + 1)[i] == s[i]);
}

/// A string with no occurrence of `sep` has no separator positions.
pub proof fn lemma_sep_indices_absent(s: Seq<char>, sep: char)
    requires
        forall|t: int| 0 <= t < s.len() ==> s[t] != sep,
    ensures
        sep_indices(s, sep) == Seq::<int>::empty(),
    decreases s.len(),
{
    if s.len() > 0 {
        lemma_sep_indices_absent(s.drop_last(), sep);
    }
}

/// Separator positions of a concatenation: those of the left part, then
/// those of the right part shifted past the left part.
pub proof fn lemma_sep_indices_concat(x: Seq<char>, y: Seq<char>, sep: char)
    ensures
        sep_indices(x + y, sep) == sep_indices(x, sep) + sep_indices(y, sep).map_values(
            |t: int| t + x.len(),
        ),
    decreases y.len(),
{
    if y.len() == 0 {
        assert(x + y =~= x);
        assert(sep_indices(y, sep) == Seq::<int>::empty());
        assert(sep_indices(x, sep) + sep_indices(y, sep).map_values(|t: int| t + x.len())
            =~= sep_indices(x, sep));
    } else {
        lemma_sep_indices_concat(x, y.drop_last(), sep);
        assert((x + y).drop_last() =~= x + y.drop_last());
        assert((x + y)[(x + y).len() - 1] == y[y.len() - 1]);
        if y[y.len() - 1] == sep {
            assert(sep_indices(x + y, sep) == sep_indices(x + y.drop_last(), sep).push(
                x.len() + y.len() - 1,
            ));
            assert(sep_indices(y, sep) == sep_indices(y.drop_last(), sep).push(y.len() - 1));
            assert(sep_indices(y, sep).map_values(|t: int| t + x.len()) =~= sep_indices(
                y.drop_last(),
                sep,
            ).map_values(|t: int| t + x.len()).push(x.len() + y.len() - 1));
            assert(sep_indices(x, sep) + sep_indices(y, sep).map_values(|t: int| t + x.len())
                =~= (sep_indices(x, sep) + sep_indices(y.drop_last(), sep).map_values(
                |t: int| t + x.len(),
            )).push(x.len() + y.len() - 1));
        } else {
            assert(sep_indices(x + y, sep) == sep_indices(x + y.drop_last(), sep));
            assert(sep_indices(y, sep) == sep_indices(y.drop_last(), sep));
        }
    }
}

/// The character positions of `sep` in `s`, found by one left-to-right
/// scan.
pub fn find_sep_positions(s: &str, sep: char) -> (r: Vec<usize>)
    ensures
        r@.map_values(|u: usize| u as int) == sep_indices(s@, sep),
{
    let n = s.unicode_len();
    let mut r: Vec<usize> = Vec::new();
    let mut i: usize = 0;
    while i < n
        invariant
            n == s@.len(),
            i <= n,
            r@.map_values(|u: usize| u as int) == sep_indices(s@.take(i as int), sep),
        decreases n - i,
    {
        let c = s.get_char(i);
        proof {
            lemma_sep_indices_step(s@, sep, i as int);
        }
        if c == sep {
            r.push(i);
            proof {
                assert(r@.map_values(|u: usize| u as int) =~= sep_indices(
                    s@.take(i as int),
                    sep,
                ).push(i as int));
            }
        }
        i = i + 1;
    }
    proof {
        assert(s@.take(n as int) =~= s@);
    }
    r
}

/// Splits `s` at every `sep`, keeping empty segments.
#[verifier::rlimit(50)]
pub fn split_str(s: &str, sep: char) -> (r: Vec<String>)
    ensures
        views_of(r@) == split_on(s@, sep),
{
    let n = s.unicode_len();
    let d = find_sep_positions(s, sep);
    proof {
        lemma_sep_indices_facts(s@, sep);
    }
    let m = d.len();
    let mut r: Vec<String> = Vec::new();
    let mut j: usize = 0;
    while j < m
        invariant
            n == s@.len(),
            d@.map_values(|u: usize| u as int) == sep_indices(s@, sep),
            m == d.len(),
            m <= n,
            forall|t: int|
                0 <= t < sep_indices(s@, sep).len() ==> 0 <= #[trigger] sep_indices(s@, sep)[t]
                    < s@.len(),
            forall|t: int|
                0 < t < sep_indices(s@, sep).len() ==> sep_indices(s@, sep)[t - 1]
                    < #[trigger] sep_indices(s@, sep)[t],
            j <= m,
            r@.len() == j as int,
            forall|t: int| 0 <= t < j as int ==> #[trigger] r@[t]@ == split_on(s@, sep)[t],
        decreases m - j,
    {
        proof {
            assert(d@.map_values(|u: usize| u as int)[j as int] == d@[j as int] as int);
            if j > 0 {
                assert(d@.map_values(|u: usize| u as int)[j - 1] == d@[j - 1] as int);
            }
        }
        let lo: usize = if j == 0 {
            0
        } else {
            d[j - 1] + 1
        };
        let hi: usize = d[j];
        let seg = s.substring_char(lo, hi);
        r.push(String::from_str(seg));
        proof {
            let dsp = sep_indices(s@, sep);
            assert(lo as int == seg_lo(dsp, j as int));
            assert(hi as int == seg_hi(dsp, j as int, s@.len() as int));
            assert(split_on(s@, sep)[j as int] == seg@);
            assert(r@[j as int]@ == split_on(s@, sep)[j as int]);
        }
        j = j + 1;
    }
    proof {
        if m > 0 {
            assert(d@.map_values(|u: usize| u as int)[m - 1] == d@[m - 1] as int);
            assert(d@[m - 1] < n);
        }
    }
    let lo: usize = if m == 0 {
        0
    } else {
        d[m - 1] + 1
    };
    let seg = s.substring_char(lo, n);
    r.push(String::from_str(seg));
    proof {
        let dsp = sep_indices(s@, sep);
        assert(lo as int == seg_lo(dsp, m as int));
        assert(n as int == seg_hi(dsp, m as int, s@.len() as int));
        assert(split_on(s@, sep)[m as int] == seg@);
        assert(r@[m as int]@ == split_on(s@, sep)[m as int]);
        assert(views_of(r@) =~= split_on(s@, sep));
    }
    r
}

/// Whitespace for the purposes of tokenizing scan output.
pub open spec fn is_ws(c: char) -> bool {
    c == ' ' || c == '\t' || c == '\r'
}

/// Positions of whitespace characters within `s`, in increasing order.
pub open spec fn ws_indices(s: Seq<char>) -> Seq<int>
    decreases s.len(),
{
    if s.len() == 0 {
        Seq::empty()
    } else {
        let rest = ws_indices(s.drop_last());
        if is_ws(s[s.len() - 1]) {
            rest.push(s.len() - 1)
        } else {
            rest
        }
    }
}

/// `s` split at every whitespace character, empty segments kept.
pub open spec fn split_ws(s: Seq<char>) -> Seq<Seq<char>> {
    let d = ws_indices(s);
    Seq::new(d.len() + 1, |j: int| s.subrange(seg_lo(d, j), seg_hi(d, j, s.len() as int)))
}

/// The whitespace-delimited tokens of `s`: maximal runs of non-whitespace
/// characters, in order.
pub open spec fn tokens(s: Seq<char>) -> Seq<Seq<char>> {
    split_ws(s).filter(|t: Seq<char>| t.len() > 0)
}

/// The whitespace positions are exactly the in-range whitespace indices,
/// strictly increasing.
pub proof fn lemma_ws_indices_facts(s: Seq<char>)
    ensures
        ws_indices(s).len() <= s.len(),
        forall|j: int| 0 <= j < ws_indices(s).len() ==> 0 <= #[trigger] ws_indices(s)[j] < s.len(),
        forall|j: int|
            0 < j < ws_indices(s).len() ==> ws_indices(s)[j - 1] < #[trigger] ws_indices(s)[j],
        forall|j: int| 0 <= j < ws_indices(s).len() ==> is_ws(s[#[trigger] ws_indices(s)[j]]),
    decreases s.len(),
{
    if s.len() > 0 {
        lemma_ws_indices_facts(s.drop_last());
    }
}

/// Growing the scanned prefix by one character extends the whitespace
/// positions exactly when that character is whitespace.
pub proof fn lemma_ws_indices_step(s: Seq<char>, i: int)
    requires
        0 <= i < s.len(),
    ensures
        ws_indices(s.take(i + 1)) == if is_ws(s[i]) {
            ws_indices(s.take(i)).push(i)
        } else {
            ws_indices(s.take(i))
        },
{
    assert(s.take(i + 1).drop_last() =~= s.take(i));
    assert(s.take(i + 1)[i] == s[i]);
}

/// The positions of whitespace in `s`, found by a single scan.
pub fn find_ws_positions(s: &str) -> (r: Vec<usize>)
    ensures
        r@.map_values(|u: usize| u as int) == ws_indices(s@),
{
    let n = s.unicode_len();
    let mut r: Vec<usize> = Vec::new();
    let mut i: usize = 0;
    while i < n
        invariant
            n == s@.len(),
            i <= n,
            r@.map_values(|u: usize| u as int) == ws_indices(s@.take(i as int)),
        decreases n - i,
    {
        let c = s.get_char(i);
        proof {
            lemma_ws_indices_step(s@, i as int);
        }
        if c == ' ' || c == '\t' || c == '\r' {
            r.push(i);
            proof {
                assert(r@.map_values(|u: usize| u as int) =~= ws_indices(s@.take(i as int)).push(
                    i as int,
                ));
            }
        }
        i = i + 1;
    }
    proof {
        assert(s@.take(n as int) =~= s@);
    }
    r
}

/// The whitespace-delimited tokens of `s`, in order.
#[verifier::rlimit(50)]
pub fn tokens_of(s: &str) -> (r: Vec<String>)
    ensures
        views_of(r@) == tokens(s@),
{
    let n = s.unicode_len();
    let d = find_ws_positions(s);
    proof {
        lemma_ws_indices_facts(s@);
    }
    let m = d.len();
    let mut r: Vec<String> = Vec::new();
    let mut j: usize = 0;
    while j < m
        invariant
            n == s@.len(),
            d@.map_values(|u: usize| u as int) == ws_indices(s@),
            m == d.len(),
            m <= n,
            forall|t: int|
                0 <= t < ws_indices(s@).len() ==> 0 <= #[trigger] ws_indices(s@)[t] < s@.len(),
            forall|t: int|
                0 < t < ws_indices(s@).len() ==> ws_indices(s@)[t - 1] < #[trigger] ws_indices(
                    s@,
                )[t],
            j <= m,
            views_of(r@) =~= split_ws(s@).take(j as int).filter(|t: Seq<char>| t.len() > 0),
        decreases m - j,
    {
        proof {
            assert(d@.map_values(|u: usize| u as int)[j as int] == d@[j as int] as int);
            if j > 0 {
                assert(d@.map_values(|u: usize| u as int)[j - 1] == d@[j - 1] as int);
            }
        }
        let lo: usize = if j == 0 {
            0
        } else {
            d[j - 1] + 1
        };
        let hi: usize = d[j];
        proof {
            reveal(Seq::filter);
            let dsp = ws_indices(s@);
            assert(lo as int == seg_lo(dsp, j as int));
            assert(hi as int == seg_hi(dsp, j as int, s@.len() as int));
            assert(split_ws(s@)[j as int] == s@.subrange(lo as int, hi as int));
            assert(split_ws(s@).take(j + 1).drop_last() =~= split_ws(s@).take(j as int));
            assert(split_ws(s@).take(j + 1).last() == split_ws(s@)[j as int]);
        }
        if lo < hi {
            let seg = s.substring_char(lo, hi);
            r.push(String::from_str(seg));
            proof {
                reveal(Seq::filter);
                assert(split_ws(s@)[j as int].len() > 0);
                assert(views_of(r@) =~= split_ws(s@).take(j + 1).filter(
                    |t: Seq<char>| t.len() > 0,
                ));
            }
        } else {
            proof {
                reveal(Seq::filter);
                assert(split_ws(s@)[j as int].len() == 0);
                assert(views_of(r@) =~= split_ws(s@).take(j + 1).filter(
                    |t: Seq<char>| t.len() > 0,
                ));
            }
        }
        j = j + 1;
    }
    proof {
        if m > 0 {
            assert(d@.map_values(|u: usize| u as int)[m - 1] == d@[m - 1] as int);
            assert(d@[m - 1] < n);
        }
    }
    let lo: usize = if m == 0 {
        0
    } else {
        d[m - 1] + 1
    };
    proof {
        reveal(Seq::filter);
        let dsp = ws_indices(s@);
        assert(lo as int == seg_lo(dsp, m as int));
        assert(n as int == seg_hi(dsp, m as int, s@.len() as int));
        assert(split_ws(s@)[m as int] == s@.subrange(lo as int, n as int));
        assert(split_ws(s@).drop_last() =~= split_ws(s@).take(m as int));
        assert(split_ws(s@).last() == split_ws(s@)[m as int]);
    }
    if lo < n {
        let seg = s.substring_char(lo, n);
        r.push(String::from_str(seg));
        proof {
            reveal(Seq::filter);
            assert(split_ws(s@)[m as int].len() > 0);
            assert(views_of(r@) =~= tokens(s@));
        }
    } else {
        proof {
            reveal(Seq::filter);
            assert(split_ws(s@)[m as int].len() == 0);
            assert(views_of(r@) =~= tokens(s@));
        }
    }
    r
}

/// `p` is a prefix of `s`.
pub open spec fn is_prefix(p: Seq<char>, s: Seq<char>) -> bool {
    p.len() <= s.len() && p == s.take(p.len() as int)
}

/// Whether `s` starts with `p`.
pub fn starts_with_prefix(s: &str, p: &str) -> (r: bool)
    ensures
        r == is_prefix(p@, s@),
{
    let np = p.unicode_len();
    let ns = s.unicode_len();
    if np > ns {
        proof {
            assert(!is_prefix(p@, s@));
        }
        return false;
    }
    let mut i: usize = 0;
    while i < np
        invariant
            np == p@.len(),
            ns == s@.len(),
            np <= ns,
            i <= np,
            forall|t: int| 0 <= t < i ==> p@[t] == s@[t],
        decreases np - i,
    {
        let cp = p.get_char(i);
        let cs = s.get_char(i);
        if cp != cs {
            proof {
                assert(s@.take(np as int)[i as int] == s@[i as int]);
                assert(p@ != s@.take(np as int));
            }
            return false;
        }
        i = i + 1;
    }
    proof {
        assert(p@ =~= s@.take(np as int));
    }
    true
}

} // verus!
