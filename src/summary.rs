//! The one-line summary that a GHC-compiled program prints under `+RTS -t`,
//! e.g.
//! `<<ghc: 3227088 bytes, 4 GCs, 200584/234944 avg/max bytes residency (2 samples), 2M in use, ...`.
use crate::text::{all_digits, char_vec, digit_run, digits_value, parse_digits, run_end};
use vstd::prelude::*;

verus! {

/// The figures read from a summary line.
#[derive(Clone, Copy, Debug, PartialEq, Eq, Structural)]
pub struct GhcSummary {
    pub allocs: u64,
    pub gcs: u64,
    pub avg_res: u64,
    pub max_res: u64,
    pub in_use: u64,
}

pub open spec fn open_mark() -> Seq<char> {
    seq!['<', '<', 'g', 'h', 'c', ':', ' ']
}

pub open spec fn bytes_mark() -> Seq<char> {
    seq![' ', 'b', 'y', 't', 'e', 's', ',', ' ']
}

pub open spec fn gcs_mark() -> Seq<char> {
    seq![' ', 'G', 'C', 's', ',', ' ']
}

pub open spec fn in_use_mark() -> Seq<char> {
    seq!['M', ' ', 'i', 'n', ' ', 'u', 's', 'e']
}

/// `s` holds `lit` at index `i`.
pub open spec fn has_at(s: Seq<char>, i: int, lit: Seq<char>) -> bool {
    0 <= i && i + lit.len() <= s.len() && s.subrange(i, i + lit.len() as int) == lit
}

/// The end of the run of decimal digits that starts at `b`.
pub open spec fn number_end(s: Seq<char>, b: int) -> int {
    b + digit_run(s.subrange(b, s.len() as int), 10) as int
}

/// The value of the run of decimal digits that starts at `b`.
pub open spec fn number_at(s: Seq<char>, b: int) -> nat {
    digits_value(s.subrange(b, number_end(s, b)), 10)
}

/// At `b` stand one or more decimal digits, then `lit`.
pub open spec fn number_then(s: Seq<char>, b: int, lit: Seq<char>) -> bool {
    number_end(s, b) > b && has_at(s, number_end(s, b), lit)
}

/// Where the text after the digits at `b` and `lit` begins.
pub open spec fn after(s: Seq<char>, b: int, lit: Seq<char>) -> int {
    number_end(s, b) + lit.len()
}

/// At `q` stands ` <digits>M in use`, on the same line as `a`, not before it.
pub open spec fn in_use_at(s: Seq<char>, a: int, q: int) -> bool {
    &&& a <= q < s.len()
    &&& forall|k: int| a <= k < q ==> s[k] != '\n'
    &&& s[q] == ' '
    &&& number_then(s, q + 1, in_use_mark())
}

/// The last `q` not after `hi` where `in_use_at(s, a, q)` holds: the place
/// that a greedy `.*` between them leaves.
pub open spec fn last_in_use(s: Seq<char>, a: int, hi: int) -> Option<int>
    decreases hi - a + 1,
{
    if hi < a {
        None
    } else if in_use_at(s, a, hi) {
        Some(hi)
    } else {
        last_in_use(s, a, hi - 1)
    }
}

/// Where the numbers of a summary starting at `p` begin: allocations, GCs,
/// average residency, maximum residency, and where the rest of the line
/// begins.
pub open spec fn starts(s: Seq<char>, p: int) -> (int, int, int, int, int) {
    let b1 = p + 7;
    let b2 = after(s, b1, bytes_mark());
    let b3 = after(s, b2, gcs_mark());
    let b4 = after(s, b3, seq!['/']);
    (b1, b2, b3, b4, after(s, b4, seq![' ']))
}

/// A summary starts at `p`: `<<ghc: N bytes, N GCs, N/N `, then anything on
/// the same line, then ` NM in use`, with one or more ASCII digits for each N.
pub open spec fn summary_at(s: Seq<char>, p: int) -> bool {
    let (b1, b2, b3, b4, a) = starts(s, p);
    &&& has_at(s, p, open_mark())
    &&& number_then(s, b1, bytes_mark())
    &&& number_then(s, b2, gcs_mark())
    &&& number_then(s, b3, seq!['/'])
    &&& number_then(s, b4, seq![' '])
    &&& last_in_use(s, a, s.len() - 1) is Some
}

/// The first index, from `p` on, at which a summary starts.
pub open spec fn first_summary(s: Seq<char>, p: int) -> Option<int>
    decreases s.len() - p,
{
    if p >= s.len() {
        None
    } else if summary_at(s, p) {
        Some(p)
    } else {
        first_summary(s, p + 1)
    }
}

/// The figures of the first summary in `s`, or `None` where there is no
/// summary or one of its numbers does not fit in a `u64`.
pub open spec fn ghc_summary(s: Seq<char>) -> Option<GhcSummary> {
    match first_summary(s, 0) {
        None => None,
        Some(p) => {
            let (b1, b2, b3, b4, a) = starts(s, p);
            let b5 = last_in_use(s, a, s.len() - 1)->0 + 1;
            let n = seq![
                number_at(s, b1),
                number_at(s, b2),
                number_at(s, b3),
                number_at(s, b4),
                number_at(s, b5),
            ];
            if forall|k: int| 0 <= k < 5 ==> #[trigger] n[k] <= u64::MAX {
                Some(
                    GhcSummary {
                        allocs: n[0] as u64,
                        gcs: n[1] as u64,
                        avg_res: n[2] as u64,
                        max_res: n[3] as u64,
                        in_use: n[4] as u64,
                    },
                )
            } else {
                None
            }
        },
    }
}

fn has_at_exec(t: &Vec<char>, i: usize, lit: &[char]) -> (r: bool)
    ensures
        r == has_at(t@, i as int, lit@),
{
    if i > t.len() || lit.len() > t.len() - i {
        return false;
    }
    let mut k: usize = 0;
    while k < lit.len()
        invariant
            i + lit.len() <= t.len(),
            k <= lit.len(),
            forall|x: int| 0 <= x < k ==> t@[i + x] == lit@[x],
        decreases lit.len() - k,
    {
        if t[i + k] != lit[k] {
            assert(t@.subrange(i as int, i + lit.len())[k as int] == t@[i + k]);
            return false;
        }
        k = k + 1;
    }
    assert(t@.subrange(i as int, i + lit.len()) =~= lit@);
    true
}

/// Where the digits at `b` followed by `lit` end, with `lit`; `None` where
/// they are not there.
fn number_then_exec(t: &Vec<char>, b: usize, lit: &[char]) -> (r: Option<usize>)
    requires
        b <= t.len(),
    ensures
        r is Some <==> number_then(t@, b as int, lit@),
        r is Some ==> r->0 == after(t@, b as int, lit@) && r->0 <= t.len(),
{
    let e = run_end(t, b, 10);
    if e > b && has_at_exec(t, e, lit) {
        Some(e + lit.len())
    } else {
        None
    }
}

/// The first index at or after `a` that holds a line feed, or the length.
fn line_end(t: &Vec<char>, a: usize) -> (l: usize)
    requires
        a <= t.len(),
    ensures
        a <= l <= t.len(),
        forall|k: int| a <= k < l ==> t@[k] != '\n',
        l == t.len() || t@[l as int] == '\n',
{
    let mut l = a;
    while l < t.len() && t[l] != '\n'
        invariant
            a <= l <= t.len(),
            forall|k: int| a <= k < l ==> t@[k] != '\n',
        decreases t.len() - l,
    {
        l = l + 1;
    }
    l
}

/// The start of the ` NM in use` that a summary whose tail begins at `a` ends
/// with.
fn last_in_use_exec(t: &Vec<char>, a: usize) -> (r: Option<usize>)
    requires
        a <= t.len(),
    ensures
        match r {
            Some(q) => last_in_use(t@, a as int, t.len() - 1) == Some(q as int) && q < t.len(),
            None => last_in_use(t@, a as int, t.len() - 1) is None,
        },
{
    let l = line_end(t, a);
    let mark = ['M', ' ', 'i', 'n', ' ', 'u', 's', 'e'];
    assert(mark@ =~= in_use_mark());
    let mut q: usize = t.len();
    while q > a
        invariant
            a <= q <= t.len(),
            a <= l <= t.len(),
            forall|k: int| a <= k < l ==> t@[k] != '\n',
            l == t.len() || t@[l as int] == '\n',
            mark@ == in_use_mark(),
            last_in_use(t@, a as int, t.len() - 1) == last_in_use(t@, a as int, q - 1),
        decreases q,
    {
        let c = q - 1;
        if c < l && t[c] == ' ' {
            match number_then_exec(t, c + 1, &mark) {
                Some(_) => {
                    return Some(c);
                },
                None => {},
            }
        }
        proof {
            if c >= l {
                assert(t@[l as int] == '\n');
            }
        }
        assert(!in_use_at(t@, a as int, c as int));
        q = c;
    }
    None
}

/// Where the numbers of a summary at `p` begin, if one starts there.
fn summary_at_exec(t: &Vec<char>, p: usize) -> (r: Option<(usize, usize, usize, usize, usize)>)
    requires
        p < t.len(),
    ensures
        r is Some <==> summary_at(t@, p as int),
        r matches Some((b1, b2, b3, b4, b5)) ==> {
            let st = starts(t@, p as int);
            &&& b1 == st.0 && b2 == st.1 && b3 == st.2 && b4 == st.3
            &&& last_in_use(t@, st.4, t.len() - 1) == Some(b5 - 1)
            &&& b1 <= t.len() && b2 <= t.len() && b3 <= t.len() && b4 <= t.len() && b5 <= t.len()
        },
{
    let open = ['<', '<', 'g', 'h', 'c', ':', ' '];
    let bytes = [' ', 'b', 'y', 't', 'e', 's', ',', ' '];
    let gcs = [' ', 'G', 'C', 's', ',', ' '];
    let slash = ['/'];
    let space = [' '];
    assert(open@ =~= open_mark());
    assert(bytes@ =~= bytes_mark());
    assert(gcs@ =~= gcs_mark());
    assert(slash@ =~= seq!['/']);
    assert(space@ =~= seq![' ']);
    if !has_at_exec(t, p, &open) {
        return None;
    }
    let b1 = p + 7;
    let b2 = match number_then_exec(t, b1, &bytes) {
        None => {
            return None;
        },
        Some(x) => x,
    };
    let b3 = match number_then_exec(t, b2, &gcs) {
        None => {
            return None;
        },
        Some(x) => x,
    };
    let b4 = match number_then_exec(t, b3, &slash) {
        None => {
            return None;
        },
        Some(x) => x,
    };
    let a = match number_then_exec(t, b4, &space) {
        None => {
            return None;
        },
        Some(x) => x,
    };
    match last_in_use_exec(t, a) {
        None => None,
        Some(q) => Some((b1, b2, b3, b4, q + 1)),
    }
}

/// The value of the digits at `b`, if it fits in a `u64`.
fn number_value(t: &Vec<char>, b: usize) -> (r: Option<u64>)
    requires
        b <= t.len(),
    ensures
        match r {
            Some(v) => v as nat == number_at(t@, b as int),
            None => number_at(t@, b as int) > u64::MAX || number_end(t@, b as int) == b,
        },
{
    let e = run_end(t, b, 10);
    if e == b {
        return None;
    }
    let ghost d = t@.subrange(b as int, e as int);
    assert(d[0] != '+') by {
        assert(all_digits(d, 10));
        assert(crate::text::digit_of(d[0], 10) is Some);
    }
    parse_digits(t, b, e, 10)
}

/// Reads the figures of the first GHC summary in `s`: `None` where `s` holds
/// none, or where one of its numbers does not fit in a `u64`.
pub fn parse_ghc_summary(s: &str) -> (r: Option<GhcSummary>)
    ensures
        r == ghc_summary(s@),
{
    let t = char_vec(s);
    let mut p: usize = 0;
    while p < t.len()
        invariant
            t@ == s@,
            first_summary(s@, 0) == first_summary(s@, p as int),
        decreases t.len() - p,
    {
        match summary_at_exec(&t, p) {
            None => {
                p = p + 1;
            },
            Some((b1, b2, b3, b4, b5)) => {
                let ghost n = seq![
                    number_at(s@, b1 as int),
                    number_at(s@, b2 as int),
                    number_at(s@, b3 as int),
                    number_at(s@, b4 as int),
                    number_at(s@, b5 as int),
                ];
                let allocs = number_value(&t, b1);
                let gcs = number_value(&t, b2);
                let avg_res = number_value(&t, b3);
                let max_res = number_value(&t, b4);
                let in_use = number_value(&t, b5);
                proof {
                    let st = starts(s@, p as int);
                    let q = b5 - 1;
                    assert(in_use_at(s@, st.4, q as int)) by {
                        lemma_last_in_use_holds(s@, st.4, s@.len() - 1);
                    }
                }
                return match (allocs, gcs, avg_res, max_res, in_use) {
                    (Some(a1), Some(a2), Some(a3), Some(a4), Some(a5)) => Some(
                        GhcSummary { allocs: a1, gcs: a2, avg_res: a3, max_res: a4, in_use: a5 },
                    ),
                    _ => {
                        assert(!(forall|k: int| 0 <= k < 5 ==> #[trigger] n[k] <= u64::MAX)) by {
                            if allocs is None {
                                assert(n[0] > u64::MAX);
                            } else if gcs is None {
                                assert(n[1] > u64::MAX);
                            } else if avg_res is None {
                                assert(n[2] > u64::MAX);
                            } else if max_res is None {
                                assert(n[3] > u64::MAX);
                            } else {
                                assert(n[4] > u64::MAX);
                            }
                        }
                        None
                    },
                };
            },
        }
    }
    None
}

proof fn lemma_last_in_use_holds(s: Seq<char>, a: int, hi: int)
    ensures
        last_in_use(s, a, hi) matches Some(q) ==> in_use_at(s, a, q),
    decreases hi - a + 1,
{
    if hi >= a && !in_use_at(s, a, hi) {
        lemma_last_in_use_holds(s, a, hi - 1);
    }
}

} // verus!
