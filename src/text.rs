//! Character-level helpers shared by the parsers: whitespace, word
//! splitting and unsigned integer parsing.
use vstd::prelude::*;

verus! {

/// Relies on `String::push`: the character is appended to the end of the
/// string.
pub assume_specification[ String::push ](string: &mut String, ch: char)
    ensures
        final(string)@ == old(string)@.push(ch),
;

/// Whether `v` is a Unicode scalar value: at most `0x10FFFF` and not a
/// surrogate.
pub open spec fn is_scalar(v: int) -> bool {
    0 <= v <= 0x10FFFF && !(0xD800 <= v <= 0xDFFF)
}

/// Relies on `char::from_u32`: the character with that code, for a Unicode
/// scalar value, and `None` for any other number.
pub assume_specification[ char::from_u32 ](i: u32) -> (r: Option<char>)
    ensures
        is_scalar(i as int) ==> r == Some(i as char),
        !is_scalar(i as int) ==> r is None,
;

/// The decimal digit for `d`, which is below 10.
pub open spec fn digit_char(d: nat) -> char {
    (d + 48) as char
}

pub fn digit_char_of(d: u8) -> (r: char)
    requires
        d < 10,
    ensures
        r == digit_char(d as nat),
{
    (d + 48) as char
}

/// Whether `c` is a Unicode `White_Space` character, as `char::is_whitespace`
/// defines it.
pub open spec fn is_space(c: char) -> bool {
    ||| c == ' '
    ||| ('\t' <= c && c <= '\r')
    ||| c == '\u{85}'
    ||| c == '\u{a0}'
    ||| c == '\u{1680}'
    ||| ('\u{2000}' <= c && c <= '\u{200a}')
    ||| c == '\u{2028}'
    ||| c == '\u{2029}'
    ||| c == '\u{202f}'
    ||| c == '\u{205f}'
    ||| c == '\u{3000}'
}

pub fn is_space_char(c: char) -> (r: bool)
    ensures
        r == is_space(c),
{
    c == ' ' || ('\t' <= c && c <= '\r') || c == '\u{85}' || c == '\u{a0}' || c == '\u{1680}'
        || ('\u{2000}' <= c && c <= '\u{200a}') || c == '\u{2028}' || c == '\u{2029}'
        || c == '\u{202f}' || c == '\u{205f}' || c == '\u{3000}'
}

/// The characters of a string, in a vector.
pub fn char_vec(s: &str) -> (r: Vec<char>)
    ensures
        r@ == s@,
{
    let mut r: Vec<char> = Vec::new();
    for c in it: s.chars()
        invariant
            r@ == it.seq().take(it.index() as int),
            it.seq() == s@,
    {
        r.push(c);
    }
    r
}

/// The whitespace-separated words of `t`, as `str::split_whitespace` yields
/// them, defined by reading `t` one character at a time.
pub open spec fn words(t: Seq<char>) -> Seq<Seq<char>>
    decreases t.len(),
{
    if t.len() == 0 {
        seq![]
    } else {
        let w = words(t.drop_last());
        let c = t.last();
        if is_space(c) {
            w
        } else if t.len() >= 2 && !is_space(t[t.len() - 2]) {
            w.update(w.len() - 1, w.last().push(c))
        } else {
            w.push(seq![c])
        }
    }
}

pub open spec fn views_of(v: Seq<Vec<char>>) -> Seq<Seq<char>> {
    v.map_values(|w: Vec<char>| w@)
}

/// Splits `t[start..]` into its whitespace-separated words.
pub fn split_words(t: &Vec<char>, start: usize) -> (r: Vec<Vec<char>>)
    requires
        start <= t.len(),
    ensures
        views_of(r@) == words(t@.subrange(start as int, t.len() as int)),
{
    let mut done: Vec<Vec<char>> = Vec::new();
    let mut cur: Vec<char> = Vec::new();
    let mut i: usize = start;
    while i < t.len()
        invariant
            start <= i <= t.len(),
            cur.len() > 0 <==> (i > start && !is_space(t@[i - 1])),
            views_of(done@) + (if cur.len() > 0 { seq![cur@] } else { seq![] }) == words(
                t@.subrange(start as int, i as int),
            ),
        decreases t.len() - i,
    {
        let c = t[i];
        let ghost seen = t@.subrange(start as int, i as int);
        let ghost next = t@.subrange(start as int, i + 1);
        assert(next.drop_last() =~= seen);
        assert(next.last() == c);
        if is_space_char(c) {
            if cur.len() > 0 {
                let w = cur;
                cur = Vec::new();
                let ghost before = done@;
                done.push(w);
                assert(views_of(done@) =~= views_of(before).push(w@));
            }
        } else {
            if cur.len() > 0 {
                assert(next.len() >= 2 && next[next.len() - 2] == t@[i - 1]);
                let ghost old_cur = cur@;
                cur.push(c);
                assert(views_of(done@) + seq![cur@] =~= (views_of(done@) + seq![old_cur]).update(
                    views_of(done@).len() as int,
                    old_cur.push(c),
                ));
            } else {
                cur.push(c);
                assert(cur@ =~= seq![c]);
            }
        }
        i = i + 1;
    }
    if cur.len() > 0 {
        let ghost before = done@;
        let ghost last = cur@;
        done.push(cur);
        assert(views_of(done@) =~= views_of(before).push(last));
    } else {
        assert(views_of(done@) =~= views_of(done@) + seq![]);
    }
    done
}

/// The value of `c` as a digit in base `radix`, as `char::to_digit` gives it.
pub open spec fn digit_of(c: char, radix: nat) -> Option<nat> {
    let v: int = if '0' <= c && c <= '9' {
        c as int - '0' as int
    } else if 'a' <= c && c <= 'z' {
        c as int - 'a' as int + 10
    } else if 'A' <= c && c <= 'Z' {
        c as int - 'A' as int + 10
    } else {
        36
    };
    if v < radix {
        Some(v as nat)
    } else {
        None
    }
}

pub open spec fn all_digits(d: Seq<char>, radix: nat) -> bool {
    forall|i: int| 0 <= i < d.len() ==> (#[trigger] digit_of(d[i], radix)) is Some
}

/// The number that the digits `d` write in base `radix`, most significant first.
pub open spec fn digits_value(d: Seq<char>, radix: nat) -> nat
    decreases d.len(),
{
    if d.len() == 0 {
        0
    } else {
        digits_value(d.drop_last(), radix) * radix + digit_of(d.last(), radix)->0
    }
}

/// What `u64::from_str_radix(s, radix)` accepts: an optional `+`, then one or
/// more digits of `radix` whose value fits in a `u64`.
pub open spec fn parse_unsigned(s: Seq<char>, radix: nat) -> Option<u64> {
    let d = if s.len() > 0 && s[0] == '+' {
        s.drop_first()
    } else {
        s
    };
    if d.len() == 0 || !all_digits(d, radix) || digits_value(d, radix) > u64::MAX {
        None
    } else {
        Some(digits_value(d, radix) as u64)
    }
}

pub fn digit_value(c: char, radix: u32) -> (r: Option<u32>)
    requires
        2 <= radix <= 36,
    ensures
        match r {
            Some(v) => digit_of(c, radix as nat) == Some(v as nat),
            None => digit_of(c, radix as nat) is None,
        },
{
    let v: u32 = if '0' <= c && c <= '9' {
        (c as u32) - ('0' as u32)
    } else if 'a' <= c && c <= 'z' {
        (c as u32) - ('a' as u32) + 10
    } else if 'A' <= c && c <= 'Z' {
        (c as u32) - ('A' as u32) + 10
    } else {
        36
    };
    if v < radix {
        Some(v)
    } else {
        None
    }
}

proof fn lemma_digits_value_grows(d: Seq<char>, radix: nat, j: int, k: int)
    requires
        radix >= 1,
        0 <= j <= k <= d.len(),
    ensures
        digits_value(d.subrange(0, j), radix) <= digits_value(d.subrange(0, k), radix),
    decreases k - j,
{
    if j < k {
        lemma_digits_value_grows(d, radix, j, k - 1);
        let p = d.subrange(0, k);
        assert(p.drop_last() =~= d.subrange(0, k - 1));
        let a = digits_value(d.subrange(0, k - 1), radix);
        assert(a * radix >= a) by (nonlinear_arith)
            requires
                radix >= 1,
        ;
    }
}

/// Parses `s[start..end]` as an unsigned number in base `radix`.
pub fn parse_digits(s: &Vec<char>, start: usize, end: usize, radix: u32) -> (r: Option<u64>)
    requires
        start <= end <= s.len(),
        2 <= radix <= 36,
    ensures
        r == parse_unsigned(s@.subrange(start as int, end as int), radix as nat),
{
    let ghost src = s@.subrange(start as int, end as int);
    let mut i: usize = start;
    if i < end && s[i] == '+' {
        i = i + 1;
    }
    let ghost d = s@.subrange(i as int, end as int);
    assert(d =~= (if src.len() > 0 && src[0] == '+' {
        src.drop_first()
    } else {
        src
    }));
    if i == end {
        return None;
    }
    let first = i;
    let mut acc: u64 = 0;
    while i < end
        invariant
            first <= i <= end <= s.len(),
            d.len() > 0,
            d == s@.subrange(first as int, end as int),
            src == s@.subrange(start as int, end as int),
            d == (if src.len() > 0 && src[0] == '+' {
                src.drop_first()
            } else {
                src
            }),
            2 <= radix <= 36,
            all_digits(d.subrange(0, i - first), radix as nat),
            acc as nat == digits_value(d.subrange(0, i - first), radix as nat),
        decreases end - i,
    {
        let k = i - first;
        match digit_value(s[i], radix) {
            None => {
                assert(d[k as int] == s@[i as int]);
                return None;
            },
            Some(v) => {
                let ghost p = d.subrange(0, k + 1);
                assert(p.drop_last() =~= d.subrange(0, k as int));
                assert(p.last() == s@[i as int]);
                assert(all_digits(p, radix as nat)) by {
                    assert forall|j: int| 0 <= j < p.len() implies (#[trigger] digit_of(
                        p[j],
                        radix as nat,
                    )) is Some by {
                        if j < k {
                            assert(p[j] == d.subrange(0, k as int)[j]);
                        }
                    }
                }
                match acc.checked_mul(radix as u64) {
                    None => {
                        proof {
                            lemma_digits_value_grows(d, radix as nat, k + 1, d.len() as int);
                            assert(d.subrange(0, d.len() as int) =~= d);
                        }
                        return None;
                    },
                    Some(m) => match m.checked_add(v as u64) {
                        None => {
                            proof {
                                lemma_digits_value_grows(d, radix as nat, k + 1, d.len() as int);
                                assert(d.subrange(0, d.len() as int) =~= d);
                            }
                            return None;
                        },
                        Some(a) => {
                            acc = a;
                        },
                    },
                }
            },
        }
        i = i + 1;
    }
    assert(d.subrange(0, d.len() as int) =~= d);
    Some(acc)
}

/// The length of the longest prefix of `s` made of digits of `radix`.
pub open spec fn digit_run(s: Seq<char>, radix: nat) -> nat
    decreases s.len(),
{
    if s.len() > 0 && digit_of(s[0], radix) is Some {
        1 + digit_run(s.drop_first(), radix)
    } else {
        0
    }
}

proof fn lemma_digit_run(u: Seq<char>, m: int, radix: nat)
    requires
        0 <= m <= u.len(),
        forall|x: int| 0 <= x < m ==> (#[trigger] digit_of(u[x], radix)) is Some,
        m == u.len() || digit_of(u[m], radix) is None,
    ensures
        digit_run(u, radix) == m,
    decreases m,
{
    if m > 0 {
        let v = u.drop_first();
        assert forall|x: int| 0 <= x < m - 1 implies (#[trigger] digit_of(v[x], radix)) is Some by {
            assert(v[x] == u[x + 1]);
            assert(digit_of(u[x + 1], radix) is Some);
        }
        lemma_digit_run(v, m - 1, radix);
    }
}

/// The end of the run of digits of `radix` that starts at `t[from]`.
pub fn run_end(t: &Vec<char>, from: usize, radix: u32) -> (j: usize)
    requires
        from <= t.len(),
        2 <= radix <= 36,
    ensures
        from <= j <= t.len(),
        digit_run(t@.subrange(from as int, t.len() as int), radix as nat) == j - from,
        all_digits(t@.subrange(from as int, j as int), radix as nat),
{
    let mut j = from;
    while j < t.len() && digit_value(t[j], radix).is_some()
        invariant
            from <= j <= t.len(),
            2 <= radix <= 36,
            forall|x: int| from <= x < j ==> (#[trigger] digit_of(t@[x], radix as nat)) is Some,
        decreases t.len() - j,
    {
        j = j + 1;
    }
    let ghost u = t@.subrange(from as int, t.len() as int);
    proof {
        assert forall|x: int| 0 <= x < j - from implies (#[trigger] digit_of(
            u[x],
            radix as nat,
        )) is Some by {
            assert(u[x] == t@[from + x]);
            assert(digit_of(t@[from + x], radix as nat) is Some);
        }
        if j < t.len() {
            assert(u[j - from] == t@[j as int]);
        }
        lemma_digit_run(u, j - from, radix as nat);
        let w = t@.subrange(from as int, j as int);
        assert forall|x: int| 0 <= x < w.len() implies (#[trigger] digit_of(
            w[x],
            radix as nat,
        )) is Some by {
            assert(w[x] == t@[from + x]);
            assert(digit_of(t@[from + x], radix as nat) is Some);
        }
    }
    j
}

} // verus!
