//! Decoding of z-encoded GHC symbol names, the inverse of the escapes that
//! `z_encode` writes, together with GHC's `z<hex>U` code-point escape.
use crate::text::{all_digits, char_vec, digit_of, digit_run, digits_value, is_scalar, parse_digits, run_end};
use crate::z_encode::prepend;
use vstd::prelude::*;

verus! {

/// The character that `z` followed by `c` stands for.
pub open spec fn lower_code(c: char) -> Option<char> {
    match c {
        'a' => Some('&'),
        'b' => Some('|'),
        'c' => Some('^'),
        'd' => Some('$'),
        'e' => Some('='),
        'g' => Some('>'),
        'h' => Some('#'),
        'i' => Some('.'),
        'l' => Some('<'),
        'm' => Some('-'),
        'n' => Some('!'),
        'p' => Some('+'),
        'q' => Some('\''),
        'r' => Some('\\'),
        's' => Some('/'),
        't' => Some('*'),
        'u' => Some('_'),
        'v' => Some('%'),
        'z' => Some('z'),
        _ => None,
    }
}

/// The character that `Z` followed by `c` stands for.
pub open spec fn upper_code(c: char) -> Option<char> {
    match c {
        'Z' => Some('Z'),
        'L' => Some('('),
        'R' => Some(')'),
        'M' => Some('['),
        'N' => Some(']'),
        'C' => Some(':'),
        _ => None,
    }
}

pub open spec fn is_dec(c: char) -> bool {
    '0' <= c && c <= '9'
}

/// The character written in hexadecimal by `ds` in a `z<hex>U` escape; a lone
/// `0` writes no digits at all.
pub open spec fn code_char(ds: Seq<char>) -> Option<char> {
    if ds.len() == 1 && ds[0] == '0' {
        None
    } else if is_scalar(digits_value(ds, 16) as int) {
        Some(digits_value(ds, 16) as char)
    } else {
        None
    }
}

/// The tuple constructor of arity `v`, unboxed or not: `()`, `(# #)`, `(,,)`,
/// `(#,,#)`.
pub open spec fn tuple_text(v: nat, unboxed: bool) -> Seq<char> {
    (if unboxed {
        seq!['(', '#']
    } else {
        seq!['(']
    }) + if v == 0 {
        if unboxed {
            seq![' ', '#', ')']
        } else {
            seq![')']
        }
    } else {
        Seq::new((v - 1) as nat, |_i: int| ',') + (if unboxed {
            seq!['#']
        } else {
            seq![]
        }) + seq![')']
    }
}

/// The decoding of the z-encoded name `s`, or `None` where an escape is cut
/// short, unknown, or names no character or a tuple of more than 255.
pub open spec fn z_dec(s: Seq<char>) -> Option<Seq<char>>
    decreases s.len(),
{
    if s.len() == 0 {
        Some(seq![])
    } else if s[0] == 'z' {
        if s.len() < 2 {
            None
        } else if lower_code(s[1]) is Some {
            prepend(seq![lower_code(s[1])->0], z_dec(s.subrange(2, s.len() as int)))
        } else if is_dec(s[1]) {
            let j = 2 + digit_run(s.subrange(2, s.len() as int), 16) as int;
            if j < s.len() && s[j] == 'U' {
                match code_char(s.subrange(1, j)) {
                    Some(ch) => prepend(seq![ch], z_dec(s.subrange(j + 1, s.len() as int))),
                    None => None,
                }
            } else {
                None
            }
        } else {
            None
        }
    } else if s[0] == 'Z' {
        if s.len() < 2 {
            None
        } else if upper_code(s[1]) is Some {
            prepend(seq![upper_code(s[1])->0], z_dec(s.subrange(2, s.len() as int)))
        } else if is_dec(s[1]) {
            let j = 2 + digit_run(s.subrange(2, s.len() as int), 10) as int;
            if j < s.len() && (s[j] == 'H' || s[j] == 'T') {
                let v = digits_value(s.subrange(1, j), 10);
                if v <= 255 {
                    prepend(tuple_text(v, s[j] == 'H'), z_dec(s.subrange(j + 1, s.len() as int)))
                } else {
                    None
                }
            } else {
                None
            }
        } else {
            None
        }
    } else {
        prepend(seq![s[0]], z_dec(s.drop_first()))
    }
}

fn lower_code_of(c: char) -> (r: Option<char>)
    ensures
        r == lower_code(c),
{
    match c {
        'a' => Some('&'),
        'b' => Some('|'),
        'c' => Some('^'),
        'd' => Some('$'),
        'e' => Some('='),
        'g' => Some('>'),
        'h' => Some('#'),
        'i' => Some('.'),
        'l' => Some('<'),
        'm' => Some('-'),
        'n' => Some('!'),
        'p' => Some('+'),
        'q' => Some('\''),
        'r' => Some('\\'),
        's' => Some('/'),
        't' => Some('*'),
        'u' => Some('_'),
        'v' => Some('%'),
        'z' => Some('z'),
        _ => None,
    }
}

fn upper_code_of(c: char) -> (r: Option<char>)
    ensures
        r == upper_code(c),
{
    match c {
        'Z' => Some('Z'),
        'L' => Some('('),
        'R' => Some(')'),
        'M' => Some('['),
        'N' => Some(']'),
        'C' => Some(':'),
        _ => None,
    }
}

/// Decodes the escape that starts with the `z` at `t[i]`; returns where
/// decoding goes on, or `None` where the rest of the name cannot be decoded.
fn decode_lower(t: &Vec<char>, i: usize, out: &mut String) -> (r: Option<usize>)
    requires
        i < t.len(),
        t@[i as int] == 'z',
    ensures
        match r {
            Some(j) => i < j <= t.len() && prepend(
                final(out)@,
                z_dec(t@.subrange(j as int, t.len() as int)),
            ) == prepend(old(out)@, z_dec(t@.subrange(i as int, t.len() as int))),
            None => z_dec(t@.subrange(i as int, t.len() as int)) is None,
        },
{
    let n = t.len();
    let ghost rest = t@.subrange(i as int, n as int);
    let ghost before = out@;
    assert(rest[0] == 'z');
    if i + 1 >= n {
        return None;
    }
    let c = t[i + 1];
    assert(rest[1] == c);
    match lower_code_of(c) {
        Some(d) => {
            out.push(d);
            proof {
                assert(rest.subrange(2, rest.len() as int) =~= t@.subrange(i + 2, n as int));
                match z_dec(t@.subrange(i + 2, n as int)) {
                    Some(x) => {
                        assert(before + (seq![d] + x) =~= out@ + x);
                    },
                    None => {},
                }
            }
            return Some(i + 2);
        },
        None => {},
    }
    if !('0' <= c && c <= '9') {
        return None;
    }
    let j = run_end(t, i + 2, 16);
    proof {
        assert(rest.subrange(2, rest.len() as int) =~= t@.subrange(i + 2, n as int));
    }
    if !(j < n && t[j] == 'U') {
        proof {
            if j < n {
                assert(rest[j - i] == t@[j as int]);
            }
        }
        return None;
    }
    assert(rest[j - i] == t@[j as int]);
    let ghost ds = t@.subrange(i + 1, j as int);
    assert(rest.subrange(1, (j - i) as int) =~= ds);
    if c == '0' && j == i + 2 {
        assert(ds.len() == 1 && ds[0] == '0');
        return None;
    }
    proof {
        assert(all_digits(ds, 16)) by {
            assert forall|x: int| 0 <= x < ds.len() implies (#[trigger] digit_of(
                ds[x],
                16,
            )) is Some by {
                if x > 0 {
                    assert(ds[x] == t@.subrange(i + 2, j as int)[x - 1]);
                }
            }
        }
        assert(ds[0] != '+');
    }
    let v = match parse_digits(t, i + 1, j, 16) {
        None => {
            return None;
        },
        Some(v) => v,
    };
    if v > 0xFFFF_FFFF {
        return None;
    }
    match char::from_u32(v as u32) {
        None => None,
        Some(ch) => {
            out.push(ch);
            proof {
                assert(rest.subrange((j - i + 1) as int, rest.len() as int) =~= t@.subrange(
                    j + 1,
                    n as int,
                ));
                match z_dec(t@.subrange(j + 1, n as int)) {
                    Some(x) => {
                        assert(before + (seq![ch] + x) =~= out@ + x);
                    },
                    None => {},
                }
            }
            Some(j + 1)
        },
    }
}

/// Appends the tuple constructor of arity `v`.
fn push_tuple(out: &mut String, v: u64, unboxed: bool)
    requires
        v <= 255,
    ensures
        final(out)@ == old(out)@ + tuple_text(v as nat, unboxed),
{
    let ghost before = out@;
    out.push('(');
    if unboxed {
        out.push('#');
    }
    if v == 0 {
        if unboxed {
            out.push(' ');
            out.push('#');
        }
        out.push(')');
    } else {
        let ghost head = out@;
        let mut k: u64 = 0;
        while k < v - 1
            invariant
                k <= v - 1,
                v <= 255,
                out@ == head + Seq::new(k as nat, |_i: int| ','),
            decreases v - 1 - k,
        {
            out.push(',');
            k = k + 1;
            assert(out@ =~= head + Seq::new(k as nat, |_i: int| ','));
        }
        if unboxed {
            out.push('#');
        }
        out.push(')');
    }
    assert(out@ =~= before + tuple_text(v as nat, unboxed));
}

/// Decodes the escape that starts with the `Z` at `t[i]`; returns where
/// decoding goes on, or `None` where the rest of the name cannot be decoded.
fn decode_upper(t: &Vec<char>, i: usize, out: &mut String) -> (r: Option<usize>)
    requires
        i < t.len(),
        t@[i as int] == 'Z',
    ensures
        match r {
            Some(j) => i < j <= t.len() && prepend(
                final(out)@,
                z_dec(t@.subrange(j as int, t.len() as int)),
            ) == prepend(old(out)@, z_dec(t@.subrange(i as int, t.len() as int))),
            None => z_dec(t@.subrange(i as int, t.len() as int)) is None,
        },
{
    let n = t.len();
    let ghost rest = t@.subrange(i as int, n as int);
    let ghost before = out@;
    assert(rest[0] == 'Z');
    if i + 1 >= n {
        return None;
    }
    let c = t[i + 1];
    assert(rest[1] == c);
    match upper_code_of(c) {
        Some(d) => {
            out.push(d);
            proof {
                assert(rest.subrange(2, rest.len() as int) =~= t@.subrange(i + 2, n as int));
                match z_dec(t@.subrange(i + 2, n as int)) {
                    Some(x) => {
                        assert(before + (seq![d] + x) =~= out@ + x);
                    },
                    None => {},
                }
            }
            return Some(i + 2);
        },
        None => {},
    }
    if !('0' <= c && c <= '9') {
        return None;
    }
    let j = run_end(t, i + 2, 10);
    proof {
        assert(rest.subrange(2, rest.len() as int) =~= t@.subrange(i + 2, n as int));
    }
    if !(j < n && (t[j] == 'H' || t[j] == 'T')) {
        proof {
            if j < n {
                assert(rest[j - i] == t@[j as int]);
            }
        }
        return None;
    }
    assert(rest[j - i] == t@[j as int]);
    let ghost ds = t@.subrange(i + 1, j as int);
    assert(rest.subrange(1, (j - i) as int) =~= ds);
    proof {
        assert(all_digits(ds, 10)) by {
            assert forall|x: int| 0 <= x < ds.len() implies (#[trigger] digit_of(
                ds[x],
                10,
            )) is Some by {
                if x > 0 {
                    assert(ds[x] == t@.subrange(i + 2, j as int)[x - 1]);
                }
            }
        }
        assert(ds[0] != '+');
    }
    let v = match parse_digits(t, i + 1, j, 10) {
        None => {
            return None;
        },
        Some(v) => v,
    };
    if v > 255 {
        return None;
    }
    let unboxed = t[j] == 'H';
    push_tuple(out, v, unboxed);
    proof {
        assert(rest.subrange((j - i + 1) as int, rest.len() as int) =~= t@.subrange(
            j + 1,
            n as int,
        ));
        match z_dec(t@.subrange(j + 1, n as int)) {
            Some(x) => {
                assert(before + (tuple_text(v as nat, unboxed) + x) =~= out@ + x);
            },
            None => {},
        }
    }
    Some(j + 1)
}

/// Decodes a z-encoded name; `None` where it holds an escape that is cut
/// short, unknown, or out of range.
pub fn z_decode(s: &str) -> (r: Option<String>)
    ensures
        match z_dec(s@) {
            Some(t) => r is Some && r->Some_0@ == t,
            None => r is None,
        },
{
    let t = char_vec(s);
    let n = t.len();
    let mut out = String::new();
    let mut i: usize = 0;
    assert(t@.subrange(0, n as int) =~= t@);
    assert(out@ + z_dec(s@)->0 =~= z_dec(s@)->0);
    while i < n
        invariant
            n == t.len(),
            t@ == s@,
            i <= n,
            z_dec(s@) == prepend(out@, z_dec(t@.subrange(i as int, n as int))),
        decreases n - i,
    {
        let c = t[i];
        if c == 'z' || c == 'Z' {
            let step = if c == 'z' {
                decode_lower(&t, i, &mut out)
            } else {
                decode_upper(&t, i, &mut out)
            };
            match step {
                Some(j) => {
                    i = j;
                },
                None => {
                    return None;
                },
            }
        } else {
            let ghost rest = t@.subrange(i as int, n as int);
            let ghost before = out@;
            assert(rest[0] == c);
            out.push(c);
            proof {
                assert(rest.drop_first() =~= t@.subrange(i + 1, n as int));
                match z_dec(t@.subrange(i + 1, n as int)) {
                    Some(x) => {
                        assert(before + (seq![c] + x) =~= out@ + x);
                    },
                    None => {},
                }
            }
            i = i + 1;
        }
    }
    assert(t@.subrange(n as int, n as int) =~= Seq::<char>::empty());
    assert(out@ + Seq::<char>::empty() =~= out@);
    Some(out)
}

} // verus!
