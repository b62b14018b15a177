//! Z-encoding of GHC symbol names: characters that may not appear in a
//! symbol are written as two-character escapes, and tuple constructors as
//! their arity.
use crate::text::{char_vec, digit_char, digit_char_of};
use vstd::prelude::*;

verus! {

/// The two-character escape of a character that has one.
pub open spec fn escape(c: char) -> Option<(char, char)> {
    match c {
        ')' => Some(('Z', 'R')),
        '[' => Some(('Z', 'M')),
        ']' => Some(('Z', 'N')),
        ':' => Some(('Z', 'C')),
        'Z' => Some(('Z', 'Z')),
        '&' => Some(('z', 'a')),
        '|' => Some(('z', 'b')),
        '^' => Some(('z', 'c')),
        '$' => Some(('z', 'd')),
        '=' => Some(('z', 'e')),
        '>' => Some(('z', 'g')),
        '#' => Some(('z', 'h')),
        '.' => Some(('z', 'i')),
        '<' => Some(('z', 'l')),
        '-' => Some(('z', 'm')),
        '!' => Some(('z', 'n')),
        '+' => Some(('z', 'p')),
        '\'' => Some(('z', 'q')),
        '\\' => Some(('z', 'r')),
        '/' => Some(('z', 's')),
        '*' => Some(('z', 't')),
        '_' => Some(('z', 'u')),
        '%' => Some(('z', 'v')),
        'z' => Some(('z', 'z')),
        _ => None,
    }
}

/// How a character other than `(` is written.
pub open spec fn enc_char(c: char) -> Seq<char> {
    match escape(c) {
        Some((a, b)) => seq![a, b],
        None => seq![c],
    }
}

/// The characters that may stand between the parentheses of a tuple.
pub open spec fn is_tuple_char(c: char) -> bool {
    c == '#' || c == ' ' || c == ','
}

/// The length of the longest prefix of `s` made of tuple characters.
pub open spec fn tuple_run(s: Seq<char>) -> nat
    decreases s.len(),
{
    if s.len() > 0 && is_tuple_char(s[0]) {
        1 + tuple_run(s.drop_first())
    } else {
        0
    }
}

pub open spec fn comma_count(r: Seq<char>) -> nat
    decreases r.len(),
{
    if r.len() == 0 {
        0
    } else {
        comma_count(r.drop_last()) + if r.last() == ',' {
            1nat
        } else {
            0nat
        }
    }
}

pub open spec fn has_hash(r: Seq<char>) -> bool
    decreases r.len(),
{
    r.len() > 0 && (r.last() == '#' || has_hash(r.drop_last()))
}

/// The arity of a tuple whose inside is `r`: one more than its commas, or
/// none for the unit tuple.
pub open spec fn arity(r: Seq<char>) -> nat {
    if comma_count(r) == 0 {
        0
    } else {
        comma_count(r) + 1
    }
}

/// The decimal digits of `n`.
pub open spec fn decimal(n: nat) -> Seq<char>
    decreases n,
{
    if n < 10 {
        seq![digit_char(n)]
    } else {
        decimal(n / 10).push(digit_char(n % 10))
    }
}

pub open spec fn prepend(p: Seq<char>, o: Option<Seq<char>>) -> Option<Seq<char>> {
    match o {
        Some(t) => Some(p + t),
        None => None,
    }
}

/// The z-encoding of `s`. A `(` that opens a tuple made of `#`, spaces and
/// commas up to its `)` becomes `Z<arity>H` (unboxed, with a `#`) or
/// `Z<arity>T`; a `(` followed by anything else becomes `ZL`, unless some
/// tuple characters came first, which makes the name unencodable.
pub open spec fn z_enc(s: Seq<char>) -> Option<Seq<char>>
    decreases s.len(),
{
    if s.len() == 0 {
        Some(seq![])
    } else if s[0] == '(' {
        let k = tuple_run(s.drop_first()) as int;
        let run = s.subrange(1, 1 + k);
        if 1 + k < s.len() && s[1 + k] == ')' {
            prepend(
                seq!['Z'] + decimal(arity(run)) + seq![
                    if has_hash(run) {
                        'H'
                    } else {
                        'T'
                    },
                ],
                z_enc(s.subrange(2 + k, s.len() as int)),
            )
        } else if k > 0 {
            None
        } else {
            prepend(seq!['Z', 'L'], z_enc(s.drop_first()))
        }
    } else {
        prepend(enc_char(s[0]), z_enc(s.drop_first()))
    }
}

fn escape_of(c: char) -> (r: Option<(char, char)>)
    ensures
        r == escape(c),
{
    match c {
        ')' => Some(('Z', 'R')),
        '[' => Some(('Z', 'M')),
        ']' => Some(('Z', 'N')),
        ':' => Some(('Z', 'C')),
        'Z' => Some(('Z', 'Z')),
        '&' => Some(('z', 'a')),
        '|' => Some(('z', 'b')),
        '^' => Some(('z', 'c')),
        '$' => Some(('z', 'd')),
        '=' => Some(('z', 'e')),
        '>' => Some(('z', 'g')),
        '#' => Some(('z', 'h')),
        '.' => Some(('z', 'i')),
        '<' => Some(('z', 'l')),
        '-' => Some(('z', 'm')),
        '!' => Some(('z', 'n')),
        '+' => Some(('z', 'p')),
        '\'' => Some(('z', 'q')),
        '\\' => Some(('z', 'r')),
        '/' => Some(('z', 's')),
        '*' => Some(('z', 't')),
        '_' => Some(('z', 'u')),
        '%' => Some(('z', 'v')),
        'z' => Some(('z', 'z')),
        _ => None,
    }
}

/// Appends the decimal digits of `n` to `out`.
pub fn push_decimal(out: &mut String, n: usize)
    ensures
        final(out)@ == old(out)@ + decimal(n as nat),
    decreases n,
{
    if n >= 10 {
        push_decimal(out, n / 10);
    }
    out.push(digit_char_of((n % 10) as u8));
    assert(final(out)@ =~= old(out)@ + decimal(n as nat));
}

proof fn lemma_tuple_run(u: Seq<char>, m: int)
    requires
        0 <= m <= u.len(),
        forall|x: int| 0 <= x < m ==> is_tuple_char(#[trigger] u[x]),
        m == u.len() || !is_tuple_char(u[m]),
    ensures
        tuple_run(u) == m,
    decreases m,
{
    if m > 0 {
        let v = u.drop_first();
        assert forall|x: int| 0 <= x < m - 1 implies is_tuple_char(#[trigger] v[x]) by {
            assert(v[x] == u[x + 1]);
        }
        lemma_tuple_run(v, m - 1);
    }
}

/// Encodes the `(` at `t[i]` and what it opens; returns where encoding goes
/// on, or `None` where the rest of the name cannot be encoded.
fn encode_paren(t: &Vec<char>, i: usize, out: &mut String) -> (r: Option<usize>)
    requires
        i < t.len(),
        t@[i as int] == '(',
    ensures
        match r {
            Some(j) => i < j <= t.len() && prepend(
                final(out)@,
                z_enc(t@.subrange(j as int, t.len() as int)),
            ) == prepend(old(out)@, z_enc(t@.subrange(i as int, t.len() as int))),
            None => z_enc(t@.subrange(i as int, t.len() as int)) is None,
        },
{
    let n = t.len();
    let ghost rest = t@.subrange(i as int, n as int);
    let ghost before = out@;
    assert(rest[0] == '(');
    let mut j: usize = i + 1;
    let mut commas: usize = 0;
    let mut unboxed = false;
    while j < n && (t[j] == '#' || t[j] == ' ' || t[j] == ',')
        invariant
            n == t.len(),
            i < j <= n,
            commas <= j - i - 1,
            commas == comma_count(t@.subrange(i + 1, j as int)),
            unboxed == has_hash(t@.subrange(i + 1, j as int)),
            forall|x: int| i + 1 <= x < j ==> is_tuple_char(#[trigger] t@[x]),
        decreases n - j,
    {
        assert(t@.subrange(i + 1, j + 1).drop_last() =~= t@.subrange(i + 1, j as int));
        if t[j] == ',' {
            commas = commas + 1;
        }
        if t[j] == '#' {
            unboxed = true;
        }
        j = j + 1;
    }
    let ghost u = rest.drop_first();
    proof {
        assert forall|x: int| 0 <= x < j - i - 1 implies is_tuple_char(#[trigger] u[x]) by {
            assert(u[x] == t@[i + 1 + x]);
        }
        if j < n {
            assert(u[j - i - 1] == t@[j as int]);
        }
        lemma_tuple_run(u, j - i - 1);
        assert(rest.subrange(1, (j - i) as int) =~= t@.subrange(i + 1, j as int));
    }
    if j < n && t[j] == ')' {
        let a: usize = if commas == 0 {
            0
        } else {
            commas + 1
        };
        out.push('Z');
        push_decimal(out, a);
        if unboxed {
            out.push('H');
        } else {
            out.push('T');
        }
        proof {
            assert(rest.subrange((j - i + 1) as int, rest.len() as int) =~= t@.subrange(
                j + 1,
                n as int,
            ));
            let code = seq!['Z'] + decimal(a as nat) + seq![
                if unboxed {
                    'H'
                } else {
                    'T'
                },
            ];
            assert(out@ =~= before + code);
            match z_enc(t@.subrange(j + 1, n as int)) {
                Some(x) => {
                    assert(before + (code + x) =~= out@ + x);
                },
                None => {},
            }
        }
        Some(j + 1)
    } else if j > i + 1 {
        None
    } else {
        out.push('Z');
        out.push('L');
        proof {
            assert(rest.drop_first() =~= t@.subrange(i + 1, n as int));
            match z_enc(t@.subrange(i + 1, n as int)) {
                Some(x) => {
                    assert(before + (seq!['Z', 'L'] + x) =~= out@ + x);
                },
                None => {},
            }
        }
        Some(i + 1)
    }
}

/// Z-encodes a name; `None` where a `(` is followed by tuple characters
/// that no `)` closes.
pub fn z_encode(s: &str) -> (r: Option<String>)
    ensures
        match z_enc(s@) {
            Some(t) => r is Some && r->Some_0@ == t,
            None => r is None,
        },
{
    let t = char_vec(s);
    let n = t.len();
    let mut out = String::new();
    let mut i: usize = 0;
    assert(t@.subrange(0, n as int) =~= t@);
    assert(out@ + z_enc(s@)->0 =~= z_enc(s@)->0);
    while i < n
        invariant
            n == t.len(),
            t@ == s@,
            i <= n,
            z_enc(s@) == prepend(out@, z_enc(t@.subrange(i as int, n as int))),
        decreases n - i,
    {
        let c = t[i];
        if c == '(' {
            match encode_paren(&t, i, &mut out) {
                Some(j) => {
                    i = j;
                },
                None => {
                    return None;
                },
            }
        } else {
            let ghost rest = t@.subrange(i as int, n as int);
            let ghost before = out@;
            assert(rest[0] == c);
            match escape_of(c) {
                Some((a, b)) => {
                    out.push(a);
                    out.push(b);
                },
                None => {
                    out.push(c);
                },
            }
            proof {
                assert(out@ =~= before + enc_char(c));
                assert(rest.drop_first() =~= t@.subrange(i + 1, n as int));
                match z_enc(t@.subrange(i + 1, n as int)) {
                    Some(x) => {
                        assert(before + (enc_char(c) + x) =~= out@ + x);
                    },
                    None => {},
                }
            }
            i = i + 1;
        }
    }
    assert(t@.subrange(n as int, n as int) =~= Seq::<char>::empty());
    assert(out@ + Seq::<char>::empty() =~= out@);
    Some(out)
}

} // verus!
