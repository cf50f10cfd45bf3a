//! Recognition of the text that `f64`'s `FromStr` accepts.
//!
//! The standard library documents the accepted strings by a grammar, read
//! ignoring ASCII case:
//!
//! ```text
//! Float  ::= Sign? ( 'inf' | 'infinity' | 'nan' | Number )
//! Number ::= ( Digit+ | Digit+ '.' Digit* | Digit* '.' Digit+ ) Exp?
//! Exp    ::= 'e' Sign? Digit+
//! Sign   ::= [+-]
//! Digit  ::= [0-9]
//! ```
//!
//! The specification below states that grammar over `Seq<char>`, and
//! `is_float_literal` decides it.
use vstd::prelude::*;

verus! {

pub open spec fn is_digit(c: char) -> bool {
    '0' <= c && c <= '9'
}

pub open spec fn is_sign(c: char) -> bool {
    c == '+' || c == '-'
}

pub open spec fn is_exp_marker(c: char) -> bool {
    c == 'e' || c == 'E'
}

/// A character that may stand in the digits-and-point part of a number.
pub open spec fn is_mantissa_char(c: char) -> bool {
    is_digit(c) || c == '.'
}

pub open spec fn all_digits(s: Seq<char>) -> bool {
    forall|i: int| 0 <= i < s.len() ==> is_digit(#[trigger] s[i])
}

/// `s` spells `lower` (lowercase ASCII) with each letter in either case;
/// `upper` is `lower` in uppercase.
pub open spec fn matches_word(s: Seq<char>, lower: Seq<char>, upper: Seq<char>) -> bool {
    &&& s.len() == lower.len()
    &&& forall|i: int| 0 <= i < s.len() ==> (#[trigger] s[i] == lower[i] || s[i] == upper[i])
}

/// `Digit+ | Digit+ '.' Digit* | Digit* '.' Digit+`: digits with at most one
/// point, and at least one digit.
pub open spec fn is_mantissa(m: Seq<char>) -> bool {
    &&& forall|i: int| 0 <= i < m.len() ==> is_mantissa_char(#[trigger] m[i])
    &&& forall|i: int, j: int|
        0 <= i < m.len() && 0 <= j < m.len() && #[trigger] m[i] == '.' && #[trigger] m[j] == '.'
            ==> i == j
    &&& exists|i: int| 0 <= i < m.len() && is_digit(#[trigger] m[i])
}

/// `'e' Sign? Digit+`.
pub open spec fn is_exponent(x: Seq<char>) -> bool {
    &&& x.len() >= 2
    &&& is_exp_marker(x[0])
    &&& {
        let d = x.drop_first();
        let ds = if is_sign(d[0]) {
            d.drop_first()
        } else {
            d
        };
        ds.len() > 0 && all_digits(ds)
    }
}

/// `Number`: a mantissa, then an optional exponent.
pub open spec fn is_number(s: Seq<char>) -> bool {
    exists|k: int|
        0 <= k <= s.len() && #[trigger] is_mantissa(s.take(k)) && (k == s.len() || is_exponent(
            s.skip(k),
        ))
}

pub open spec fn word_inf() -> (Seq<char>, Seq<char>) {
    (seq!['i', 'n', 'f'], seq!['I', 'N', 'F'])
}

pub open spec fn word_infinity() -> (Seq<char>, Seq<char>) {
    (
        seq!['i', 'n', 'f', 'i', 'n', 'i', 't', 'y'],
        seq!['I', 'N', 'F', 'I', 'N', 'I', 'T', 'Y'],
    )
}

pub open spec fn word_nan() -> (Seq<char>, Seq<char>) {
    (seq!['n', 'a', 'n'], seq!['N', 'A', 'N'])
}

/// The text after an optional leading sign.
pub open spec fn unsigned_part(s: Seq<char>) -> Seq<char> {
    if s.len() > 0 && is_sign(s[0]) {
        s.drop_first()
    } else {
        s
    }
}

/// `Float`: the strings that parse as an `f64`.
pub open spec fn is_float_literal(s: Seq<char>) -> bool {
    let body = unsigned_part(s);
    ||| matches_word(body, word_inf().0, word_inf().1)
    ||| matches_word(body, word_infinity().0, word_infinity().1)
    ||| matches_word(body, word_nan().0, word_nan().1)
    ||| is_number(body)
}

/// The characters of a string, in a vector.
pub fn chars_of(s: &str) -> (cs: Vec<char>)
    ensures
        cs@ == s@,
{
    let n = s.unicode_len();
    let mut cs: Vec<char> = Vec::new();
    let mut i: usize = 0;
    while i < n
        invariant
            n == s@.len(),
            i <= n,
            cs@ == s@.take(i as int),
        decreases n - i,
    {
        cs.push(s.get_char(i));
        i = i + 1;
        assert(cs@ =~= s@.take(i as int));
    }
    assert(s@.take(n as int) =~= s@);
    cs
}

fn is_digit_char(c: char) -> (r: bool)
    ensures
        r == is_digit(c),
{
    '0' <= c && c <= '9'
}

/// Whether `cs[start..]` spells the word given in both cases.
fn matches_word_at(cs: &Vec<char>, start: usize, lower: &str, upper: &str) -> (r: bool)
    requires
        start <= cs@.len(),
        lower@.len() == upper@.len(),
    ensures
        r == matches_word(cs@.skip(start as int), lower@, upper@),
{
    let n = cs.len();
    let w = lower.unicode_len();
    let wu = upper.unicode_len();
    if n - start != w {
        return false;
    }
    let ghost body = cs@.skip(start as int);
    let mut i: usize = 0;
    while i < w
        invariant
            n == cs@.len(),
            start <= n,
            w == lower@.len(),
            wu == upper@.len(),
            w == wu,
            n - start == w,
            body == cs@.skip(start as int),
            i <= w,
            forall|k: int| 0 <= k < i ==> (#[trigger] body[k] == lower@[k] || body[k] == upper@[k]),
        decreases w - i,
    {
        let c = cs[start + i];
        assert(c == body[i as int]);
        if c != lower.get_char(i) && c != upper.get_char(i) {
            return false;
        }
        i = i + 1;
    }
    true
}

/// Whether `cs[start..]` is a `Number`.
fn is_number_at(cs: &Vec<char>, start: usize) -> (r: bool)
    requires
        start <= cs@.len(),
    ensures
        r == is_number(cs@.skip(start as int)),
{
    let n = cs.len();
    let ghost body = cs@.skip(start as int);
    let ghost len: int = body.len() as int;
    // The digits-and-points prefix.
    let mut p: usize = start;
    let mut has_digit = false;
    let mut dot_at: usize = n;
    while p < n && (is_digit_char(cs[p]) || cs[p] == '.')
        invariant
            n == cs@.len(),
            start <= p <= n,
            body == cs@.skip(start as int),
            len == n - start,
            forall|i: int| 0 <= i < p - start ==> is_mantissa_char(#[trigger] body[i]),
            has_digit <==> exists|i: int| 0 <= i < p - start && is_digit(#[trigger] body[i]),
            dot_at == n ==> forall|i: int| 0 <= i < p - start ==> #[trigger] body[i] != '.',
            dot_at != n ==> start <= dot_at < p && body[dot_at - start] == '.' && forall|i: int|
                0 <= i < p - start && #[trigger] body[i] == '.' ==> i == dot_at - start,
        decreases n - p,
    {
        let c = cs[p];
        assert(c == body[p - start]);
        if c == '.' {
            if dot_at != n {
                // A second point: no split of `body` gives a mantissa.
                proof {
                    let q = p - start;
                    let f = dot_at - start;
                    assert forall|k: int|
                        0 <= k <= len && #[trigger] is_mantissa(body.take(k)) implies !(k == len
                        || is_exponent(body.skip(k))) by {
                        if k <= q {
                            assert(body.skip(k)[0] == body[k]);
                            assert(is_mantissa_char(body[k]));
                        } else {
                            assert(body.take(k)[f] == '.');
                            assert(body.take(k)[q] == '.');
                        }
                    }
                }
                return false;
            }
            dot_at = p;
        } else {
            if !has_digit {
                assert(is_digit(body[p - start]));
            }
            has_digit = true;
        }
        p = p + 1;
    }
    let ghost q = p - start;
    proof {
        assert(q == len || !is_mantissa_char(body[q]));
    }
    // Any split point other than `q` fails; so `body` is a number exactly
    // when its prefix of length `q` is a mantissa and the rest is empty or
    // an exponent.
    proof {
        assert forall|k: int|
            0 <= k <= len && k != q && #[trigger] is_mantissa(body.take(k)) implies !(k == len
            || is_exponent(body.skip(k))) by {
            if k < q {
                assert(body.skip(k)[0] == body[k]);
                assert(is_mantissa_char(body[k]));
            } else {
                assert(body.take(k)[q] == body[q]);
            }
        }
    }
    let mantissa_ok = has_digit;
    proof {
        let m = body.take(q);
        if has_digit {
            let i = choose|i: int| 0 <= i < q && is_digit(#[trigger] body[i]);
            assert(m[i] == body[i]);
            assert(is_mantissa(m));
        } else {
            assert forall|i: int| 0 <= i < m.len() implies !is_digit(#[trigger] m[i]) by {
                assert(m[i] == body[i]);
            }
            assert(!is_mantissa(m));
        }
    }
    if !mantissa_ok {
        return false;
    }
    if p == n {
        assert(body.take(q) =~= body.take(len));
        return true;
    }
    // The exponent.
    let ghost x = body.skip(q);
    assert(x =~= cs@.skip(p as int));
    is_exponent_at(cs, p)
}

/// Whether `cs[p..]` is an `Exp`.
fn is_exponent_at(cs: &Vec<char>, p: usize) -> (r: bool)
    requires
        p < cs@.len(),
    ensures
        r == is_exponent(cs@.skip(p as int)),
{
    let n = cs.len();
    let ghost x = cs@.skip(p as int);
    let e = cs[p];
    if !(e == 'e' || e == 'E') {
        assert(x[0] == e);
        return false;
    }
    let mut d = p + 1;
    if d < n && (cs[d] == '+' || cs[d] == '-') {
        d = d + 1;
    }
    if d == n {
        proof {
            let dd = x.drop_first();
            if dd.len() > 0 {
                assert(dd[0] == cs@[p + 1]);
                assert(dd.drop_first().len() == 0);
            }
        }
        return false;
    }
    let ghost digits_start = d;
    while d < n
        invariant
            n == cs@.len(),
            p < digits_start <= d <= n,
            digits_start < n,
            digits_start == p + 1 || digits_start == p + 2,
            (digits_start == p + 2) == is_sign(cs@[p + 1]),
            x == cs@.skip(p as int),
            is_exp_marker(x[0]),
            forall|i: int| digits_start <= i < d ==> is_digit(#[trigger] cs@[i]),
        decreases n - d,
    {
        if !is_digit_char(cs[d]) {
            proof {
                let dd = x.drop_first();
                let ds = if is_sign(dd[0]) {
                    dd.drop_first()
                } else {
                    dd
                };
                assert(dd[0] == cs@[p + 1]);
                assert(ds =~= cs@.skip(digits_start as int));
                assert(ds[d - digits_start] == cs@[d as int]);
            }
            return false;
        }
        d = d + 1;
    }
    proof {
        let dd = x.drop_first();
        let ds = if is_sign(dd[0]) {
            dd.drop_first()
        } else {
            dd
        };
        assert(dd[0] == cs@[p + 1]);
        assert(ds =~= cs@.skip(digits_start as int));
        assert forall|i: int| 0 <= i < ds.len() implies is_digit(#[trigger] ds[i]) by {
            assert(ds[i] == cs@[digits_start + i]);
        }
        assert(is_exponent(x));
    }
    true
}

/// Whether `s` is text that parses as an `f64`.
pub fn is_float_literal_text(s: &str) -> (r: bool)
    ensures
        r == is_float_literal(s@),
{
    let cs = chars_of(s);
    let n = cs.len();
    let start: usize = if n > 0 && (cs[0] == '+' || cs[0] == '-') {
        1
    } else {
        0
    };
    assert(cs@.skip(start as int) =~= unsigned_part(s@));
    proof {
        reveal_strlit("inf");
        reveal_strlit("INF");
        reveal_strlit("infinity");
        reveal_strlit("INFINITY");
        reveal_strlit("nan");
        reveal_strlit("NAN");
        assert("inf"@ =~= word_inf().0);
        assert("INF"@ =~= word_inf().1);
        assert("infinity"@ =~= word_infinity().0);
        assert("INFINITY"@ =~= word_infinity().1);
        assert("nan"@ =~= word_nan().0);
        assert("NAN"@ =~= word_nan().1);
    }
    matches_word_at(&cs, start, "inf", "INF") || matches_word_at(&cs, start, "infinity", "INFINITY")
        || matches_word_at(&cs, start, "nan", "NAN") || is_number_at(&cs, start)
}

} // verus!
