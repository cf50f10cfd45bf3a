//! Decimal integers as `i64` and `usize` read them from text, and the
//! durations ("15m", "2d") that the bot's commands take.
use vstd::prelude::*;

use crate::float_literal::{all_digits, chars_of, is_digit, is_sign};

verus! {

/// The value of a digit character.
pub open spec fn digit_value(c: char) -> nat {
    ((c as u32) - 48) as nat
}

/// The value of a string of decimal digits.
pub open spec fn digits_value(d: Seq<char>) -> nat
    decreases d.len(),
{
    if d.len() == 0 {
        0
    } else {
        digits_value(d.drop_last()) * 10 + digit_value(d.last())
    }
}

/// A non-empty string of decimal digits.
pub open spec fn is_digit_string(d: Seq<char>) -> bool {
    d.len() > 0 && all_digits(d)
}

/// What `str::parse::<i64>` gives: an optional sign, then decimal digits,
/// whose value must fit.
pub open spec fn spec_parse_i64(s: Seq<char>) -> Option<i64> {
    let negative = s.len() > 0 && s[0] == '-';
    let body = if s.len() > 0 && is_sign(s[0]) {
        s.drop_first()
    } else {
        s
    };
    if !is_digit_string(body) {
        None
    } else {
        let v: int = if negative {
            -digits_value(body)
        } else {
            digits_value(body) as int
        };
        if i64::MIN <= v <= i64::MAX {
            Some(v as i64)
        } else {
            None
        }
    }
}

/// What `str::parse::<usize>` gives: an optional `+`, then decimal digits,
/// whose value must fit.
pub open spec fn spec_parse_usize(s: Seq<char>) -> Option<usize> {
    let body = if s.len() > 0 && s[0] == '+' {
        s.drop_first()
    } else {
        s
    };
    if is_digit_string(body) && digits_value(body) <= usize::MAX {
        Some(digits_value(body) as usize)
    } else {
        None
    }
}

fn digit_char(c: char) -> (r: bool)
    ensures
        r == is_digit(c),
{
    '0' <= c && c <= '9'
}

/// The value of `cs[start..]` as a digit string, when it is one and its
/// value fits in a `u64`.
fn digits_u64(cs: &Vec<char>, start: usize) -> (r: Option<u64>)
    requires
        start <= cs@.len(),
    ensures
        match r {
            Some(v) => is_digit_string(cs@.skip(start as int)) && v == digits_value(
                cs@.skip(start as int),
            ),
            None => !is_digit_string(cs@.skip(start as int)) || digits_value(
                cs@.skip(start as int),
            ) > u64::MAX,
        },
{
    let n = cs.len();
    let ghost body = cs@.skip(start as int);
    if start == n {
        return None;
    }
    let mut i = start;
    let mut v: u64 = 0;
    let mut fits = true;
    while i < n
        invariant
            n == cs@.len(),
            start <= i <= n,
            body == cs@.skip(start as int),
            forall|k: int| 0 <= k < i - start ==> is_digit(#[trigger] body[k]),
            fits ==> v == digits_value(body.take(i - start)),
            !fits ==> digits_value(body.take(i - start)) > u64::MAX,
        decreases n - i,
    {
        let c = cs[i];
        assert(c == body[i - start]);
        if !digit_char(c) {
            return None;
        }
        let ghost prev = body.take(i - start);
        assert(body.take(i - start + 1).drop_last() =~= prev);
        let d = (c as u32 - '0' as u32) as u64;
        assert(d == digit_value(c));
        if fits {
            match v.checked_mul(10) {
                Some(w) => match w.checked_add(d) {
                    Some(x) => {
                        v = x;
                    },
                    None => {
                        fits = false;
                    },
                },
                None => {
                    fits = false;
                },
            }
        }
        i = i + 1;
    }
    assert(body.take(n - start) =~= body);
    if fits {
        Some(v)
    } else {
        None
    }
}

/// Reads a decimal `i64` as `str::parse::<i64>` does.
pub fn parse_i64(s: &str) -> (r: Option<i64>)
    ensures
        r == spec_parse_i64(s@),
{
    let cs = chars_of(s);
    let n = cs.len();
    let negative = n > 0 && cs[0] == '-';
    let start: usize = if n > 0 && (cs[0] == '+' || cs[0] == '-') {
        1
    } else {
        0
    };
    assert(cs@.skip(start as int) =~= (if s@.len() > 0 && is_sign(s@[0]) {
        s@.drop_first()
    } else {
        s@
    }));
    match digits_u64(&cs, start) {
        Some(m) => {
            if negative {
                if m <= 9223372036854775808 {
                    if m == 9223372036854775808 {
                        Some(i64::MIN)
                    } else {
                        Some(-(m as i64))
                    }
                } else {
                    None
                }
            } else {
                if m <= 9223372036854775807 {
                    Some(m as i64)
                } else {
                    None
                }
            }
        },
        None => None,
    }
}

/// Reads a decimal `usize` as `str::parse::<usize>` does.
pub fn parse_usize(s: &str) -> (r: Option<usize>)
    ensures
        r == spec_parse_usize(s@),
{
    let cs = chars_of(s);
    let n = cs.len();
    let start: usize = if n > 0 && cs[0] == '+' {
        1
    } else {
        0
    };
    assert(cs@.skip(start as int) =~= (if s@.len() > 0 && s@[0] == '+' {
        s@.drop_first()
    } else {
        s@
    }));
    match digits_u64(&cs, start) {
        Some(m) => {
            if m <= usize::MAX as u64 {
                Some(m as usize)
            } else {
                None
            }
        },
        None => None,
    }
}

/// Seconds per unit of the duration suffix that ends `s`: `s`, `m`, `h`,
/// `d` or `y`; 0 for any other ending.
pub open spec fn time_factor(s: Seq<char>) -> i64 {
    if s.len() > 0 && s.last() == 's' {
        1
    } else if s.len() > 0 && s.last() == 'm' {
        60
    } else if s.len() > 0 && s.last() == 'h' {
        3600
    } else if s.len() > 0 && s.last() == 'd' {
        86400
    } else if s.len() > 0 && s.last() == 'y' {
        31536000
    } else {
        0
    }
}

/// A duration such as "15m" in seconds: the text before the last character
/// read as an `i64`, times the factor of the last character. `None` when
/// that text is not an `i64` or the product does not fit in one.
pub open spec fn spec_time_to_seconds(s: Seq<char>) -> Option<i64> {
    let body = if s.len() > 0 {
        s.drop_last()
    } else {
        s
    };
    match spec_parse_i64(body) {
        Some(v) => {
            let p = v * time_factor(s);
            if i64::MIN <= p <= i64::MAX {
                Some(p as i64)
            } else {
                None
            }
        },
        None => None,
    }
}

/// The seconds in one unit of a duration suffix: `s`, `m`, `h`, `d`, `y`.
pub open spec fn unit_seconds(u: char) -> int {
    if u == 's' {
        1
    } else if u == 'm' {
        60
    } else if u == 'h' {
        3600
    } else if u == 'd' {
        86400
    } else if u == 'y' {
        31536000
    } else {
        0
    }
}

/// A duration suffix.
pub open spec fn is_duration_unit(u: char) -> bool {
    u == 's' || u == 'm' || u == 'h' || u == 'd' || u == 'y'
}

/// The character of a decimal digit `k` (0 to 9).
pub open spec fn digit_char_of(k: nat) -> char {
    if k == 0 {
        '0'
    } else if k == 1 {
        '1'
    } else if k == 2 {
        '2'
    } else if k == 3 {
        '3'
    } else if k == 4 {
        '4'
    } else if k == 5 {
        '5'
    } else if k == 6 {
        '6'
    } else if k == 7 {
        '7'
    } else if k == 8 {
        '8'
    } else {
        '9'
    }
}

/// The decimal digits of `n`, without leading zeros.
pub open spec fn digits_text(n: nat) -> Seq<char>
    decreases n,
{
    if n < 10 {
        seq![digit_char_of(n)]
    } else {
        digits_text(n / 10).push(digit_char_of(n % 10))
    }
}

/// An integer written in decimal as `i64`'s `Display` writes it: a `-`
/// before the digits of a negative number, no leading zeros.
pub open spec fn int_text(a: int) -> Seq<char> {
    if a < 0 {
        seq!['-'] + digits_text((-a) as nat)
    } else {
        digits_text(a as nat)
    }
}

proof fn lemma_digit_char_of(k: nat)
    requires
        k < 10,
    ensures
        is_digit(digit_char_of(k)),
        digit_value(digit_char_of(k)) == k,
{
    assert('0' as u32 == 48 && '1' as u32 == 49 && '2' as u32 == 50 && '3' as u32 == 51 && '4' as u32
        == 52 && '5' as u32 == 53 && '6' as u32 == 54 && '7' as u32 == 55 && '8' as u32 == 56 && '9' as u32
        == 57);
}

proof fn lemma_digits_text(n: nat)
    ensures
        is_digit_string(digits_text(n)),
        digits_value(digits_text(n)) == n,
    decreases n,
{
    let d = digits_text(n);
    lemma_digit_char_of(n % 10);
    if n < 10 {
        assert(d.drop_last() =~= Seq::<char>::empty());
        assert(digits_value(d.drop_last()) == 0);
        assert(d.last() == digit_char_of(n));
        assert(digits_value(d) == digits_value(d.drop_last()) * 10 + digit_value(d.last()));
    } else {
        lemma_digits_text(n / 10);
        assert(n == (n / 10) * 10 + n % 10);
        assert(d.last() == digit_char_of(n % 10));
        assert(d.drop_last() =~= digits_text(n / 10));
        assert forall|i: int| 0 <= i < d.len() implies is_digit(#[trigger] d[i]) by {
            if i < d.len() - 1 {
                assert(d[i] == digits_text(n / 10)[i]);
            }
        }
    }
}

/// Reading back what `int_text` writes gives the integer.
pub proof fn lemma_parse_int_text(a: int)
    requires
        i64::MIN <= a <= i64::MAX,
    ensures
        spec_parse_i64(int_text(a)) == Some(a as i64),
{
    if a < 0 {
        let d = digits_text((-a) as nat);
        lemma_digits_text((-a) as nat);
        let s = int_text(a);
        assert(s.drop_first() =~= d);
        assert(s[0] == '-');
    } else {
        lemma_digits_text(a as nat);
        assert(is_digit(int_text(a)[0]));
    }
}

/// A duration written as an integer and a unit ("15m") is that integer
/// times the unit's seconds, wherever the product fits in an `i64`.
pub proof fn law_duration_is_count_times_unit(a: int, u: char)
    requires
        i64::MIN <= a <= i64::MAX,
        is_duration_unit(u),
        i64::MIN <= a * unit_seconds(u) <= i64::MAX,
    ensures
        spec_time_to_seconds(int_text(a).push(u)) == Some((a * unit_seconds(u)) as i64),
{
    lemma_parse_int_text(a);
    assert(int_text(a).push(u).drop_last() =~= int_text(a));
}

/// Durations in one unit add: the duration of `a + b` units is the sum of
/// the durations of `a` units and of `b` units, wherever all fit in an `i64`.
pub proof fn law_durations_add(a: int, b: int, u: char)
    requires
        i64::MIN <= a <= i64::MAX,
        i64::MIN <= b <= i64::MAX,
        i64::MIN <= a + b <= i64::MAX,
        is_duration_unit(u),
        i64::MIN <= a * unit_seconds(u) <= i64::MAX,
        i64::MIN <= b * unit_seconds(u) <= i64::MAX,
        i64::MIN <= (a + b) * unit_seconds(u) <= i64::MAX,
    ensures
        spec_time_to_seconds(int_text(a + b).push(u)) is Some,
        spec_time_to_seconds(int_text(a).push(u)) is Some,
        spec_time_to_seconds(int_text(b).push(u)) is Some,
        spec_time_to_seconds(int_text(a + b).push(u))->0 == spec_time_to_seconds(
            int_text(a).push(u),
        )->0 + spec_time_to_seconds(int_text(b).push(u))->0,
{
    law_duration_is_count_times_unit(a, u);
    law_duration_is_count_times_unit(b, u);
    law_duration_is_count_times_unit(a + b, u);
}

/// A duration in seconds, or `None` where it is not defined.
pub fn try_time_to_seconds(time_str: &str) -> (r: Option<i64>)
    ensures
        r == spec_time_to_seconds(time_str@),
{
    let n = time_str.unicode_len();
    let factor: i64 = if n == 0 {
        0
    } else {
        let c = time_str.get_char(n - 1);
        if c == 's' {
            1
        } else if c == 'm' {
            60
        } else if c == 'h' {
            3600
        } else if c == 'd' {
            86400
        } else if c == 'y' {
            31536000
        } else {
            0
        }
    };
    let body = if n == 0 {
        time_str
    } else {
        time_str.substring_char(0, n - 1)
    };
    proof {
        if n > 0 {
            assert(body@ =~= time_str@.drop_last());
        }
    }
    match parse_i64(body) {
        Some(v) => v.checked_mul(factor),
        None => None,
    }
}

/// A duration such as "15m", "2h" or "30d" in seconds.
pub fn time_to_seconds(time_str_: String) -> (r: i64)
    requires
        spec_time_to_seconds(time_str_@) is Some,
    ensures
        Some(r) == spec_time_to_seconds(time_str_@),
{
    match try_time_to_seconds(time_str_.as_str()) {
        Some(v) => v,
        None => 0,
    }
}

/// The window of times `(earliest, latest)` that reaches back `relative_time`
/// from `now`: earliest is `now` minus the duration. `None` when the
/// duration is not defined or the subtraction overflows.
pub fn relative_window(now: i64, relative_time: &str) -> (r: Option<(i64, i64)>)
    ensures
        match spec_time_to_seconds(relative_time@) {
            Some(d) => if i64::MIN <= now - d <= i64::MAX {
                r == Some(((now - d) as i64, now))
            } else {
                r is None
            },
            None => r is None,
        },
{
    match try_time_to_seconds(relative_time) {
        Some(d) => match now.checked_sub(d) {
            Some(lo) => Some((lo, now)),
            None => None,
        },
        None => None,
    }
}

} // verus!
