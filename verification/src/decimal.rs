//! Integers in decimal notation.

use crate::text::push_char;
use vstd::prelude::*;

verus! {

/// Whether `c` is one of the digits `0` to `9`.
pub open spec fn is_digit(c: char) -> bool {
    48 <= c as u32 <= 57
}

/// The number that the digit `c` stands for.
pub open spec fn digit_value(c: char) -> nat {
    (c as u32 - 48) as nat
}

/// The digit that stands for `d`.
pub open spec fn digit_char(d: nat) -> char {
    ((48 + d) as u8) as char
}

/// The decimal digits of `n`, without leading zeros.
pub open spec fn digits(n: nat) -> Seq<char>
    decreases n,
{
    if n < 10 {
        seq![digit_char(n)]
    } else {
        digits(n / 10).push(digit_char(n % 10))
    }
}

/// `n` in decimal notation: a minus sign where it is negative, then its
/// digits.
pub open spec fn decimal(n: int) -> Seq<char> {
    if n < 0 {
        seq!['-'] + digits((-n) as nat)
    } else {
        digits(n as nat)
    }
}

/// `s` is a string of digits, one at least.
pub open spec fn is_digits(s: Seq<char>) -> bool {
    s.len() > 0 && forall|i: int| 0 <= i < s.len() ==> is_digit(#[trigger] s[i])
}

/// The number that the digits `s` stand for, leading zeros allowed.
pub open spec fn digits_value(s: Seq<char>) -> nat
    decreases s.len(),
{
    if s.len() == 0 {
        0
    } else {
        digits_value(s.drop_last()) * 10 + digit_value(s.last())
    }
}

/// The magnitude of the least `i64`.
pub const I64_MIN_MAGNITUDE: u64 = 0x8000_0000_0000_0000;

/// The number that `s` denotes as an `i64`: an optional sign, then digits
/// whose value fits; nothing else, not even white space.
pub open spec fn parse_i64(s: Seq<char>) -> Option<i64> {
    if s.len() > 0 && s[0] == '-' {
        let d = s.skip(1);
        if is_digits(d) && digits_value(d) <= I64_MIN_MAGNITUDE {
            Some((-(digits_value(d) as int)) as i64)
        } else {
            None
        }
    } else {
        let d = if s.len() > 0 && s[0] == '+' {
            s.skip(1)
        } else {
            s
        };
        if is_digits(d) && digits_value(d) < I64_MIN_MAGNITUDE {
            Some(digits_value(d) as i64)
        } else {
            None
        }
    }
}

/// The digits of a number are digits and stand for it.
pub proof fn lemma_digits(n: nat)
    ensures
        is_digits(digits(n)),
        digits_value(digits(n)) == n,
    decreases n,
{
    if n < 10 {
        let s = digits(n);
        assert(s.drop_last() =~= Seq::<char>::empty());
        assert(digits_value(s.drop_last()) == 0);
        assert(digit_char(n) as u32 == 48 + n);
    } else {
        lemma_digits(n / 10);
        let s = digits(n);
        assert(s.drop_last() =~= digits(n / 10));
        assert(digit_char(n % 10) as u32 == 48 + n % 10);
        assert forall|i: int| 0 <= i < s.len() implies is_digit(#[trigger] s[i]) by {
            if i < s.len() - 1 {
                assert(s[i] == digits(n / 10)[i]);
            }
        }
    }
}

/// Decimal notation reads back: what is written of an `i64` denotes it.
pub proof fn lemma_decimal_round_trip(n: i64)
    ensures
        parse_i64(decimal(n as int)) == Some(n),
{
    if n < 0 {
        let m = (-(n as int)) as nat;
        lemma_digits(m);
        assert(decimal(n as int).skip(1) =~= digits(m));
    } else {
        lemma_digits(n as nat);
        let s = digits(n as nat);
        assert(is_digit(s[0]));
    }
}

/// More digits never stand for less.
pub proof fn lemma_digits_value_grows(s: Seq<char>, k: int)
    requires
        0 <= k <= s.len(),
    ensures
        digits_value(s.take(k)) <= digits_value(s),
    decreases s.len() - k,
{
    if k < s.len() {
        lemma_digits_value_grows(s, k + 1);
        assert(s.take(k + 1).drop_last() =~= s.take(k));
    } else {
        assert(s.take(k) =~= s);
    }
}

/// The number that `chars` from `from` up to `to` denote as an `i64`, if
/// they denote one.
#[verifier::loop_isolation(false)]
pub fn parse_i64_range(chars: &Vec<char>, from: usize, to: usize) -> (out: Option<i64>)
    requires
        from <= to <= chars@.len(),
    ensures
        out == parse_i64(chars@.subrange(from as int, to as int)),
{
    let ghost s = chars@.subrange(from as int, to as int);
    if from == to {
        return None;
    }
    let negative = chars[from] == '-';
    let start: usize = if negative || chars[from] == '+' {
        from + 1
    } else {
        from
    };
    let ghost d = chars@.subrange(start as int, to as int);
    assert(s[0] == chars@[from as int]);
    assert(d =~= if negative || s[0] == '+' {
        s.skip(1)
    } else {
        s
    });
    if start == to {
        return None;
    }
    let limit: u64 = if negative {
        0x8000_0000_0000_0000
    } else {
        0x7fff_ffff_ffff_ffff
    };
    let mut magnitude: u64 = 0;
    let mut i: usize = start;
    assert(d.take(0) =~= Seq::<char>::empty());
    while i < to
        invariant
            start <= i <= to <= chars@.len(),
            d == chars@.subrange(start as int, to as int),
            forall|j: int| 0 <= j < i - start ==> is_digit(#[trigger] d[j]),
            magnitude == digits_value(d.take(i - start)),
            magnitude <= limit,
            limit <= 0x8000_0000_0000_0000,
        decreases to - i,
    {
        let c = chars[i];
        let u = c as u32;
        assert(d[i - start] == c);
        if u < 48 || u > 57 {
            return None;
        }
        let digit = (u - 48) as u64;
        proof {
            assert(d.take(i - start + 1).drop_last() =~= d.take(i - start));
            assert(d.take(i - start + 1).last() == c);
            lemma_digits_value_grows(d, i - start + 1);
        }
        if magnitude > (limit - digit) / 10 {
            return None;
        }
        magnitude = magnitude * 10 + digit;
        i += 1;
    }
    assert(d.take(to - start) =~= d);
    if negative {
        if magnitude == 0x8000_0000_0000_0000 {
            Some(i64::MIN)
        } else {
            Some(-(magnitude as i64))
        }
    } else {
        Some(magnitude as i64)
    }
}

/// `n` in decimal notation.
pub fn decimal_string(n: i64) -> (out: String)
    ensures
        out@ == decimal(n as int),
{
    let mut magnitude: u64 = if n >= 0 {
        n as u64
    } else {
        (-(n + 1)) as u64 + 1
    };
    let ghost whole = magnitude as nat;
    let mut reversed: Vec<char> = Vec::new();
    while magnitude >= 10
        invariant
            digits(whole) == digits(magnitude as nat) + reversed@.reverse(),
        decreases magnitude,
    {
        let digit = (magnitude % 10) as u8;
        let ghost before = reversed@;
        reversed.push((48 + digit) as char);
        proof {
            assert(reversed@.reverse() =~= seq![digit_char(digit as nat)] + before.reverse());
            assert(digits(magnitude as nat) =~= digits((magnitude / 10) as nat) + seq![
                digit_char(digit as nat),
            ]);
        }
        magnitude = magnitude / 10;
    }
    let ghost before = reversed@;
    reversed.push((48 + magnitude as u8) as char);
    proof {
        assert(reversed@.reverse() =~= seq![digit_char(magnitude as nat)] + before.reverse());
        assert(digits(whole) =~= reversed@.reverse());
    }
    let mut out = String::new();
    if n < 0 {
        push_char(&mut out, '-');
    }
    let ghost sign = out@;
    let mut i: usize = reversed.len();
    while i > 0
        invariant
            i <= reversed@.len(),
            out@ == sign + reversed@.reverse().take(reversed@.len() - i),
        decreases i,
    {
        i -= 1;
        push_char(&mut out, reversed[i]);
        proof {
            let r = reversed@.reverse();
            assert(r.take(reversed@.len() - i) =~= r.take(reversed@.len() - i - 1).push(
                reversed@[i as int],
            ));
        }
    }
    proof {
        let r = reversed@.reverse();
        assert(r.take(reversed@.len() as int) =~= r);
        if n < 0 {
            assert(sign =~= seq!['-']);
        } else {
            assert(sign + r =~= r);
        }
    }
    out
}

} // verus!
