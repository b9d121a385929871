//! The value of an integer literal.

use crate::rules::is_digit;
use vstd::prelude::*;

verus! {

/// The number that a sequence of decimal digits writes.
pub open spec fn digits_value(s: Seq<u8>) -> nat
    decreases s.len(),
{
    if s.len() == 0 {
        0
    } else {
        digits_value(s.drop_last()) * 10 + (s.last() - ('0' as u8)) as nat
    }
}

/// The number that an integer literal writes: its digits' value, negated
/// after a minus sign.
pub open spec fn literal_value(s: Seq<u8>) -> int {
    if s.len() > 0 && s[0] == '-' as u8 {
        -(digits_value(s.skip(1)) as int)
    } else {
        digits_value(s) as int
    }
}

/// Whether `s` is an optional minus sign followed by one or more digits.
pub open spec fn is_integer_literal(s: Seq<u8>) -> bool {
    let sign: int = if s.len() > 0 && s[0] == '-' as u8 {
        1
    } else {
        0
    };
    sign < s.len() && forall|k: int| sign <= k < s.len() ==> is_digit(#[trigger] s[k])
}

/// The value of `s`, where `s` is an integer literal and its value fits in
/// 64 bits.
pub open spec fn integer_of(s: Seq<u8>) -> Option<i64> {
    if is_integer_literal(s) && i64::MIN <= literal_value(s) <= i64::MAX {
        Some(literal_value(s) as i64)
    } else {
        None
    }
}

/// Digits written after a number never make it smaller.
pub proof fn lemma_digits_value_grows(s: Seq<u8>, k: int)
    requires
        0 <= k <= s.len(),
        forall|j: int| 0 <= j < s.len() ==> is_digit(#[trigger] s[j]),
    ensures
        digits_value(s.take(k)) <= digits_value(s),
    decreases s.len() - k,
{
    if k == s.len() {
        assert(s.take(k) =~= s);
    } else {
        lemma_digits_value_grows(s, k + 1);
        assert(s.take(k + 1).drop_last() =~= s.take(k));
        assert(is_digit(s[k]));
    }
}

/// Reads `bytes[start..end]` as an integer literal. `None` where it is no
/// integer literal, or its value does not fit in 64 bits.
pub fn parse_integer(bytes: &[u8], start: usize, end: usize) -> (r: Option<i64>)
    requires
        start <= end <= bytes@.len(),
    ensures
        r == integer_of(bytes@.subrange(start as int, end as int)),
{
    let ghost lit = bytes@.subrange(start as int, end as int);
    if start == end {
        return None;
    }
    assert(lit[0] == bytes@[start as int]);
    let negative: bool = bytes[start] == '-' as u8;
    let first: usize = if negative {
        start + 1
    } else {
        start
    };
    if first == end {
        return None;
    }
    let ghost digits = bytes@.subrange(first as int, end as int);
    assert(digits =~= if negative {
        lit.skip(1)
    } else {
        lit
    });
    let limit: u128 = if negative {
        0x8000_0000_0000_0000u128
    } else {
        0x7fff_ffff_ffff_ffffu128
    };
    let mut value: u128 = 0;
    let mut i: usize = first;
    assert(digits.take(0) =~= Seq::<u8>::empty());
    while i < end
        invariant
            start <= first <= i <= end <= bytes@.len(),
            first - start == if negative {
                1int
            } else {
                0int
            },
            lit == bytes@.subrange(start as int, end as int),
            negative == (lit[0] == '-' as u8),
            digits == bytes@.subrange(first as int, end as int),
            digits == if negative {
                lit.skip(1)
            } else {
                lit
            },
            forall|j: int| 0 <= j < i - first ==> is_digit(#[trigger] digits[j]),
            value == digits_value(digits.take(i - first)),
            value <= limit,
            limit == if negative {
                0x8000_0000_0000_0000u128
            } else {
                0x7fff_ffff_ffff_ffffu128
            },
        decreases end - i,
    {
        let b: u8 = bytes[i];
        assert(digits[i - first] == b);
        assert(lit[i - start] == b);
        if b < '0' as u8 || b > '9' as u8 {
            return None;
        }
        let d: u128 = (b - ('0' as u8)) as u128;
        let next: u128 = value * 10 + d;
        proof {
            assert(digits.take(i - first + 1).drop_last() =~= digits.take(i - first));
            assert(digits.take(i - first + 1).last() == b);
            assert(next == digits_value(digits.take(i - first + 1)));
        }
        if next > limit {
            proof {
                if is_integer_literal(lit) {
                    assert forall|j: int| 0 <= j < digits.len() implies is_digit(
                        #[trigger] digits[j],
                    ) by {
                        assert(digits[j] == lit[j + (first - start)]);
                    }
                    lemma_digits_value_grows(digits, i - first + 1);
                }
            }
            return None;
        }
        value = next;
        i = i + 1;
    }
    proof {
        assert(digits.take(end - first) =~= digits);
        assert forall|k: int| first - start <= k < lit.len() implies is_digit(
            #[trigger] lit[k],
        ) by {
            assert(lit[k] == digits[k - (first - start)]);
        }
        assert(is_integer_literal(lit));
    }
    if negative {
        if value == 0x8000_0000_0000_0000u128 {
            Some(i64::MIN)
        } else {
            let v: i64 = value as i64;
            Some(-v)
        }
    } else {
        Some(value as i64)
    }
}

} // verus!
