//! Signed base-10 integer parsing over ASCII bytes, with the grammar
//! and overflow behaviour of Rust's standard integer parsing: an
//! optional single `+` or `-` sign, then one or more ASCII digits, and
//! failure when the value does not fit the target type.

use vstd::prelude::*;

verus! {

pub open spec fn is_ascii_digit(c: u8) -> bool {
    48 <= c <= 57
}

pub open spec fn all_digits(s: Seq<u8>) -> bool {
    forall|i: int| 0 <= i < s.len() ==> is_ascii_digit(#[trigger] s[i])
}

/// Value of a digit string, most significant digit first.
pub open spec fn digits_val(s: Seq<u8>) -> int
    decreases s.len(),
{
    if s.len() == 0 {
        0
    } else {
        digits_val(s.drop_last()) * 10 + (s.last() - 48)
    }
}

/// What parsing the bytes as an `i64` yields: `Some` exactly on a
/// well-formed signed digit string whose value fits.
pub open spec fn spec_parse_i64(s: Seq<u8>) -> Option<i64> {
    let neg = s.len() >= 1 && s[0] == 45;
    let digits = if s.len() >= 1 && (s[0] == 43 || s[0] == 45) {
        s.drop_first()
    } else {
        s
    };
    if digits.len() == 0 || !all_digits(digits) {
        Option::None
    } else {
        let v = if neg {
            -digits_val(digits)
        } else {
            digits_val(digits)
        };
        if i64::MIN <= v <= i64::MAX {
            Option::Some(v as i64)
        } else {
            Option::None
        }
    }
}

/// What parsing the bytes as an `i32` yields.
pub open spec fn spec_parse_i32(s: Seq<u8>) -> Option<i32> {
    match spec_parse_i64(s) {
        Option::Some(v) => if i32::MIN <= v <= i32::MAX {
            Option::Some(v as i32)
        } else {
            Option::None
        },
        Option::None => Option::None,
    }
}

proof fn lemma_digits_val_nonneg(s: Seq<u8>)
    requires
        all_digits(s),
    ensures
        digits_val(s) >= 0,
    decreases s.len(),
{
    if s.len() > 0 {
        assert(all_digits(s.drop_last()));
        lemma_digits_val_nonneg(s.drop_last());
    }
}

/// A digit string is at least as large as any of its prefixes.
proof fn lemma_digits_val_prefix(s: Seq<u8>, i: int)
    requires
        all_digits(s),
        0 <= i <= s.len(),
    ensures
        digits_val(s.take(i)) <= digits_val(s),
    decreases s.len() - i,
{
    if i < s.len() {
        assert(s.take(i + 1).drop_last() =~= s.take(i));
        assert(all_digits(s.take(i + 1)));
        lemma_digits_val_nonneg(s.take(i + 1));
        lemma_digits_val_nonneg(s.take(i));
        lemma_digits_val_prefix(s, i + 1);
    } else {
        assert(s.take(i) =~= s);
    }
}

/// Parses bytes as an `i64` exactly as Rust's standard parsing does.
pub fn parse_i64_bytes(s: &Vec<u8>) -> (r: Option<i64>)
    ensures
        r == spec_parse_i64(s@),
{
    let n: usize = s.len();
    let mut start: usize = 0;
    let mut neg: bool = false;
    if n >= 1 && (s[0] == 43 || s[0] == 45) {
        start = 1;
        neg = s[0] == 45;
    }
    let ghost digits: Seq<u8> = s@.skip(start as int);
    proof {
        if start == 1 {
            assert(digits =~= s@.drop_first());
        } else {
            assert(digits =~= s@);
        }
    }
    if n == start {
        return Option::None;
    }
    let mut acc: u128 = 0;
    let mut i: usize = start;
    while i < n
        invariant
            start <= i <= n,
            n == s@.len(),
            start <= 1,
            (start == 1) == (n >= 1 && (s@[0] == 43 || s@[0] == 45)),
            neg == (n >= 1 && s@[0] == 45 && start == 1),
            digits == s@.skip(start as int),
            all_digits(digits.take(i - start)),
            acc == digits_val(digits.take(i - start)),
            acc <= 0x8000_0000_0000_0000u128,
        decreases n - i,
    {
        let c: u8 = s[i];
        proof {
            assert(digits[(i - start) as int] == c);
        }
        if c < 48 || c > 57 {
            proof {
                assert(!is_ascii_digit(digits[(i - start) as int]));
                if start == 1 {
                    assert(digits =~= s@.drop_first());
                } else {
                    assert(digits =~= s@);
                }
            }
            return Option::None;
        }
        let d: u128 = (c - 48) as u128;
        proof {
            assert(digits.take(i + 1 - start).drop_last() =~= digits.take(i - start));
            assert(digits.take(i + 1 - start).last() == c);
        }
        acc = acc * 10 + d;
        i = i + 1;
        if acc > 0x8000_0000_0000_0000u128 {
            proof {
                if all_digits(digits) {
                    lemma_digits_val_prefix(digits, i - start);
                    lemma_digits_val_nonneg(digits.take((i - start) as int));
                }
                if start == 1 {
                    assert(digits =~= s@.drop_first());
                } else {
                    assert(digits =~= s@);
                }
            }
            return Option::None;
        }
    }
    proof {
        assert(digits.take((n - start) as int) =~= digits);
    }
    if neg {
        Option::Some((-(acc as i128)) as i64)
    } else {
        if acc > 0x7FFF_FFFF_FFFF_FFFFu128 {
            return Option::None;
        }
        Option::Some(acc as i64)
    }
}

/// Parses bytes as an `i32` exactly as Rust's standard parsing does.
pub fn parse_i32_bytes(s: &Vec<u8>) -> (r: Option<i32>)
    ensures
        r == spec_parse_i32(s@),
{
    match parse_i64_bytes(s) {
        Option::Some(v) => {
            if -0x8000_0000i64 <= v && v <= 0x7FFF_FFFFi64 {
                Option::Some(v as i32)
            } else {
                Option::None
            }
        },
        Option::None => Option::None,
    }
}

} // verus!
