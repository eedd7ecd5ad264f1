//! Fixed-offset timezone resolution.
//!
//! A textual offset specification (`+0300`, `-05:00`, ...) is stripped
//! of colons, parsed as a signed packed hours-and-minutes decimal, and
//! turned into a signed seconds-from-UTC value. Values whose seconds
//! fall outside the open interval (-24h, +24h) are configuration
//! errors.

use vstd::prelude::*;
use vstd::arithmetic::div_mod::{lemma_fundamental_div_mod, lemma_mod_bound};
use crate::numparse::{spec_parse_i32, parse_i32_bytes};

verus! {

/// Fatal configuration errors of the timezone specification.
#[derive(Clone, Copy, Debug, PartialEq, Eq, Structural)]
pub enum TimezoneError {
    InvalidTimezoneFormat,
    InvalidTimezoneOffset,
}

/// The specification text with every colon removed.
pub open spec fn strip_colons(s: Seq<u8>) -> Seq<u8>
    decreases s.len(),
{
    if s.len() == 0 {
        Seq::empty()
    } else if s.last() == 58 {
        strip_colons(s.drop_last())
    } else {
        strip_colons(s.drop_last()) + seq![s.last()]
    }
}

/// Truncating (round-toward-zero) division by 100, as machine division
/// of the packed decimal behaves.
pub open spec fn trunc_div_100(n: int) -> int {
    if n >= 0 { n / 100 } else { -((-n) / 100) }
}

pub open spec fn trunc_rem_100(n: int) -> int {
    n - 100 * trunc_div_100(n)
}

/// Seconds encoded by the packed decimal `±HHMM` value `n`: hours part
/// times 3600 plus minutes part times 60.
pub open spec fn packed_offset_seconds(n: int) -> int {
    trunc_div_100(n) * 3600 + trunc_rem_100(n) * 60
}

/// What resolving a timezone specification yields: the signed offset in
/// seconds, or the error the input earns.
pub open spec fn spec_resolve_timezone(s: Seq<u8>) -> Result<i32, TimezoneError> {
    match spec_parse_i32(strip_colons(s)) {
        Option::None => Result::Err(TimezoneError::InvalidTimezoneFormat),
        Option::Some(n) => {
            let secs = packed_offset_seconds(n as int);
            if -86400 < secs < 86400 {
                Result::Ok(secs as i32)
            } else {
                Result::Err(TimezoneError::InvalidTimezoneOffset)
            }
        },
    }
}

/// Resolves a textual offset specification to seconds from UTC.
pub fn resolve_timezone(text: &Vec<u8>) -> (r: Result<i32, TimezoneError>)
    ensures
        r == spec_resolve_timezone(text@),
        r matches Ok(off) ==> -86400 < off < 86400,
{
    let mut stripped: Vec<u8> = Vec::new();
    let mut i: usize = 0;
    while i < text.len()
        invariant
            i <= text@.len(),
            stripped@ == strip_colons(text@.take(i as int)),
        decreases text@.len() - i,
    {
        let c: u8 = text[i];
        proof {
            assert(text@.take(i + 1).drop_last() =~= text@.take(i as int));
            assert(text@.take(i + 1).last() == c);
        }
        if c != 58 {
            stripped.push(c);
        }
        i = i + 1;
    }
    proof {
        assert(text@.take(text@.len() as int) =~= text@);
    }
    match parse_i32_bytes(&stripped) {
        Option::None => Result::Err(TimezoneError::InvalidTimezoneFormat),
        Option::Some(n) => {
            let q: i64;
            let rm: i64;
            if n >= 0 {
                let a: u32 = n as u32;
                q = (a / 100) as i64;
                rm = (a % 100) as i64;
                proof {
                    lemma_fundamental_div_mod(a as int, 100);
                    lemma_mod_bound(a as int, 100);
                }
            } else {
                let a: u64 = (-(n as i64)) as u64;
                q = -((a / 100) as i64);
                rm = -((a % 100) as i64);
                proof {
                    lemma_fundamental_div_mod(a as int, 100);
                    lemma_mod_bound(a as int, 100);
                }
            }
            let secs: i64 = q * 3600 + rm * 60;
            if -86400 < secs && secs < 86400 {
                Result::Ok(secs as i32)
            } else {
                Result::Err(TimezoneError::InvalidTimezoneOffset)
            }
        },
    }
}

} // verus!
