//! Message filtering and reaction aggregation.
//!
//! Each raw record is judged independently: it survives exactly when
//! its kind is the literal "message", its timestamp parses as base-10
//! epoch seconds, its local calendar year equals the target year, and
//! its reactions sum to more than zero. Survivors keep the input order.

use vstd::prelude::*;
use crate::dates::{LocalStamp, local_civil, local_stamp};
use crate::numparse::spec_parse_i64;
use crate::numparse::parse_i64_bytes;

verus! {

/// One record of the export, as handed to the core.
pub struct RawMessage {
    pub id: i64,
    /// Decimal epoch seconds; absent for some service records.
    pub timestamp: Option<Vec<u8>>,
    /// Reaction counts; emoji identity is irrelevant here.
    pub reactions: Vec<u32>,
    /// Record kind tag; only the literal "message" is eligible.
    pub kind: Vec<u8>,
}

/// An eligible message after filtering and aggregation.
#[derive(Clone, Copy, Debug, PartialEq, Eq, Structural)]
pub struct ProcessedMessage {
    pub id: i64,
    pub total_reactions: u128,
    pub local: LocalStamp,
}

/// The bytes of the literal "message".
pub open spec fn message_kind() -> Seq<u8> {
    seq![109u8, 101u8, 115u8, 115u8, 97u8, 103u8, 101u8]
}

/// The parsed epoch seconds of a record, when present and well formed.
pub open spec fn spec_timestamp(m: RawMessage) -> Option<i64> {
    match m.timestamp {
        Option::Some(v) => spec_parse_i64(v@),
        Option::None => Option::None,
    }
}

/// Exact sum of all reaction counts; an empty sequence sums to zero.
pub open spec fn reaction_total(rs: Seq<u32>) -> int
    decreases rs.len(),
{
    if rs.len() == 0 {
        0
    } else {
        reaction_total(rs.drop_last()) + rs.last()
    }
}

/// A record yields a processed message exactly when all four checks pass.
pub open spec fn eligible(m: RawMessage, target_year: int, offset: int) -> bool {
    match spec_timestamp(m) {
        Option::Some(t) => {
            &&& m.kind@ == message_kind()
            &&& local_civil(t as int, offset).0 == target_year
            &&& reaction_total(m.reactions@) > 0
        },
        Option::None => false,
    }
}

/// The processed message an eligible record yields.
pub open spec fn processed_of(m: RawMessage, offset: int) -> ProcessedMessage {
    match spec_timestamp(m) {
        Option::Some(t) => {
            let c = local_civil(t as int, offset);
            ProcessedMessage {
                id: m.id,
                total_reactions: reaction_total(m.reactions@) as u128,
                local: LocalStamp {
                    year: c.0 as i64,
                    month: c.1 as u8,
                    day: c.2 as u8,
                    hour: c.3 as u8,
                    minute: c.4 as u8,
                },
            }
        },
        Option::None => arbitrary(),
    }
}

/// The stable filter-map over the whole input sequence.
pub open spec fn process_seq(ms: Seq<RawMessage>, target_year: int, offset: int) -> Seq<
    ProcessedMessage,
>
    decreases ms.len(),
{
    if ms.len() == 0 {
        Seq::empty()
    } else {
        process_seq(ms.drop_last(), target_year, offset) + (if eligible(
            ms.last(),
            target_year,
            offset,
        ) {
            seq![processed_of(ms.last(), offset)]
        } else {
            Seq::empty()
        })
    }
}

/// True exactly when the bytes are the literal "message".
fn kind_is_message(k: &Vec<u8>) -> (b: bool)
    ensures
        b == (k@ == message_kind()),
{
    if k.len() != 7 {
        return false;
    }
    let b: bool = k[0] == 109 && k[1] == 101 && k[2] == 115 && k[3] == 115 && k[4] == 97 && k[5]
        == 103 && k[6] == 101;
    proof {
        if b {
            assert(k@ =~= message_kind());
        }
    }
    b
}

/// Exact reaction sum of one record; never overflows the accumulator.
fn total_reactions_of(rs: &Vec<u32>) -> (t: u128)
    ensures
        t == reaction_total(rs@),
{
    let mut t: u128 = 0;
    let mut i: usize = 0;
    while i < rs.len()
        invariant
            i <= rs@.len(),
            t == reaction_total(rs@.take(i as int)),
            t <= 0xFFFF_FFFFu128 * (i as u128),
        decreases rs@.len() - i,
    {
        proof {
            assert(rs@.take(i + 1).drop_last() =~= rs@.take(i as int));
            assert(rs@.take(i + 1).last() == rs@[i as int]);
            assert(0xFFFF_FFFFu128 * (i as u128) + 0xFFFF_FFFFu128 == 0xFFFF_FFFFu128 * ((i
                + 1) as u128)) by (nonlinear_arith);
            assert((i as u128) + 1 <= 0xFFFF_FFFF_FFFF_FFFFu128);
            assert(0xFFFF_FFFFu128 * ((i + 1) as u128) <= 0xFFFF_FFFFu128
                * 0xFFFF_FFFF_FFFF_FFFFu128) by (nonlinear_arith)
                requires (i as u128) + 1 <= 0xFFFF_FFFF_FFFF_FFFFu128,
            ;
        }
        t = t + (rs[i] as u128);
        i = i + 1;
    }
    proof {
        assert(rs@.take(rs@.len() as int) =~= rs@);
    }
    t
}

/// Filters the raw records to the eligible ones, in input order, and
/// aggregates each survivor's reactions.
pub fn process_messages(messages: &Vec<RawMessage>, target_year: i32, offset_seconds: i32) -> (r:
    Vec<ProcessedMessage>)
    requires
        -86400 < offset_seconds < 86400,
    ensures
        r@ == process_seq(messages@, target_year as int, offset_seconds as int),
{
    let ghost ty: int = target_year as int;
    let ghost off: int = offset_seconds as int;
    let mut out: Vec<ProcessedMessage> = Vec::new();
    let mut i: usize = 0;
    while i < messages.len()
        invariant
            i <= messages@.len(),
            -86400 < offset_seconds < 86400,
            ty == target_year as int,
            off == offset_seconds as int,
            out@ == process_seq(messages@.take(i as int), ty, off),
        decreases messages@.len() - i,
    {
        let m: &RawMessage = &messages[i];
        proof {
            assert(messages@.take(i + 1).drop_last() =~= messages@.take(i as int));
            assert(messages@.take(i + 1).last() == messages@[i as int]);
        }
        let ghost prev: Seq<ProcessedMessage> = out@;
        if kind_is_message(&m.kind) {
            match &m.timestamp {
                Option::Some(ts_bytes) => {
                    match parse_i64_bytes(ts_bytes) {
                        Option::Some(t) => {
                            let st: LocalStamp = local_stamp(t, offset_seconds);
                            if st.year == target_year as i64 {
                                let total: u128 = total_reactions_of(&m.reactions);
                                if total > 0 {
                                    out.push(
                                        ProcessedMessage {
                                            id: m.id,
                                            total_reactions: total,
                                            local: st,
                                        },
                                    );
                                    proof {
                                        assert(eligible(messages@[i as int], ty, off));
                                        assert(out@.last() == processed_of(messages@[i as int], off));
                                        assert(out@ =~= prev + seq![
                                            processed_of(messages@[i as int], off),
                                        ]);
                                    }
                                } else {
                                    proof {
                                        assert(!eligible(messages@[i as int], ty, off));
                                    }
                                }
                            } else {
                                proof {
                                    assert(!eligible(messages@[i as int], ty, off));
                                }
                            }
                        },
                        Option::None => {
                            proof {
                                assert(!eligible(messages@[i as int], ty, off));
                            }
                        },
                    }
                },
                Option::None => {
                    proof {
                        assert(!eligible(messages@[i as int], ty, off));
                    }
                },
            }
        } else {
            proof {
                assert(!eligible(messages@[i as int], ty, off));
            }
        }
        proof {
            if !eligible(messages@[i as int], ty, off) {
                assert(out@ =~= prev + Seq::<ProcessedMessage>::empty());
            }
        }
        i = i + 1;
    }
    proof {
        assert(messages@.take(messages@.len() as int) =~= messages@);
    }
    out
}

/// Filtering correctness: a record whose kind is not the literal
/// "message" contributes nothing, wherever it stands: removing it
/// leaves the processed sequence unchanged.
pub proof fn lemma_service_message_excluded(
    ms: Seq<RawMessage>,
    j: int,
    target_year: int,
    offset: int,
)
    requires
        0 <= j < ms.len(),
        ms[j].kind@ != message_kind(),
    ensures
        process_seq(ms, target_year, offset) == process_seq(ms.remove(j), target_year, offset),
    decreases ms.len(),
{
    let last: int = ms.len() - 1;
    if j == last {
        assert(ms.remove(j) =~= ms.drop_last());
        assert(!eligible(ms.last(), target_year, offset));
        assert(process_seq(ms.drop_last(), target_year, offset)
            + Seq::<ProcessedMessage>::empty() =~= process_seq(
            ms.drop_last(),
            target_year,
            offset,
        ));
    } else {
        let mp = ms.remove(j);
        assert(mp.last() == ms.last());
        assert(mp.drop_last() =~= ms.drop_last().remove(j));
        assert(ms.drop_last()[j] == ms[j]);
        lemma_service_message_excluded(ms.drop_last(), j, target_year, offset);
    }
}

} // verus!
