//! Display-ready identity of ranked messages: the local date to the
//! minute, and a deep link back into the source chat.

use vstd::prelude::*;
use vstd::arithmetic::div_mod::lemma_mod_bound;
use crate::dates::LocalStamp;
use crate::process::ProcessedMessage;

verus! {

/// Decimal digits of a non-negative number, most significant first.
pub open spec fn dec_rep(n: nat) -> Seq<u8>
    decreases n,
{
    if n < 10 {
        seq![(48 + n) as u8]
    } else {
        dec_rep((n / 10) as nat) + seq![(48 + n % 10) as u8]
    }
}

/// Decimal form of a signed number: minus sign first for negatives.
pub open spec fn dec_rep_signed(v: int) -> Seq<u8> {
    if v < 0 {
        seq![45u8] + dec_rep((-v) as nat)
    } else {
        dec_rep(v as nat)
    }
}

/// Two-character zero-padded field of a value below 100.
pub open spec fn two_digits(n: int) -> Seq<u8> {
    seq![(48 + n / 10) as u8, (48 + n % 10) as u8]
}

/// A number zero-padded to at least four digits.
pub open spec fn padded4(n: nat) -> Seq<u8> {
    if n < 10 {
        seq![48u8, 48u8, 48u8] + dec_rep(n)
    } else if n < 100 {
        seq![48u8, 48u8] + dec_rep(n)
    } else if n < 1000 {
        seq![48u8] + dec_rep(n)
    } else {
        dec_rep(n)
    }
}

/// Year field of the display: four-digit padded, sign first.
pub open spec fn year_field(y: int) -> Seq<u8> {
    if y < 0 {
        seq![45u8] + padded4((-y) as nat)
    } else {
        padded4(y as nat)
    }
}

/// The "YYYY-MM-DD HH:MM" display of a local stamp.
pub open spec fn stamp_display(s: LocalStamp) -> Seq<u8> {
    year_field(s.year as int) + seq![45u8] + two_digits(s.month as int) + seq![45u8] + two_digits(
        s.day as int,
    ) + seq![32u8] + two_digits(s.hour as int) + seq![58u8] + two_digits(s.minute as int)
}

/// The bytes of "https://t.me/c/".
pub open spec fn link_prefix() -> Seq<u8> {
    seq![
        104u8,
        116u8,
        116u8,
        112u8,
        115u8,
        58u8,
        47u8,
        47u8,
        116u8,
        46u8,
        109u8,
        101u8,
        47u8,
        99u8,
        47u8,
    ]
}

/// The decimal channel identifier, with a literal leading "-100"
/// stripped when present.
pub open spec fn clean_channel_digits(chan: int) -> Seq<u8> {
    let s = dec_rep_signed(chan);
    if s.len() >= 4 && s.take(4) == seq![45u8, 49u8, 48u8, 48u8] {
        s.skip(4)
    } else {
        s
    }
}

/// The deep link "https://t.me/c/{clean}/{id}".
pub open spec fn link_bytes(chan: int, msg_id: int) -> Seq<u8> {
    link_prefix() + clean_channel_digits(chan) + seq![47u8] + dec_rep_signed(msg_id)
}

/// One row of the ranked output.
#[derive(Debug)]
pub struct RankedEntry {
    /// 1-based rank.
    pub rank: usize,
    pub message_id: i64,
    /// "YYYY-MM-DD HH:MM" in the resolved timezone.
    pub date_display: Vec<u8>,
    /// Deep link into the source chat.
    pub link: Vec<u8>,
    pub total_reactions: u128,
}

/// The row carries exactly the display identity of the given message.
pub open spec fn entry_matches(e: RankedEntry, m: ProcessedMessage, chan: int, rank: int) -> bool {
    &&& e.rank == rank
    &&& e.message_id == m.id
    &&& e.total_reactions == m.total_reactions
    &&& e.date_display@ == stamp_display(m.local)
    &&& e.link@ == link_bytes(chan, m.id as int)
}

/// Appends the decimal digits of `n`.
fn push_dec(out: &mut Vec<u8>, n: u128)
    ensures
        final(out)@ == old(out)@ + dec_rep(n as nat),
    decreases n,
{
    if n >= 10 {
        push_dec(out, n / 10);
    }
    proof {
        lemma_mod_bound(n as int, 10);
    }
    let d: u8 = (n % 10) as u8;
    out.push(48 + d);
    proof {
        if n < 10 {
            assert(out@ =~= old(out)@ + dec_rep(n as nat));
        } else {
            assert(out@ =~= old(out)@ + (dec_rep((n as nat / 10) as nat) + seq![
                (48 + (n as nat) % 10) as u8,
            ]));
        }
    }
}

/// Appends the signed decimal form of `v`.
fn push_dec_signed(out: &mut Vec<u8>, v: i64)
    ensures
        final(out)@ == old(out)@ + dec_rep_signed(v as int),
{
    if v < 0 {
        out.push(45);
        let m: u128 = (-(v as i128)) as u128;
        push_dec(out, m);
        proof {
            assert(out@ =~= old(out)@ + dec_rep_signed(v as int));
        }
    } else {
        push_dec(out, v as u128);
    }
}

/// Appends the two-character zero-padded form of `n`.
fn push_two_digits(out: &mut Vec<u8>, n: u8)
    ensures
        final(out)@ == old(out)@ + two_digits(n as int),
{
    proof {
        lemma_mod_bound(n as int, 10);
    }
    out.push(48 + n / 10);
    out.push(48 + n % 10);
    proof {
        assert(out@ =~= old(out)@ + two_digits(n as int));
    }
}

/// Appends the year field, zero-padded to four digits.
fn push_year(out: &mut Vec<u8>, y: i64)
    ensures
        final(out)@ == old(out)@ + year_field(y as int),
{
    let a: u128;
    if y < 0 {
        out.push(45);
        a = (-(y as i128)) as u128;
    } else {
        a = y as u128;
    }
    if a < 10 {
        out.push(48);
        out.push(48);
        out.push(48);
    } else if a < 100 {
        out.push(48);
        out.push(48);
    } else if a < 1000 {
        out.push(48);
    }
    push_dec(out, a);
    proof {
        assert(out@ =~= old(out)@ + year_field(y as int));
    }
}

/// Renders the "YYYY-MM-DD HH:MM" display of a stamp.
pub fn date_display_bytes(st: LocalStamp) -> (r: Vec<u8>)
    ensures
        r@ == stamp_display(st),
{
    let mut out: Vec<u8> = Vec::new();
    push_year(&mut out, st.year);
    out.push(45);
    push_two_digits(&mut out, st.month);
    out.push(45);
    push_two_digits(&mut out, st.day);
    out.push(32);
    push_two_digits(&mut out, st.hour);
    out.push(58);
    push_two_digits(&mut out, st.minute);
    proof {
        assert(out@ =~= stamp_display(st));
    }
    out
}

/// Renders the deep link of one message in the channel.
pub fn channel_link(chan: i64, msg_id: i64) -> (r: Vec<u8>)
    ensures
        r@ == link_bytes(chan as int, msg_id as int),
{
    let mut digits: Vec<u8> = Vec::new();
    push_dec_signed(&mut digits, chan);
    let strip: bool = digits.len() >= 4 && digits[0] == 45 && digits[1] == 49 && digits[2] == 48
        && digits[3] == 48;
    proof {
        if strip {
            assert(digits@.take(4) =~= seq![45u8, 49u8, 48u8, 48u8]);
        } else {
            if digits@.len() >= 4 {
                assert(digits@.take(4)[0] == digits@[0] && digits@.take(4)[1] == digits@[1]
                    && digits@.take(4)[2] == digits@[2] && digits@.take(4)[3] == digits@[3]);
            }
        }
    }
    let start: usize = if strip {
        4
    } else {
        0
    };
    let mut out: Vec<u8> = Vec::new();
    out.push(104);
    out.push(116);
    out.push(116);
    out.push(112);
    out.push(115);
    out.push(58);
    out.push(47);
    out.push(47);
    out.push(116);
    out.push(46);
    out.push(109);
    out.push(101);
    out.push(47);
    out.push(99);
    out.push(47);
    proof {
        assert(out@ =~= link_prefix());
    }
    let mut i: usize = start;
    while i < digits.len()
        invariant
            start <= i <= digits@.len(),
            out@ == link_prefix() + digits@.subrange(start as int, i as int),
        decreases digits@.len() - i,
    {
        out.push(digits[i]);
        proof {
            assert(digits@.subrange(start as int, i + 1).drop_last() =~= digits@.subrange(
                start as int,
                i as int,
            ));
            assert(out@ =~= link_prefix() + digits@.subrange(start as int, i + 1));
        }
        i = i + 1;
    }
    proof {
        assert(digits@.subrange(start as int, digits@.len() as int) =~= digits@.skip(
            start as int,
        ));
        if !strip {
            assert(digits@.skip(0) =~= digits@);
        }
    }
    out.push(47);
    push_dec_signed(&mut out, msg_id);
    proof {
        assert(out@ =~= link_bytes(chan as int, msg_id as int));
    }
    out
}

/// Renders the ranked sequence into display rows, ranks starting at 1.
pub fn render_entries(chan: i64, ranked: &Vec<ProcessedMessage>) -> (r: Vec<RankedEntry>)
    ensures
        r@.len() == ranked@.len(),
        forall|k: int|
            0 <= k < r@.len() ==> entry_matches(#[trigger] r@[k], ranked@[k], chan as int, k + 1),
{
    let mut r: Vec<RankedEntry> = Vec::new();
    let mut i: usize = 0;
    while i < ranked.len()
        invariant
            i <= ranked@.len(),
            r@.len() == i as int,
            forall|k: int|
                0 <= k < i ==> entry_matches(#[trigger] r@[k], ranked@[k], chan as int, k + 1),
        decreases ranked@.len() - i,
    {
        let m: ProcessedMessage = ranked[i];
        let e: RankedEntry = RankedEntry {
            rank: i + 1,
            message_id: m.id,
            date_display: date_display_bytes(m.local),
            link: channel_link(chan, m.id),
            total_reactions: m.total_reactions,
        };
        r.push(e);
        i = i + 1;
    }
    r
}

} // verus!
