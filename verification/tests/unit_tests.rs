use reaction_rank::dates::{LocalStamp, local_stamp};
use reaction_rank::numparse::{parse_i32_bytes, parse_i64_bytes};
use reaction_rank::process::{RawMessage, process_messages};
use reaction_rank::rank::rank_messages;
use reaction_rank::render::{channel_link, date_display_bytes};
use reaction_rank::timezone::{TimezoneError, resolve_timezone};

fn b(s: &str) -> Vec<u8> {
    s.as_bytes().to_vec()
}

#[test]
fn parse_i64_accepts_signed_decimal() {
    assert_eq!(parse_i64_bytes(&b("0")), Some(0));
    assert_eq!(parse_i64_bytes(&b("1717243200")), Some(1717243200));
    assert_eq!(parse_i64_bytes(&b("+42")), Some(42));
    assert_eq!(parse_i64_bytes(&b("-42")), Some(-42));
    assert_eq!(parse_i64_bytes(&b("007")), Some(7));
    assert_eq!(parse_i64_bytes(&b("9223372036854775807")), Some(i64::MAX));
    assert_eq!(parse_i64_bytes(&b("-9223372036854775808")), Some(i64::MIN));
}

#[test]
fn parse_i64_rejects_garbage_and_overflow() {
    assert_eq!(parse_i64_bytes(&b("")), None);
    assert_eq!(parse_i64_bytes(&b("+")), None);
    assert_eq!(parse_i64_bytes(&b("-")), None);
    assert_eq!(parse_i64_bytes(&b(" 1")), None);
    assert_eq!(parse_i64_bytes(&b("1 ")), None);
    assert_eq!(parse_i64_bytes(&b("12a3")), None);
    assert_eq!(parse_i64_bytes(&b("--1")), None);
    assert_eq!(parse_i64_bytes(&b("9223372036854775808")), None);
    assert_eq!(parse_i64_bytes(&b("-9223372036854775809")), None);
    assert_eq!(parse_i64_bytes(&b("99999999999999999999999999")), None);
}

#[test]
fn parse_i32_bounds() {
    assert_eq!(parse_i32_bytes(&b("2147483647")), Some(i32::MAX));
    assert_eq!(parse_i32_bytes(&b("-2147483648")), Some(i32::MIN));
    assert_eq!(parse_i32_bytes(&b("2147483648")), None);
}

#[test]
fn timezone_offsets_resolve() {
    assert_eq!(resolve_timezone(&b("+0000")), Ok(0));
    assert_eq!(resolve_timezone(&b("+0300")), Ok(10800));
    assert_eq!(resolve_timezone(&b("-0500")), Ok(-18000));
    assert_eq!(resolve_timezone(&b("+03:00")), Ok(10800));
    assert_eq!(resolve_timezone(&b("-05:30")), Ok(-19800));
    assert_eq!(resolve_timezone(&b("+2359")), Ok(86340));
    assert_eq!(resolve_timezone(&b("-2359")), Ok(-86340));
}

#[test]
fn timezone_errors() {
    assert_eq!(resolve_timezone(&b("")), Err(TimezoneError::InvalidTimezoneFormat));
    assert_eq!(resolve_timezone(&b("UTC")), Err(TimezoneError::InvalidTimezoneFormat));
    assert_eq!(resolve_timezone(&b("+03:0x")), Err(TimezoneError::InvalidTimezoneFormat));
    assert_eq!(resolve_timezone(&b("+2400")), Err(TimezoneError::InvalidTimezoneOffset));
    assert_eq!(resolve_timezone(&b("-2400")), Err(TimezoneError::InvalidTimezoneOffset));
    assert_eq!(resolve_timezone(&b("+2360")), Err(TimezoneError::InvalidTimezoneOffset));
    assert_eq!(resolve_timezone(&b("+9999")), Err(TimezoneError::InvalidTimezoneOffset));
}

#[test]
fn packed_minutes_are_not_validated() {
    // An oddity of the packed-decimal form: minutes >= 60 pass through
    // the formula unvalidated when the result stays in range.
    assert_eq!(resolve_timezone(&b("+0399")), Ok(3 * 3600 + 99 * 60));
}

#[test]
fn local_stamp_epoch_zero() {
    let s = local_stamp(0, 0);
    assert_eq!(
        s,
        LocalStamp { year: 1970, month: 1, day: 1, hour: 0, minute: 0 }
    );
}

#[test]
fn local_stamp_negative_epoch() {
    // One second before the epoch.
    let s = local_stamp(-1, 0);
    assert_eq!(
        s,
        LocalStamp { year: 1969, month: 12, day: 31, hour: 23, minute: 59 }
    );
}

#[test]
fn local_stamp_leap_day() {
    // 2024-02-29T23:59:59Z.
    let s = local_stamp(1709251199, 0);
    assert_eq!(
        s,
        LocalStamp { year: 2024, month: 2, day: 29, hour: 23, minute: 59 }
    );
}

#[test]
fn local_stamp_century_rule() {
    // 1900 is not a leap year: 1900-03-01T00:00:00Z.
    let s = local_stamp(-2203891200, 0);
    assert_eq!(
        s,
        LocalStamp { year: 1900, month: 3, day: 1, hour: 0, minute: 0 }
    );
}

#[test]
fn local_stamp_offset_changes_day() {
    // 2023-12-31T23:30:00Z at +0300 is 02:30 on Jan 1, 2024.
    let s = local_stamp(1704065400, 10800);
    assert_eq!(
        s,
        LocalStamp { year: 2024, month: 1, day: 1, hour: 2, minute: 30 }
    );
    // The same instant at -0500 is 18:30 on Dec 31, 2023.
    let s = local_stamp(1704065400, -18000);
    assert_eq!(
        s,
        LocalStamp { year: 2023, month: 12, day: 31, hour: 18, minute: 30 }
    );
}

#[test]
fn date_display_formats_and_pads() {
    let s = LocalStamp { year: 987, month: 4, day: 5, hour: 6, minute: 7 };
    assert_eq!(date_display_bytes(s), b"0987-04-05 06:07".to_vec());
    let s = LocalStamp { year: 2024, month: 12, day: 31, hour: 23, minute: 59 };
    assert_eq!(date_display_bytes(s), b"2024-12-31 23:59".to_vec());
}

#[test]
fn channel_link_strips_only_broadcast_prefix() {
    assert_eq!(channel_link(-1001234567890, 10), b"https://t.me/c/1234567890/10".to_vec());
    assert_eq!(channel_link(987654321, 11), b"https://t.me/c/987654321/11".to_vec());
    assert_eq!(channel_link(-99, 1), b"https://t.me/c/-99/1".to_vec());
    assert_eq!(channel_link(-100, 1), b"https://t.me/c//1".to_vec());
}

fn pm(id: i64, total: u128) -> reaction_rank::process::ProcessedMessage {
    reaction_rank::process::ProcessedMessage {
        id,
        total_reactions: total,
        local: LocalStamp { year: 2024, month: 1, day: 1, hour: 0, minute: 0 },
    }
}

#[test]
fn ranking_is_descending_and_stable() {
    let msgs = vec![pm(1, 3), pm(2, 9), pm(3, 3), pm(4, 9), pm(5, 1)];
    let ranked = rank_messages(&msgs, 10);
    assert_eq!(ranked.iter().map(|m| m.id).collect::<Vec<_>>(), vec![2, 4, 1, 3, 5]);
    let top2 = rank_messages(&msgs, 2);
    assert_eq!(top2.iter().map(|m| m.id).collect::<Vec<_>>(), vec![2, 4]);
}

#[test]
fn processor_keeps_input_order() {
    let mk = |id: i64, total: u32| RawMessage {
        id,
        timestamp: Some(b"1717243200".to_vec()),
        reactions: vec![total],
        kind: b"message".to_vec(),
    };
    let processed = process_messages(&vec![mk(5, 1), mk(3, 2), mk(9, 3)], 2024, 0);
    assert_eq!(processed.iter().map(|m| m.id).collect::<Vec<_>>(), vec![5, 3, 9]);
}
