use reaction_rank::pipeline::{ChatExport, run_pipeline};
use reaction_rank::process::RawMessage;
use reaction_rank::render::RankedEntry;
use reaction_rank::timezone::TimezoneError;

fn msg(id: i64, timestamp: Option<&str>, reactions: Vec<u32>, kind: &str) -> RawMessage {
    RawMessage {
        id,
        timestamp: timestamp.map(|s| s.as_bytes().to_vec()),
        reactions,
        kind: kind.as_bytes().to_vec(),
    }
}

fn run(
    channel: i64,
    messages: Vec<RawMessage>,
    year: i32,
    tz: &str,
    limit: usize,
) -> Result<Vec<RankedEntry>, TimezoneError> {
    let export = ChatExport { id: channel, messages };
    run_pipeline(&export, year, &tz.as_bytes().to_vec(), limit)
}

// Epoch second of 2023-12-31T23:30:00Z.
const LATE_2023: &str = "1704065400";
// Epoch second of 2024-06-01T12:00:00Z.
const MID_2024: &str = "1717243200";

#[test]
fn idempotence_byte_identical() {
    let mk = || {
        vec![
            msg(10, Some(MID_2024), vec![1, 1], "message"),
            msg(11, Some(MID_2024), vec![7], "message"),
            msg(12, Some(MID_2024), vec![3], "message"),
        ]
    };
    let a = run(-1001234567890, mk(), 2024, "+0300", 5).unwrap();
    let b = run(-1001234567890, mk(), 2024, "+0300", 5).unwrap();
    assert_eq!(a.len(), b.len());
    for (x, y) in a.iter().zip(b.iter()) {
        assert_eq!(x.rank, y.rank);
        assert_eq!(x.message_id, y.message_id);
        assert_eq!(x.date_display, y.date_display);
        assert_eq!(x.link, y.link);
        assert_eq!(x.total_reactions, y.total_reactions);
    }
}

#[test]
fn non_message_kinds_never_surface() {
    let rows = run(
        1,
        vec![
            msg(1, Some(MID_2024), vec![5], "service"),
            msg(2, Some(MID_2024), vec![5], ""),
            msg(3, Some(MID_2024), vec![5], "Message"),
            msg(4, Some(MID_2024), vec![5], "message "),
        ],
        2024,
        "+0000",
        10,
    )
    .unwrap();
    assert!(rows.is_empty());
}

#[test]
fn reaction_sum_is_exact() {
    let rows = run(1, vec![msg(7, Some(MID_2024), vec![3, 0, 5], "message")], 2024, "+0000", 5)
        .unwrap();
    assert_eq!(rows.len(), 1);
    assert_eq!(rows[0].total_reactions, 8);
}

#[test]
fn year_boundary_follows_local_offset() {
    let messages = || vec![msg(1, Some(LATE_2023), vec![1], "message")];
    let in_2024 = run(1, messages(), 2024, "+0300", 5).unwrap();
    assert_eq!(in_2024.len(), 1);
    let not_2023 = run(1, messages(), 2023, "+0300", 5).unwrap();
    assert!(not_2023.is_empty());
    let in_2023 = run(1, messages(), 2023, "+0000", 5).unwrap();
    assert_eq!(in_2023.len(), 1);
    let not_2024 = run(1, messages(), 2024, "+0000", 5).unwrap();
    assert!(not_2024.is_empty());
}

#[test]
fn ties_keep_input_order() {
    let rows = run(
        1,
        vec![
            msg(30, Some(MID_2024), vec![2, 2], "message"),
            msg(10, Some(MID_2024), vec![4], "message"),
            msg(20, Some(MID_2024), vec![4], "message"),
        ],
        2024,
        "+0000",
        5,
    )
    .unwrap();
    assert_eq!(rows.iter().map(|r| r.message_id).collect::<Vec<_>>(), vec![30, 10, 20]);
}

#[test]
fn limit_zero_yields_empty() {
    let rows = run(1, vec![msg(1, Some(MID_2024), vec![9], "message")], 2024, "+0000", 0).unwrap();
    assert!(rows.is_empty());
}

#[test]
fn limit_above_count_yields_all() {
    let rows = run(
        1,
        vec![
            msg(1, Some(MID_2024), vec![9], "message"),
            msg(2, Some(MID_2024), vec![1], "message"),
        ],
        2024,
        "+0000",
        50,
    )
    .unwrap();
    assert_eq!(rows.len(), 2);
}

#[test]
fn channel_id_normalization_in_links() {
    let rows = run(-1001234567890, vec![msg(42, Some(MID_2024), vec![1], "message")], 2024,
        "+0000", 5)
        .unwrap();
    assert_eq!(rows[0].link, b"https://t.me/c/1234567890/42".to_vec());
    let rows = run(987654321, vec![msg(42, Some(MID_2024), vec![1], "message")], 2024, "+0000", 5)
        .unwrap();
    assert_eq!(rows[0].link, b"https://t.me/c/987654321/42".to_vec());
}

#[test]
fn end_to_end_two_messages() {
    let rows = run(
        555,
        vec![
            msg(10, Some(MID_2024), vec![2], "message"),
            msg(11, Some(MID_2024), vec![3, 4], "message"),
        ],
        2024,
        "+0000",
        5,
    )
    .unwrap();
    assert_eq!(rows.len(), 2);
    assert_eq!(rows[0].rank, 1);
    assert_eq!(rows[0].message_id, 11);
    assert_eq!(rows[0].total_reactions, 7);
    assert_eq!(rows[1].rank, 2);
    assert_eq!(rows[1].message_id, 10);
    assert_eq!(rows[1].total_reactions, 2);
}

#[test]
fn malformed_records_are_skipped_silently() {
    let rows = run(
        1,
        vec![
            msg(1, None, vec![5], "message"),
            msg(2, Some("12a3"), vec![5], "message"),
            msg(3, Some(""), vec![5], "message"),
            msg(4, Some(MID_2024), vec![], "message"),
            msg(5, Some(MID_2024), vec![0, 0], "message"),
            msg(6, Some(MID_2024), vec![1], "message"),
        ],
        2024,
        "+0000",
        10,
    )
    .unwrap();
    assert_eq!(rows.len(), 1);
    assert_eq!(rows[0].message_id, 6);
}

#[test]
fn bad_timezone_is_fatal() {
    let r = run(1, vec![msg(1, Some(MID_2024), vec![5], "message")], 2024, "abc", 5);
    assert_eq!(r.unwrap_err(), TimezoneError::InvalidTimezoneFormat);
    let r = run(1, vec![msg(1, Some(MID_2024), vec![5], "message")], 2024, "+9999", 5);
    assert_eq!(r.unwrap_err(), TimezoneError::InvalidTimezoneOffset);
}

#[test]
fn date_display_in_rows() {
    let rows = run(1, vec![msg(1, Some("0"), vec![1], "message")], 1970, "+0000", 5).unwrap();
    assert_eq!(rows[0].date_display, b"1970-01-01 00:00".to_vec());
    let rows = run(1, vec![msg(1, Some(LATE_2023), vec![1], "message")], 2024, "+0300", 5)
        .unwrap();
    assert_eq!(rows[0].date_display, b"2024-01-01 02:30".to_vec());
}
