use call_relay::assembler::FrameAssembler;
use call_relay::media::{media_ingest, parse_u64};

#[test]
fn parse_u64_exact_values() {
    assert_eq!(parse_u64(b"0"), Some(0));
    assert_eq!(parse_u64(b"5"), Some(5));
    assert_eq!(parse_u64(b"160"), Some(160));
    assert_eq!(parse_u64(b"18446744073709551615"), Some(u64::MAX));
}

#[test]
fn parse_u64_rejects_bad_input() {
    assert_eq!(parse_u64(b""), None);
    assert_eq!(parse_u64(b"12a"), None);
    assert_eq!(parse_u64(b"-3"), None);
    assert_eq!(parse_u64(b" 7"), None);
    assert_eq!(parse_u64(b"18446744073709551616"), None, "one past the limit overflows");
}

#[test]
fn media_ingest_decodes_and_frames() {
    let mut assembler = FrameAssembler::new(4);

    let first = base64::encode([1u8, 2, 3]);
    assert_eq!(media_ingest(&mut assembler, &first, 10), None, "3 bytes: below a frame");

    let second = base64::encode([4u8, 5]);
    let frame = media_ingest(&mut assembler, &second, 20).expect("5 bytes buffered: frame due");
    assert_eq!(frame, vec![1, 2, 3, 4], "the decoded bytes, framed in order");
    assert!(assembler.gap_before(19), "the second event's timestamp was recorded");
}

#[test]
fn undecodable_payload_is_dropped() {
    let mut assembler = FrameAssembler::new(2);
    let good = base64::encode([7u8]);
    assert_eq!(media_ingest(&mut assembler, &good, 1), None);

    let bad = "!!! not base64 !!!".to_string();
    assert_eq!(media_ingest(&mut assembler, &bad, 2), None);
    assert!(!assembler.gap_before(1), "a dropped event leaves the state untouched");

    let more = base64::encode([8u8]);
    let frame = media_ingest(&mut assembler, &more, 3).expect("buffer was preserved");
    assert_eq!(frame, vec![7, 8]);
}
