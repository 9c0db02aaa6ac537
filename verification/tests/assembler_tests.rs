use call_relay::assembler::FrameAssembler;

#[test]
fn frames_emit_on_exact_byte_boundaries() {
    let mut assembler = FrameAssembler::new(25);

    let first: Vec<u8> = (0..10).collect();
    let second: Vec<u8> = (10..20).collect();
    let third: Vec<u8> = (20..30).collect();

    assert!(assembler.ingest(first, 0).is_none(), "10 bytes buffered: no frame yet");
    assert!(assembler.ingest(second, 1).is_none(), "20 bytes buffered: no frame yet");

    let frame = assembler.ingest(third, 2).expect("30 bytes buffered: one frame due");
    let expected: Vec<u8> = (0..25).collect();
    assert_eq!(frame, expected, "exactly the first 25 bytes, in order");

    // The 5 leftover bytes carry over and head the next frame.
    let fourth: Vec<u8> = (30..50).collect();
    let frame2 = assembler.ingest(fourth, 3).expect("5 + 20 bytes buffered: one frame due");
    let expected2: Vec<u8> = (25..50).collect();
    assert_eq!(frame2, expected2, "leftover bytes come first");
}

#[test]
fn timestamp_gaps_never_wedge_the_assembler() {
    let mut assembler = FrameAssembler::new(4);
    assert!(assembler.ingest(vec![1, 2], 100).is_none());
    // A large forward jump and an out-of-order fragment: bytes still count.
    assert!(!assembler.gap_before(5000));
    assert_eq!(assembler.ingest(vec![3], 5000), None);
    assert!(assembler.gap_before(40), "an earlier timestamp is an observable gap");
    let frame = assembler.ingest(vec![4, 5], 40).expect("enough bytes despite the gaps");
    assert_eq!(frame, vec![1, 2, 3, 4]);
}

#[test]
fn oversized_payload_emits_one_frame_per_ingest() {
    let mut assembler = FrameAssembler::new(2);
    let frame = assembler.ingest(vec![9, 8, 7, 6, 5], 1).expect("a frame is due");
    assert_eq!(frame, vec![9, 8], "exactly one frame per ingest");
    let frame2 = assembler.ingest(Vec::new(), 2).expect("buffered surplus yields the next frame");
    assert_eq!(frame2, vec![7, 6]);
    assert_eq!(assembler.ingest(Vec::new(), 3), None, "one byte left: below a frame");
}
