use chess_positions::persistance::{Position, PositionSegment};

#[test]
fn header_carries_magic_and_big_endian_count() {
    let mut seg = PositionSegment::new("segment1.db");
    assert_eq!(seg.get_header(), [0xcc, 0xdd, 0x69, 0x42, 0, 0, 0, 0]);
    for _ in 0..258 {
        seg.insert(1, 2, 3, 4);
    }
    assert_eq!(seg.get_header(), [0xcc, 0xdd, 0x69, 0x42, 0, 0, 1, 2]);
    assert_eq!(seg.len(), 258);
    assert_eq!(seg.path(), "segment1.db");
}

#[test]
fn records_are_big_endian_words() {
    let p = Position { r12: 0x0102_0304_0506_0708, r34: 0, r56: u64::MAX, r78: 0xcafe };
    let bytes = p.position_quad_to_bytes();
    assert_eq!(
        bytes,
        [
            1, 2, 3, 4, 5, 6, 7, 8, 0, 0, 0, 0, 0, 0, 0, 0, 0xff, 0xff, 0xff, 0xff, 0xff, 0xff,
            0xff, 0xff, 0, 0, 0, 0, 0, 0, 0xca, 0xfe
        ]
    );
    assert_eq!(
        PositionSegment::position_quad_to_bytes(0x0102_0304_0506_0708, 0, u64::MAX, 0xcafe),
        bytes
    );
}

#[test]
fn byte_image_is_header_then_records() {
    let mut seg = PositionSegment::new("segment1.db");
    seg.insert(0x1111_2222_3333_4444, 0, 1, u64::MAX);
    let bytes = seg.to_bytes();
    assert_eq!(bytes.len(), 8 + 32);
    assert_eq!(&bytes[0..8], &[0xcc, 0xdd, 0x69, 0x42, 0, 0, 0, 1]);
    assert_eq!(&bytes[8..16], &[0x11, 0x11, 0x22, 0x22, 0x33, 0x33, 0x44, 0x44]);
    assert_eq!(&bytes[16..24], &[0, 0, 0, 0, 0, 0, 0, 0]);
    assert_eq!(&bytes[24..32], &[0, 0, 0, 0, 0, 0, 0, 1]);
    assert_eq!(&bytes[32..40], &[0xff; 8]);
}

#[test]
fn segment_round_trips_order_and_values() {
    let mut seg = PositionSegment::new("segment1.db");
    let fingerprints = [
        (1u64, 2u64, 3u64, 4u64),
        (u64::MAX, 0, u64::MAX, 0),
        (0xdead_beef, 42, 7, 0x0123_4567_89ab_cdef),
        (1, 2, 3, 4),
    ];
    for (a, b, c, d) in fingerprints {
        seg.insert(a, b, c, d);
    }
    let bytes = seg.to_bytes();
    let back = PositionSegment::read_positions(&bytes).unwrap();
    assert_eq!(back.len(), fingerprints.len());
    for (i, (a, b, c, d)) in fingerprints.into_iter().enumerate() {
        assert_eq!(back[i], Position { r12: a, r34: b, r56: c, r78: d });
    }
}

#[test]
fn empty_segment_round_trips() {
    let seg = PositionSegment::new("empty.db");
    let bytes = seg.to_bytes();
    assert_eq!(bytes.len(), 8);
    let back = PositionSegment::read_positions(&bytes).unwrap();
    assert!(back.is_empty());
}

#[test]
fn malformed_images_are_refused() {
    // too short for a header
    assert!(PositionSegment::read_positions(&[0xcc, 0xdd, 0x69]).is_none());
    // wrong magic
    assert!(PositionSegment::read_positions(&[0, 0xdd, 0x69, 0x42, 0, 0, 0, 0]).is_none());
    // count does not match the byte length
    assert!(PositionSegment::read_positions(&[0xcc, 0xdd, 0x69, 0x42, 0, 0, 0, 1]).is_none());
    let mut seg = PositionSegment::new("t.db");
    seg.insert(1, 2, 3, 4);
    let mut bytes = seg.to_bytes();
    bytes.pop();
    assert!(PositionSegment::read_positions(&bytes).is_none());
}
