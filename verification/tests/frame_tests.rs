use raw_ether::frame::{
    build_ack_frame, build_data_frame, build_frame, check_frame, reply_seq, source_mac, FrameCheck,
};
use raw_ether::protocol::{compute_checksum, CustomHeader, LINUX_MAX_PAYLOAD, MAX_PAYLOAD};

const DEST: [u8; 6] = [0xAC, 0xB5, 0x7D, 0x06, 0x40, 0x49];
const SRC: [u8; 6] = [0xDE, 0xAD, 0xBE, 0xEF, 0x00, 0x01];

#[test]
fn build_frame_lays_out_every_part() {
    let h = CustomHeader { version: 1, msg_type: 3, seq: 2, payload_len: 2, checksum: 3 };
    let f = build_frame(&DEST, &SRC, &h, &[1, 2]);
    let mut expected = vec![];
    expected.extend_from_slice(&DEST);
    expected.extend_from_slice(&SRC);
    expected.extend_from_slice(&[0x88, 0xB6]);
    expected.extend_from_slice(&[1, 3, 0, 2, 0, 2, 0, 0, 0, 3]);
    expected.extend_from_slice(&[1, 2]);
    assert_eq!(f, expected);
}

#[test]
fn data_frame_has_version_type_length_and_checksum() {
    let f = build_data_frame(&DEST, &SRC, b"hello world", 1);
    assert_eq!(f.len(), 14 + 10 + 11);
    assert_eq!(&f[0..6], &DEST);
    assert_eq!(&f[6..12], &SRC);
    assert_eq!(&f[12..14], &[0x88, 0xB6]);
    let h = CustomHeader::from_bytes(&f[14..]).unwrap();
    assert_eq!(h, CustomHeader {
        version: 1,
        msg_type: 1,
        seq: 1,
        payload_len: 11,
        checksum: compute_checksum(b"hello world"),
    });
    assert_eq!(&f[24..], b"hello world");
}

#[test]
fn ack_frame_carries_message_received() {
    let f = build_ack_frame(&DEST, &SRC, 0x0102);
    assert_eq!(f.len(), 14 + 10 + 16);
    let h = CustomHeader::from_bytes(&f[14..]).unwrap();
    assert_eq!(h, CustomHeader { version: 1, msg_type: 2, seq: 0x0102, payload_len: 16, checksum: 1580 });
    assert_eq!(&f[24..], b"Message received");
}

#[test]
fn data_frame_is_accepted_as_built() {
    let payload = b"abc";
    let f = build_data_frame(&DEST, &SRC, payload, 77);
    let expected = CustomHeader {
        version: 1,
        msg_type: 1,
        seq: 77,
        payload_len: 3,
        checksum: compute_checksum(payload),
    };
    assert_eq!(check_frame(&f, MAX_PAYLOAD), FrameCheck::Valid { header: expected });
    assert_eq!(source_mac(&f), SRC);
    assert_eq!(reply_seq(&expected), Some(77));
}

#[test]
fn ack_frame_is_accepted_and_not_answered() {
    let f = build_ack_frame(&DEST, &SRC, 5);
    match check_frame(&f, MAX_PAYLOAD) {
        FrameCheck::Valid { header } => {
            assert_eq!(header.msg_type, 2);
            assert_eq!(header.seq, 5);
            assert_eq!(reply_seq(&header), None);
        }
        other => panic!("unexpected verdict {:?}", other),
    }
}

#[test]
fn empty_payload_frame_is_valid() {
    let f = build_data_frame(&DEST, &SRC, &[], 0);
    assert_eq!(f.len(), 24);
    assert_eq!(
        check_frame(&f, MAX_PAYLOAD),
        FrameCheck::Valid { header: CustomHeader { version: 1, msg_type: 1, seq: 0, payload_len: 0, checksum: 0 } }
    );
}

#[test]
fn check_frame_too_short() {
    let f = build_data_frame(&DEST, &SRC, &[], 0);
    assert_eq!(check_frame(&f[..23], MAX_PAYLOAD), FrameCheck::TooShort);
    assert_eq!(check_frame(&[], MAX_PAYLOAD), FrameCheck::TooShort);
}

#[test]
fn check_frame_foreign_ethertype() {
    let mut f = build_data_frame(&DEST, &SRC, b"x", 1);
    f[12] = 0x08;
    f[13] = 0x00;
    assert_eq!(check_frame(&f, MAX_PAYLOAD), FrameCheck::ForeignEtherType);
}

#[test]
fn check_frame_payload_too_long() {
    let payload = vec![1u8; 300];
    let f = build_data_frame(&DEST, &SRC, &payload, 3);
    match check_frame(&f, MAX_PAYLOAD) {
        FrameCheck::PayloadTooLong { header } => assert_eq!(header.payload_len, 300),
        other => panic!("unexpected verdict {:?}", other),
    }
    // The Linux receiver allows up to 1024 bytes.
    assert!(matches!(check_frame(&f, LINUX_MAX_PAYLOAD), FrameCheck::Valid { .. }));
}

#[test]
fn check_frame_truncated() {
    let f = build_data_frame(&DEST, &SRC, b"hello", 3);
    match check_frame(&f[..f.len() - 1], MAX_PAYLOAD) {
        FrameCheck::Truncated { header } => assert_eq!(header.payload_len, 5),
        other => panic!("unexpected verdict {:?}", other),
    }
}

#[test]
fn check_frame_checksum_mismatch() {
    let mut f = build_data_frame(&DEST, &SRC, b"hello", 3);
    f[24] = b'j';
    match check_frame(&f, MAX_PAYLOAD) {
        FrameCheck::ChecksumMismatch { header, computed } => {
            assert_eq!(header.checksum, 532);
            assert_eq!(computed, 534);
        }
        other => panic!("unexpected verdict {:?}", other),
    }
}

#[test]
fn check_frame_ignores_bytes_after_payload() {
    let mut f = build_data_frame(&DEST, &SRC, b"hi", 9);
    f.extend_from_slice(&[0xEE; 10]);
    assert!(matches!(check_frame(&f, MAX_PAYLOAD), FrameCheck::Valid { .. }));
}

#[test]
fn reply_seq_only_for_data() {
    let mut h = CustomHeader { version: 1, msg_type: 1, seq: 42, payload_len: 0, checksum: 0 };
    assert_eq!(reply_seq(&h), Some(42));
    h.msg_type = 2;
    assert_eq!(reply_seq(&h), None);
    h.msg_type = 3;
    assert_eq!(reply_seq(&h), None);
    h.msg_type = 0x7F;
    assert_eq!(reply_seq(&h), None);
}

#[test]
fn source_mac_reads_bytes_six_to_twelve() {
    let f: Vec<u8> = (0u8..12).collect();
    assert_eq!(source_mac(&f), [6, 7, 8, 9, 10, 11]);
}

#[test]
fn write_frame_matches_build_frame_and_keeps_the_rest() {
    let h = CustomHeader { version: 1, msg_type: 1, seq: 7, payload_len: 3, checksum: 6 };
    let mut buf = [0xEEu8; 40];
    let n = raw_ether::frame::write_frame(&mut buf, &DEST, &SRC, &h, &[1, 2, 3]);
    assert_eq!(n, 27);
    assert_eq!(buf[..n].to_vec(), build_frame(&DEST, &SRC, &h, &[1, 2, 3]));
    assert!(buf[n..].iter().all(|&b| b == 0xEE));
}
