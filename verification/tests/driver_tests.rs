use raw_ether::eth_driver::{EthError, EthernetMac, MockEthDriver};
use raw_ether::firmware::{firmware_start, firmware_step, FIRST_SEQ};
use raw_ether::frame::{build_ack_frame, build_data_frame};
use raw_ether::protocol::{MAX_FRAME_SIZE, MAX_PAYLOAD};
use raw_ether::receiver::{poll, poll_outcome, PollResult};
use raw_ether::sender::send_data;

const MY_MAC: [u8; 6] = [0xDE, 0xAD, 0xBE, 0xEF, 0x00, 0x01];
const PEER_MAC: [u8; 6] = [0xDE, 0xAD, 0xBE, 0xEF, 0x00, 0x02];

fn take_frame(eth: &mut MockEthDriver) -> Vec<u8> {
    let mut buf = vec![0u8; MAX_FRAME_SIZE];
    let n = eth.recv(&mut buf).unwrap();
    buf.truncate(n);
    buf
}

#[test]
fn new_driver_has_nothing_waiting() {
    let mut eth = MockEthDriver::new(MY_MAC);
    let mut buf = [0u8; 16];
    assert_eq!(eth.recv(&mut buf), Err(EthError::RxEmpty));
    assert_eq!(eth.mac_address(), MY_MAC);
}

#[test]
fn loopback_send_then_recv_gives_the_frame_back() {
    let mut eth = MockEthDriver::new(MY_MAC);
    assert_eq!(eth.send(&[1, 2, 3, 4]), Ok(4));
    let mut buf = [7u8; 6];
    assert_eq!(eth.recv(&mut buf), Ok(4));
    assert_eq!(buf, [1, 2, 3, 4, 7, 7]);
    assert_eq!(eth.recv(&mut buf), Err(EthError::RxEmpty));
}

#[test]
fn loopback_keeps_at_most_max_frame_size() {
    let mut eth = MockEthDriver::new(MY_MAC);
    let big: Vec<u8> = (0..400u32).map(|i| i as u8).collect();
    assert_eq!(eth.send(&big), Ok(MAX_FRAME_SIZE));
    let got = take_frame(&mut eth);
    assert_eq!(got, big[..MAX_FRAME_SIZE].to_vec());
}

#[test]
fn recv_into_small_buffer_keeps_the_frame() {
    let mut eth = MockEthDriver::new(MY_MAC);
    eth.inject_frame(&[5; 10]);
    let mut small = [0u8; 4];
    assert_eq!(eth.recv(&mut small), Err(EthError::BufferTooSmall));
    assert_eq!(small, [0; 4]);
    let mut big = [0u8; 10];
    assert_eq!(eth.recv(&mut big), Ok(10));
    assert_eq!(big, [5; 10]);
}

#[test]
fn injected_empty_frame_counts_as_none() {
    let mut eth = MockEthDriver::new(MY_MAC);
    eth.inject_frame(&[]);
    let mut buf = [0u8; 4];
    assert_eq!(eth.recv(&mut buf), Err(EthError::RxEmpty));
}

#[test]
fn send_data_refuses_long_payload() {
    let mut eth = MockEthDriver::new(MY_MAC);
    let payload = vec![0u8; MAX_PAYLOAD + 1];
    assert_eq!(send_data(&mut eth, &PEER_MAC, &payload, 1), Err(EthError::BufferTooSmall));
    let mut buf = [0u8; MAX_FRAME_SIZE];
    assert_eq!(eth.recv(&mut buf), Err(EthError::RxEmpty));
}

#[test]
fn send_data_sends_the_data_frame() {
    let mut eth = MockEthDriver::new(MY_MAC);
    assert_eq!(send_data(&mut eth, &PEER_MAC, b"hello", 9), Ok(29));
    assert_eq!(take_frame(&mut eth), build_data_frame(&PEER_MAC, &MY_MAC, b"hello", 9));
}

#[test]
fn send_data_at_max_payload() {
    let mut eth = MockEthDriver::new(MY_MAC);
    let payload = vec![0x5Au8; MAX_PAYLOAD];
    assert_eq!(send_data(&mut eth, &PEER_MAC, &payload, 2), Ok(MAX_FRAME_SIZE));
    assert_eq!(poll(&mut eth), PollResult::Processed { msg_type: 1, seq: 2, payload_len: 256 });
}

#[test]
fn poll_with_nothing_waiting() {
    let mut eth = MockEthDriver::new(MY_MAC);
    assert_eq!(poll(&mut eth), PollResult::NoFrame);
}

#[test]
fn poll_answers_data_with_ack_and_not_the_ack() {
    let mut eth = MockEthDriver::new(MY_MAC);
    eth.inject_frame(&build_data_frame(&MY_MAC, &PEER_MAC, b"ping me", 300));
    assert_eq!(poll(&mut eth), PollResult::Processed { msg_type: 1, seq: 300, payload_len: 7 });
    // The ACK went out through the loopback: addressed to the sender, same seq.
    let ack = take_frame(&mut eth);
    assert_eq!(ack, build_ack_frame(&PEER_MAC, &MY_MAC, 300));
    eth.inject_frame(&ack);
    assert_eq!(poll(&mut eth), PollResult::Processed { msg_type: 2, seq: 300, payload_len: 16 });
    // No reply to an ACK.
    assert_eq!(poll(&mut eth), PollResult::NoFrame);
}

#[test]
fn poll_ping_is_processed_without_reply() {
    let mut eth = MockEthDriver::new(MY_MAC);
    let mut f = build_data_frame(&MY_MAC, &PEER_MAC, b"", 4);
    f[15] = 3;
    eth.inject_frame(&f);
    assert_eq!(poll(&mut eth), PollResult::Processed { msg_type: 3, seq: 4, payload_len: 0 });
    assert_eq!(poll(&mut eth), PollResult::NoFrame);
}

#[test]
fn poll_ignores_foreign_ethertype() {
    let mut eth = MockEthDriver::new(MY_MAC);
    let mut f = build_data_frame(&MY_MAC, &PEER_MAC, b"x", 1);
    f[12] = 0x86;
    f[13] = 0xDD;
    eth.inject_frame(&f);
    assert_eq!(poll(&mut eth), PollResult::NoFrame);
}

#[test]
fn poll_rejects_bad_frames() {
    let mut eth = MockEthDriver::new(MY_MAC);
    eth.inject_frame(&[0x88; 20]);
    assert_eq!(poll(&mut eth), PollResult::Rejected);

    let mut f = build_data_frame(&MY_MAC, &PEER_MAC, b"abc", 1);
    f[25] ^= 1;
    eth.inject_frame(&f);
    assert_eq!(poll(&mut eth), PollResult::Rejected);

    let f = build_data_frame(&MY_MAC, &PEER_MAC, b"abc", 1);
    eth.inject_frame(&f[..f.len() - 1]);
    assert_eq!(poll(&mut eth), PollResult::Rejected);

    let mut f = build_data_frame(&MY_MAC, &PEER_MAC, b"abc", 1);
    f[18] = 0x01;
    f[19] = 0x01; // announces 257 bytes
    eth.inject_frame(&f);
    assert_eq!(poll(&mut eth), PollResult::Rejected);
    // nothing was sent in reply to any of them
    assert_eq!(poll(&mut eth), PollResult::NoFrame);
}

#[test]
fn poll_outcome_maps_driver_errors() {
    let buf = [0u8; MAX_FRAME_SIZE];
    assert_eq!(poll_outcome(Err(EthError::RxEmpty), &buf), PollResult::NoFrame);
    assert_eq!(poll_outcome(Err(EthError::BufferTooSmall), &buf), PollResult::Rejected);
    assert_eq!(poll_outcome(Err(EthError::TxBusy), &buf), PollResult::Rejected);
    assert_eq!(poll_outcome(Err(EthError::HardwareFault), &buf), PollResult::Rejected);
    assert_eq!(poll_outcome(Ok(10), &buf), PollResult::Rejected);
}

#[test]
fn poll_outcome_on_a_received_frame() {
    let f = build_data_frame(&MY_MAC, &PEER_MAC, b"data", 11);
    let mut buf = vec![0u8; MAX_FRAME_SIZE];
    buf[..f.len()].copy_from_slice(&f);
    assert_eq!(
        poll_outcome(Ok(f.len()), &buf),
        PollResult::Processed { msg_type: 1, seq: 11, payload_len: 4 }
    );
    // A count beyond the buffer judges the whole buffer.
    assert_eq!(
        poll_outcome(Ok(10_000), &buf),
        PollResult::Processed { msg_type: 1, seq: 11, payload_len: 4 }
    );
}

#[test]
fn firmware_start_sends_the_greeting() {
    let mut eth = MockEthDriver::new(MY_MAC);
    assert_eq!(firmware_start(&mut eth, &PEER_MAC), Ok(14 + 10 + 19));
    assert_eq!(take_frame(&mut eth), build_data_frame(&PEER_MAC, &MY_MAC, b"hello from embedded", FIRST_SEQ));
}

#[test]
fn firmware_step_follows_up_processed_frames() {
    let mut eth = MockEthDriver::new(MY_MAC);
    assert_eq!(firmware_step(&mut eth, &PEER_MAC, 1), (PollResult::NoFrame, 1));
    eth.inject_frame(&build_ack_frame(&MY_MAC, &PEER_MAC, 1));
    let (r, seq) = firmware_step(&mut eth, &PEER_MAC, 1);
    assert_eq!(r, PollResult::Processed { msg_type: 2, seq: 1, payload_len: 16 });
    assert_eq!(seq, 2);
    assert_eq!(take_frame(&mut eth), build_data_frame(&PEER_MAC, &MY_MAC, b"got your frame", 2));
}

#[test]
fn firmware_step_sequence_wraps() {
    let mut eth = MockEthDriver::new(MY_MAC);
    eth.inject_frame(&build_ack_frame(&MY_MAC, &PEER_MAC, 1));
    let (_, seq) = firmware_step(&mut eth, &PEER_MAC, u16::MAX);
    assert_eq!(seq, 0);
}

#[test]
fn firmware_step_keeps_seq_on_rejected_frame() {
    let mut eth = MockEthDriver::new(MY_MAC);
    eth.inject_frame(&[0u8; 5]);
    assert_eq!(firmware_step(&mut eth, &PEER_MAC, 7), (PollResult::Rejected, 7));
}

#[test]
fn sender_to_receiver_end_to_end() {
    let mut eth = MockEthDriver::new(MY_MAC);
    send_data(&mut eth, &MY_MAC, b"round trip", 1234).unwrap();
    assert_eq!(poll(&mut eth), PollResult::Processed { msg_type: 1, seq: 1234, payload_len: 10 });
    assert_eq!(poll(&mut eth), PollResult::Processed { msg_type: 2, seq: 1234, payload_len: 16 });
    assert_eq!(poll(&mut eth), PollResult::NoFrame);
}

#[test]
fn poll_answers_a_hand_made_data_frame() {
    let mut eth = MockEthDriver::new([0xAA; 6]);
    eth.inject_frame(&[
        1, 1, 1, 1, 1, 1, 2, 2, 2, 2, 2, 2, 0x88, 0xB6, 1, 1, 0x01, 0x02, 0x00, 0x02, 0, 0, 0, 3, 1, 2,
    ]);
    assert_eq!(poll(&mut eth), PollResult::Processed { msg_type: 1, seq: 0x0102, payload_len: 2 });
    let mut expected = vec![2, 2, 2, 2, 2, 2, 0xAA, 0xAA, 0xAA, 0xAA, 0xAA, 0xAA, 0x88, 0xB6, 1, 2, 0x01, 0x02, 0x00, 0x10, 0x00, 0x00, 0x06, 0x2C];
    expected.extend_from_slice(b"Message received");
    assert_eq!(take_frame(&mut eth), expected);
}

#[test]
fn poll_processes_a_hand_made_ping_without_reply() {
    let mut eth = MockEthDriver::new([0xAA; 6]);
    eth.inject_frame(&[1, 1, 1, 1, 1, 1, 2, 2, 2, 2, 2, 2, 0x88, 0xB6, 1, 3, 0, 7, 0, 0, 0, 0, 0, 0]);
    assert_eq!(poll(&mut eth), PollResult::Processed { msg_type: 3, seq: 7, payload_len: 0 });
    let mut buf = [0u8; MAX_FRAME_SIZE];
    assert_eq!(eth.recv(&mut buf), Err(EthError::RxEmpty));
}

#[test]
fn refused_send_leaves_the_waiting_frame() {
    let mut eth = MockEthDriver::new([0xAA; 6]);
    assert_eq!(send_data(&mut eth, &[0xBB; 6], &[0u8; 256], 0), Ok(280));
    assert_eq!(send_data(&mut eth, &[0xBB; 6], &[0u8; 257], 0), Err(EthError::BufferTooSmall));
    let mut buf = [0u8; MAX_FRAME_SIZE];
    assert_eq!(eth.recv(&mut buf), Ok(280));
}
