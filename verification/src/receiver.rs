//! Polling for incoming frames and answering DATA frames with ACKs.

use vstd::prelude::*;
use crate::eth_driver::{EthError, EthernetMac, MockEthDriver};
use crate::frame::{
    ack_frame, ack_payload_bytes, make_ack_header, write_frame, check_frame, data_frame, data_header, frame_check,
    lemma_ack_frame_accepted, lemma_data_frame_accepted, lemma_frame_check_by_bytes, source_mac, FrameCheck, ack_header,
    ack_payload,
};
use crate::protocol::{byte_sum, msg_type_code, MsgType, ETH_ALEN, MAX_FRAME_SIZE, MAX_PAYLOAD};

verus! {

/// Outcome of one `poll` call: what happened to the frame, if any.
#[derive(Debug, Clone, Copy, PartialEq, Eq, Structural)]
pub enum PollResult {
    /// No frame of the protocol was waiting. Try again later.
    NoFrame,
    /// Frame received and processed; an ACK was sent if it was a DATA frame.
    Processed { msg_type: u8, seq: u16, payload_len: u16 },
    /// A frame arrived but was malformed or failed its checks.
    Rejected,
}

/// The bytes of the receive buffer `buf` that a receive of `n` bytes filled.
pub open spec fn received_bytes(n: usize, buf: Seq<u8>) -> Seq<u8> {
    if n <= buf.len() {
        buf.take(n as int)
    } else {
        buf
    }
}

/// The outcome of a poll whose receive returned `rx` and left `buf` in the
/// receive buffer.
pub open spec fn poll_verdict(rx: Result<usize, EthError>, buf: Seq<u8>) -> PollResult {
    match rx {
        Err(EthError::RxEmpty) => PollResult::NoFrame,
        Err(_) => PollResult::Rejected,
        Ok(n) => match frame_check(received_bytes(n, buf), MAX_PAYLOAD as nat) {
            FrameCheck::ForeignEtherType => PollResult::NoFrame,
            FrameCheck::Valid { header } => PollResult::Processed {
                msg_type: header.msg_type,
                seq: header.seq,
                payload_len: header.payload_len,
            },
            _ => PollResult::Rejected,
        },
    }
}

/// The ACK that a poll with outcome `r` sends from a station with MAC `mac`,
/// the received frame being at the start of `buf`: for a processed DATA
/// frame, the ACK to the frame's source (bytes 6 to 12) echoing its sequence
/// number; none otherwise.
pub open spec fn poll_ack(r: PollResult, buf: Seq<u8>, mac: Seq<u8>) -> Option<Seq<u8>> {
    match r {
        PollResult::Processed { msg_type, seq, .. } => if msg_type == msg_type_code(MsgType::Data) {
            Some(ack_frame(buf.subrange(6, 12), mac, seq))
        } else {
            None
        },
        _ => None,
    }
}

/// The frames that a poll with outcome `r` sends: the ACK, if any.
pub open spec fn poll_replies(r: PollResult, buf: Seq<u8>, mac: Seq<u8>) -> Seq<Seq<u8>> {
    match poll_ack(r, buf, mac) {
        Some(ack) => seq![ack],
        None => Seq::empty(),
    }
}

/// The receive buffer that a poll hands to the driver: `MAX_FRAME_SIZE` zero
/// bytes.
pub open spec fn zeroed_rx_buffer() -> Seq<u8> {
    Seq::new(MAX_FRAME_SIZE as nat, |i: int| 0u8)
}

/// What a poll does to a driver of type `E` in state `m` whose MAC address is
/// `mac`: one receive into a zeroed buffer of `MAX_FRAME_SIZE` bytes, the
/// outcome that `poll_verdict` gives for what it returned, and the ACK, if
/// one is due, handed to one send. Gives the outcome, the frames sent and the
/// state left.
pub open spec fn poll_effect<E: EthernetMac>(m: E::Model, mac: Seq<u8>) -> (PollResult, Seq<Seq<u8>>, E::Model) {
    let (rx, buf, after_recv) = E::recv_outcome(m, zeroed_rx_buffer());
    let r = poll_verdict(rx, buf);
    match poll_ack(r, buf, mac) {
        Some(ack) => (r, seq![ack], E::send_outcome(after_recv, ack).1),
        None => (r, Seq::empty(), after_recv),
    }
}

/// Decide the outcome of a poll from what the receive returned and what it
/// left in the receive buffer.
pub fn poll_outcome(received: Result<usize, EthError>, frame: &[u8]) -> (r: PollResult)
    ensures
        r == poll_verdict(received, frame@),
        r is Processed ==> frame.len() >= 12,
{
    let n = match received {
        Ok(n) => n,
        Err(EthError::RxEmpty) => { return PollResult::NoFrame; },
        Err(_) => { return PollResult::Rejected; },
    };
    let len = if n <= frame.len() { n } else { frame.len() };
    let got = &frame[0..len];
    assert(got@ == received_bytes(n, frame@));
    match check_frame(got, MAX_PAYLOAD) {
        FrameCheck::ForeignEtherType => PollResult::NoFrame,
        FrameCheck::Valid { header } => PollResult::Processed {
            msg_type: header.msg_type,
            seq: header.seq,
            payload_len: header.payload_len,
        },
        _ => PollResult::Rejected,
    }
}

/// Check for a waiting frame, judge it, and send an ACK to its source if it
/// is a valid DATA frame: one receive into a zeroed buffer of
/// `MAX_FRAME_SIZE` bytes, then at most one send (see `poll_effect`).
pub fn poll<E: EthernetMac>(eth: &mut E) -> (r: PollResult)
    ensures
        ({
            let (outcome, sent, state) = poll_effect::<E>(old(eth).model(), old(eth).mac_view());
            &&& r == outcome
            &&& final(eth).sent_frames() == old(eth).sent_frames() + sent
            &&& final(eth).model() == state
        }),
        final(eth).mac_view() == old(eth).mac_view(),
{
    let mut frame = [0u8; MAX_FRAME_SIZE];
    assert(frame@ =~= zeroed_rx_buffer());
    let received = eth.recv(&mut frame);
    let r = poll_outcome(received, &frame);
    match r {
        PollResult::Processed { msg_type, seq, .. } => {
            if msg_type == MsgType::Data.as_u8() {
                let src = source_mac(&frame);
                send_ack(eth, &src, seq);
                assert(eth.sent_frames() =~= old(eth).sent_frames() + poll_replies(r, frame@, old(eth).mac_view()));
            } else {
                assert(eth.sent_frames() =~= old(eth).sent_frames() + poll_replies(r, frame@, old(eth).mac_view()));
            }
        },
        _ => {
            assert(eth.sent_frames() =~= old(eth).sent_frames() + poll_replies(r, frame@, old(eth).mac_view()));
        },
    }
    r
}

/// Build the ACK answering sequence number `seq` and send it to `dest_mac`.
/// A send error is ignored.
fn send_ack<E: EthernetMac>(eth: &mut E, dest_mac: &[u8; 6], seq: u16)
    ensures
        final(eth).sent_frames() == old(eth).sent_frames().push(
            ack_frame(dest_mac@, old(eth).mac_view(), seq),
        ),
        final(eth).model() == E::send_outcome(old(eth).model(), ack_frame(dest_mac@, old(eth).mac_view(), seq)).1,
        final(eth).mac_view() == old(eth).mac_view(),
{
    let my_mac = eth.mac_address();
    let header = make_ack_header(seq);
    let ack = ack_payload_bytes();
    let mut reply = [0u8; MAX_FRAME_SIZE];
    let reply_len = write_frame(&mut reply, dest_mac, &my_mac, &header, ack.as_slice());
    let _ = eth.send(&reply[0..reply_len]);
}

/// A DATA frame with an allowed payload, once received into the buffer, is
/// processed with its own message type, sequence number and payload length,
/// and answered by exactly one ACK, addressed to its sender and echoing its
/// sequence number.
pub proof fn lemma_poll_answers_data(
    dest: Seq<u8>,
    src: Seq<u8>,
    payload: Seq<u8>,
    seq: u16,
    buf: Seq<u8>,
    mac: Seq<u8>,
)
    requires
        dest.len() == ETH_ALEN,
        src.len() == ETH_ALEN,
        payload.len() <= MAX_PAYLOAD,
        data_frame(dest, src, payload, seq).len() <= buf.len(),
        buf.take(data_frame(dest, src, payload, seq).len() as int) == data_frame(dest, src, payload, seq),
    ensures
        ({
            let n = data_frame(dest, src, payload, seq).len() as usize;
            let r = poll_verdict(Ok(n), buf);
            &&& r == (PollResult::Processed {
                msg_type: msg_type_code(MsgType::Data),
                seq,
                payload_len: payload.len() as u16,
            })
            &&& poll_replies(r, buf, mac) == seq![ack_frame(src, mac, seq)]
        }),
{
    let f = data_frame(dest, src, payload, seq);
    lemma_data_frame_accepted(dest, src, payload, seq, MAX_PAYLOAD as nat);
    assert(received_bytes(f.len() as usize, buf) == f);
    assert(buf.subrange(6, 12) =~= f.subrange(6, 12));
    let h = data_header(payload, seq);
    assert(h.payload_len == payload.len() as u16);
}

/// On the loopback driver, a DATA frame that was sent (and so waits) is
/// processed by the next poll, which answers it with one ACK addressed to the
/// frame's sender; the poll after that processes the ACK and sends nothing;
/// and the poll after that finds nothing.
pub proof fn lemma_loopback_exchange(dest: Seq<u8>, src: Seq<u8>, payload: Seq<u8>, seq: u16, mac: Seq<u8>)
    requires
        dest.len() == ETH_ALEN,
        src.len() == ETH_ALEN,
        mac.len() == ETH_ALEN,
        payload.len() <= MAX_PAYLOAD,
    ensures
        ({
            let f = data_frame(dest, src, payload, seq);
            let waiting = <MockEthDriver as EthernetMac>::send_outcome(Seq::empty(), f).1;
            let ack = ack_frame(src, mac, seq);
            &&& waiting == f
            &&& poll_effect::<MockEthDriver>(waiting, mac) == (
                PollResult::Processed {
                    msg_type: msg_type_code(MsgType::Data),
                    seq,
                    payload_len: payload.len() as u16,
                },
                seq![ack],
                ack,
            )
            &&& poll_effect::<MockEthDriver>(ack, mac) == (
                PollResult::Processed {
                    msg_type: msg_type_code(MsgType::Ack),
                    seq,
                    payload_len: ack_payload().len() as u16,
                },
                Seq::<Seq<u8>>::empty(),
                Seq::<u8>::empty(),
            )
            &&& poll_effect::<MockEthDriver>(Seq::empty(), mac) == (
                PollResult::NoFrame,
                Seq::<Seq<u8>>::empty(),
                Seq::<u8>::empty(),
            )
        }),
{
    let f = data_frame(dest, src, payload, seq);
    let zeros = zeroed_rx_buffer();
    lemma_data_frame_accepted(dest, src, payload, seq, MAX_PAYLOAD as nat);
    assert(f.take(f.len() as int) =~= f);
    let buf = f + zeros.skip(f.len() as int);
    assert(buf.take(f.len() as int) =~= f);
    lemma_poll_answers_data(dest, src, payload, seq, buf, mac);
    let ack = ack_frame(src, mac, seq);
    lemma_ack_frame_accepted(src, mac, seq, MAX_PAYLOAD as nat);
    assert(ack.take(ack.len() as int) =~= ack);
    let abuf = ack + zeros.skip(ack.len() as int);
    assert(abuf.take(ack.len() as int) =~= ack);
    assert(received_bytes(ack.len() as usize, abuf) == ack);
}

/// The outcome of a poll, read off what the receive returned: nothing waiting
/// gives `NoFrame` and any other receive error `Rejected`. A received frame
/// (the first `n` bytes of the buffer, or the whole buffer if `n` is larger)
/// of at least 24 bytes whose EtherType bytes are not 0x88, 0xB6 gives
/// `NoFrame`. It is `Processed` exactly when it is at least 24 bytes long,
/// carries the protocol's EtherType, announces at most `MAX_PAYLOAD` payload
/// bytes (bytes 18-19), holds them all, and their sum is the checksum in
/// bytes 20-23; the outcome then reports the message type (byte 15), the
/// sequence number (bytes 16-17) and the payload length. Every other frame
/// gives `Rejected`.
pub proof fn lemma_poll_verdict_by_bytes(rx: Result<usize, EthError>, buf: Seq<u8>)
    ensures
        rx == Err::<usize, EthError>(EthError::RxEmpty) ==> poll_verdict(rx, buf) == PollResult::NoFrame,
        rx is Err && rx != Err::<usize, EthError>(EthError::RxEmpty) ==> poll_verdict(rx, buf)
            == PollResult::Rejected,
        rx matches Ok(n) ==> {
            let f = if n <= buf.len() {
                buf.take(n as int)
            } else {
                buf
            };
            let r = poll_verdict(rx, buf);
            let long_enough = f.len() >= 24;
            let ours = f[12] == 0x88u8 && f[13] == 0xB6u8;
            let len = f[18] * 256 + f[19];
            let cs = f[20] * 0x100_0000 + f[21] * 0x1_0000 + f[22] * 0x100 + f[23];
            let accepted = long_enough && ours && len <= MAX_PAYLOAD && f.len() >= 24 + len
                && byte_sum(f.subrange(24, 24 + len)) == cs;
            &&& (r is NoFrame <==> long_enough && !ours)
            &&& (r is Processed <==> accepted)
            &&& (r is Rejected <==> !accepted && !(long_enough && !ours))
            &&& (accepted ==> r == PollResult::Processed {
                msg_type: f[15],
                seq: (f[16] * 256 + f[17]) as u16,
                payload_len: len as u16,
            })
        },
{
    if let Ok(n) = rx {
        let f = received_bytes(n, buf);
        lemma_frame_check_by_bytes(f, MAX_PAYLOAD as nat);
    }
}

/// A poll sends at most one frame, and only for a processed DATA frame: the
/// ACK, addressed (bytes 0-5) to the received frame's source (its bytes
/// 6-11), from the polling station's MAC address, with message type ACK and
/// the received sequence number.
pub proof fn lemma_poll_reply_addressing(r: PollResult, buf: Seq<u8>, mac: Seq<u8>)
    requires
        buf.len() >= 12,
        mac.len() == ETH_ALEN,
    ensures
        poll_replies(r, buf, mac).len() <= 1,
        poll_replies(r, buf, mac).len() == 1 <==> (r matches PollResult::Processed { msg_type, .. }
            && msg_type == 1),
        r matches PollResult::Processed { msg_type, seq, .. } ==> msg_type == 1 ==> {
            let ack = poll_replies(r, buf, mac)[0];
            &&& ack.subrange(0, 6) == buf.subrange(6, 12)
            &&& ack.subrange(6, 12) == mac
            &&& ack[12] == 0x88u8 && ack[13] == 0xB6u8
            &&& ack[15] == 2
            &&& ack[16] * 256 + ack[17] == seq
        },
{
    if let PollResult::Processed { msg_type, seq, .. } = r {
        if msg_type == 1 {
            let ack = ack_frame(buf.subrange(6, 12), mac, seq);
            assert(ack.subrange(0, 6) =~= buf.subrange(6, 12));
            assert(ack.subrange(6, 12) =~= mac);
            lemma_ack_frame_accepted(buf.subrange(6, 12), mac, seq, MAX_PAYLOAD as nat);
            lemma_frame_check_by_bytes(ack, MAX_PAYLOAD as nat);
        }
    }
}

} // verus!
