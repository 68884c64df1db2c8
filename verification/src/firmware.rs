//! The firmware's own behaviour on top of the sender and the receiver: an
//! opening DATA frame, then one follow-up DATA frame, with the next sequence
//! number, for every frame processed.

use vstd::prelude::*;
use crate::eth_driver::{EthError, EthernetMac};
use crate::frame::data_frame;
use crate::receiver::{poll, poll_effect, PollResult};
use crate::sender::send_data;

verus! {

/// The payload of the firmware's opening DATA frame: "hello from embedded".
pub open spec fn greeting() -> Seq<u8> {
    seq![104u8, 101, 108, 108, 111, 32, 102, 114, 111, 109, 32, 101, 109, 98, 101, 100, 100, 101, 100]
}

/// The payload of the DATA frame that follows every processed frame:
/// "got your frame".
pub open spec fn follow_up() -> Seq<u8> {
    seq![103u8, 111, 116, 32, 121, 111, 117, 114, 32, 102, 114, 97, 109, 101]
}

/// The sequence number after `seq`, wrapping to 0 after the largest.
pub open spec fn next_seq(seq: u16) -> u16 {
    if seq == u16::MAX {
        0
    } else {
        (seq + 1) as u16
    }
}

/// The next sequence number is one more, modulo 2^16: every number has a
/// successor, and no two numbers share one.
pub proof fn lemma_next_seq(s: u16, t: u16)
    ensures
        next_seq(s) as int == (s as int + 1) % 65536,
        next_seq(s) == next_seq(t) ==> s == t,
{
}

/// The sequence number of the firmware's opening frame.
pub const FIRST_SEQ: u16 = 1;

/// Send the opening DATA frame, "hello from embedded", to `peer` with
/// sequence number `FIRST_SEQ`, and return the driver's answer.
pub fn firmware_start<E: EthernetMac>(eth: &mut E, peer: &[u8; 6]) -> (r: Result<usize, EthError>)
    ensures
        ({
            let frame = data_frame(peer@, old(eth).mac_view(), greeting(), FIRST_SEQ);
            &&& (r, final(eth).model()) == E::send_outcome(old(eth).model(), frame)
            &&& final(eth).sent_frames() == old(eth).sent_frames().push(frame)
        }),
        final(eth).mac_view() == old(eth).mac_view(),
{
    let message: [u8; 19] = [104, 101, 108, 108, 111, 32, 102, 114, 111, 109, 32, 101, 109, 98, 101, 100, 100, 101, 100];
    assert(message@ =~= greeting());
    send_data(eth, peer, message.as_slice(), FIRST_SEQ)
}

/// One turn of the firmware's main loop: poll once; when a frame was
/// processed, send "got your frame" to `peer` with the next sequence number.
/// Returns the poll's outcome and the sequence number now in use.
pub fn firmware_step<E: EthernetMac>(eth: &mut E, peer: &[u8; 6], seq: u16) -> (r: (PollResult, u16))
    ensures
        ({
            let mac = old(eth).mac_view();
            let (outcome, replies, after_poll) = poll_effect::<E>(old(eth).model(), mac);
            &&& r.0 == outcome
            &&& if outcome is Processed {
                let follow = data_frame(peer@, mac, follow_up(), next_seq(seq));
                &&& r.1 == next_seq(seq)
                &&& final(eth).sent_frames() == old(eth).sent_frames() + replies + seq![follow]
                &&& final(eth).model() == E::send_outcome(after_poll, follow).1
            } else {
                &&& r.1 == seq
                &&& final(eth).sent_frames() == old(eth).sent_frames() + replies
                &&& final(eth).model() == after_poll
            }
        }),
        final(eth).mac_view() == old(eth).mac_view(),
{
    let ghost start_sent = eth.sent_frames();
    let result = poll(eth);
    let ghost after_poll_sent = eth.sent_frames();
    match result {
        PollResult::Processed { .. } => {
            let next = seq.wrapping_add(1);
            assert(next == next_seq(seq));
            let reply: [u8; 14] = [103, 111, 116, 32, 121, 111, 117, 114, 32, 102, 114, 97, 109, 101];
            assert(reply@ =~= follow_up());
            let _ = send_data(eth, peer, reply.as_slice(), next);
            assert(eth.sent_frames() =~= after_poll_sent.push(data_frame(peer@, old(eth).mac_view(), follow_up(), next)));
            (result, next)
        },
        _ => (result, seq),
    }
}

} // verus!
