//! Building and transmitting DATA frames through an Ethernet driver.

use vstd::prelude::*;
use crate::eth_driver::{EthError, EthernetMac};
use crate::frame::{data_frame, make_data_header, write_frame};
use crate::protocol::{MAX_FRAME_SIZE, MAX_PAYLOAD};

verus! {

/// Send a DATA frame to `dest_mac` carrying `payload` with sequence number
/// `seq`, from the driver's own MAC address. A payload longer than
/// `MAX_PAYLOAD` is refused with `EthError::BufferTooSmall` and nothing is
/// sent; otherwise the frame goes to the driver's `send`, whose answer is
/// returned.
pub fn send_data<E: EthernetMac>(
    eth: &mut E,
    dest_mac: &[u8; 6],
    payload: &[u8],
    seq: u16,
) -> (r: Result<usize, EthError>)
    ensures
        payload.len() > MAX_PAYLOAD ==> r == Err::<usize, EthError>(EthError::BufferTooSmall)
            && *final(eth) == *old(eth),
        payload.len() <= MAX_PAYLOAD ==> {
            let frame = data_frame(dest_mac@, old(eth).mac_view(), payload@, seq);
            &&& (r, final(eth).model()) == E::send_outcome(old(eth).model(), frame)
            &&& final(eth).sent_frames() == old(eth).sent_frames().push(frame)
        },
        final(eth).mac_view() == old(eth).mac_view(),
{
    if payload.len() > MAX_PAYLOAD {
        return Err(EthError::BufferTooSmall);
    }
    let my_mac = eth.mac_address();
    let header = make_data_header(payload, seq);
    let mut frame = [0u8; MAX_FRAME_SIZE];
    let frame_len = write_frame(&mut frame, dest_mac, &my_mac, &header, payload);
    eth.send(&frame[0..frame_len])
}

} // verus!
