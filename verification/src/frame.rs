//! Assembly and validation of whole Ethernet frames that carry the custom
//! header: Ethernet header, custom header, payload.

use vstd::prelude::*;
use crate::protocol::{
    be16, byte_sum, header_of, ETH_HLEN, HEADER_SIZE, lemma_header_roundtrip, parse_header, compute_checksum, header_bytes, lemma_byte_sum_bound, msg_type_code, CustomHeader,
    MsgType, CUSTOM_ETHERTYPE, ETH_ALEN, lemma_be16_split, lemma_header_wire_layout,
};

verus! {

/// The EtherType field of a protocol frame, in network byte order.
pub open spec fn ethertype_bytes() -> Seq<u8> {
    seq![0x88u8, 0xB6u8]
}

/// The payload of every ACK frame: the text "Message received".
pub open spec fn ack_payload() -> Seq<u8> {
    seq![77u8, 101, 115, 115, 97, 103, 101, 32, 114, 101, 99, 101, 105, 118, 101, 100]
}

/// A frame on the wire: destination MAC, source MAC, EtherType, custom header
/// and payload, one after the other.
pub open spec fn frame_bytes(dest: Seq<u8>, src: Seq<u8>, h: CustomHeader, payload: Seq<u8>) -> Seq<u8> {
    dest + src + ethertype_bytes() + header_bytes(h) + payload
}

/// The header of a DATA frame with sequence number `seq` carrying `payload`.
pub open spec fn data_header(payload: Seq<u8>, seq: u16) -> CustomHeader {
    CustomHeader {
        version: 1,
        msg_type: msg_type_code(MsgType::Data),
        seq,
        payload_len: payload.len() as u16,
        checksum: byte_sum(payload) as u32,
    }
}

/// The header of the ACK frame that answers sequence number `seq`.
pub open spec fn ack_header(seq: u16) -> CustomHeader {
    CustomHeader {
        version: 1,
        msg_type: msg_type_code(MsgType::Ack),
        seq,
        payload_len: ack_payload().len() as u16,
        checksum: byte_sum(ack_payload()) as u32,
    }
}

/// The DATA frame from `src` to `dest` with sequence number `seq`.
pub open spec fn data_frame(dest: Seq<u8>, src: Seq<u8>, payload: Seq<u8>, seq: u16) -> Seq<u8> {
    frame_bytes(dest, src, data_header(payload, seq), payload)
}

/// The ACK frame from `src` to `dest` that answers sequence number `seq`.
pub open spec fn ack_frame(dest: Seq<u8>, src: Seq<u8>, seq: u16) -> Seq<u8> {
    frame_bytes(dest, src, ack_header(seq), ack_payload())
}

fn push_all(v: &mut Vec<u8>, s: &[u8])
    ensures
        final(v)@ == old(v)@ + s@,
{
    let mut i: usize = 0;
    while i < s.len()
        invariant
            i <= s.len(),
            v@ == old(v)@ + s@.take(i as int),
        decreases s.len() - i,
    {
        v.push(s[i]);
        i = i + 1;
        assert(v@ =~= old(v)@ + s@.take(i as int));
    }
    assert(s@.take(i as int) =~= s@);
}

/// Lay out a frame: destination MAC, source MAC, EtherType, the header in
/// network byte order, then the payload.
pub fn build_frame(dest: &[u8; 6], src: &[u8; 6], header: &CustomHeader, payload: &[u8]) -> (r: Vec<u8>)
    ensures
        r@ == frame_bytes(dest@, src@, *header, payload@),
{
    let mut frame: Vec<u8> = Vec::new();
    push_all(&mut frame, dest.as_slice());
    push_all(&mut frame, src.as_slice());
    frame.push((CUSTOM_ETHERTYPE / 0x100) as u8);
    frame.push((CUSTOM_ETHERTYPE % 0x100) as u8);
    let hb = header.to_bytes();
    push_all(&mut frame, hb.as_slice());
    push_all(&mut frame, payload);
    assert(frame@ =~= frame_bytes(dest@, src@, *header, payload@));
    frame
}

/// The header of the DATA frame carrying `payload` with sequence number
/// `seq`: version 1, the payload's length and its checksum.
pub(crate) fn make_data_header(payload: &[u8], seq: u16) -> (h: CustomHeader)
    requires
        payload.len() <= u16::MAX,
    ensures
        h == data_header(payload@, seq),
{
    proof { lemma_byte_sum_bound(payload@); }
    CustomHeader {
        version: 1,
        msg_type: MsgType::Data.as_u8(),
        seq,
        payload_len: payload.len() as u16,
        checksum: compute_checksum(payload),
    }
}

/// The payload of every ACK frame, "Message received".
pub(crate) fn ack_payload_bytes() -> (r: [u8; 16])
    ensures
        r@ == ack_payload(),
{
    let ack: [u8; 16] = [77, 101, 115, 115, 97, 103, 101, 32, 114, 101, 99, 101, 105, 118, 101, 100];
    assert(ack@ =~= ack_payload());
    ack
}

/// The header of the ACK frame answering sequence number `seq`.
pub(crate) fn make_ack_header(seq: u16) -> (h: CustomHeader)
    ensures
        h == ack_header(seq),
{
    let ack = ack_payload_bytes();
    proof { lemma_byte_sum_bound(ack@); }
    CustomHeader {
        version: 1,
        msg_type: MsgType::Ack.as_u8(),
        seq,
        payload_len: 16,
        checksum: compute_checksum(ack.as_slice()),
    }
}

/// Build the DATA frame from `src` to `dest` with sequence number `seq`:
/// version 1, the payload's length and its checksum in the header.
pub fn build_data_frame(dest: &[u8; 6], src: &[u8; 6], payload: &[u8], seq: u16) -> (r: Vec<u8>)
    requires
        payload.len() <= u16::MAX,
    ensures
        r@ == data_frame(dest@, src@, payload@, seq),
{
    let header = make_data_header(payload, seq);
    build_frame(dest, src, &header, payload)
}

/// Build the ACK frame from `src` to `dest` that answers sequence number
/// `seq`; its payload is the text "Message received".
pub fn build_ack_frame(dest: &[u8; 6], src: &[u8; 6], seq: u16) -> (r: Vec<u8>)
    ensures
        r@ == ack_frame(dest@, src@, seq),
{
    let header = make_ack_header(seq);
    let ack = ack_payload_bytes();
    build_frame(dest, src, &header, ack.as_slice())
}

/// Copy `src` into `buf` from position `at` on, leaving the rest of `buf`.
fn copy_into(buf: &mut [u8], at: usize, src: &[u8])
    requires
        at + src.len() <= old(buf).len(),
    ensures
        final(buf)@ == old(buf)@.take(at as int) + src@ + old(buf)@.skip(at + src.len()),
{
    let mut i: usize = 0;
    while i < src.len()
        invariant
            i <= src.len(),
            at + src.len() <= buf.len(),
            buf@.len() == old(buf)@.len(),
            forall|j: int| 0 <= j < at ==> buf@[j] == old(buf)@[j],
            forall|j: int| 0 <= j < i ==> buf@[at + j] == src@[j],
            forall|j: int| at + i <= j < buf@.len() ==> buf@[j] == old(buf)@[j],
        decreases src.len() - i,
    {
        buf[at + i] = src[i];
        i = i + 1;
    }
    assert(buf@ =~= old(buf)@.take(at as int) + src@ + old(buf)@.skip(at + src.len()));
}

/// Lay out a frame, as `build_frame` does, at the start of a caller's buffer
/// (a fixed buffer on the stack needs no heap). Returns the frame's length;
/// the rest of the buffer is left as it was.
pub fn write_frame(buf: &mut [u8], dest: &[u8; 6], src: &[u8; 6], header: &CustomHeader, payload: &[u8]) -> (n: usize)
    requires
        ETH_HLEN + HEADER_SIZE + payload.len() <= old(buf).len(),
    ensures
        n == ETH_HLEN + HEADER_SIZE + payload.len(),
        final(buf)@.take(n as int) == frame_bytes(dest@, src@, *header, payload@),
        final(buf)@.skip(n as int) == old(buf)@.skip(n as int),
        final(buf)@.len() == old(buf)@.len(),
{
    let et: [u8; 2] = [(CUSTOM_ETHERTYPE / 0x100) as u8, (CUSTOM_ETHERTYPE % 0x100) as u8];
    let hb = header.to_bytes();
    copy_into(buf, 0, dest.as_slice());
    copy_into(buf, 6, src.as_slice());
    copy_into(buf, 12, et.as_slice());
    copy_into(buf, ETH_HLEN, hb.as_slice());
    copy_into(buf, ETH_HLEN + HEADER_SIZE, payload);
    let n = ETH_HLEN + HEADER_SIZE + payload.len();
    assert(et@ =~= ethertype_bytes());
    assert(buf@.take(n as int) =~= frame_bytes(dest@, src@, *header, payload@));
    assert(buf@.skip(n as int) =~= old(buf)@.skip(n as int));
    n
}

/// The verdict on a received frame.
#[derive(Debug, Clone, Copy, PartialEq, Eq, Structural)]
pub enum FrameCheck {
    /// Too short to hold the Ethernet header and the custom header.
    TooShort,
    /// The EtherType is not the protocol's.
    ForeignEtherType,
    /// The header announces more payload than allowed.
    PayloadTooLong { header: CustomHeader },
    /// The frame is shorter than the payload the header announces.
    Truncated { header: CustomHeader },
    /// The payload's checksum is not the one in the header.
    ChecksumMismatch { header: CustomHeader, computed: u32 },
    /// A well-formed frame of the protocol.
    Valid { header: CustomHeader },
}

/// Offset of the payload within a frame.
pub open spec fn payload_start() -> int {
    ETH_HLEN + HEADER_SIZE
}

/// The payload that header `h` announces within frame `f`.
pub open spec fn frame_payload(f: Seq<u8>, h: CustomHeader) -> Seq<u8> {
    f.subrange(payload_start(), payload_start() + h.payload_len)
}

/// The verdict on received frame `f`, with at most `max_payload` payload bytes
/// allowed. The checks run in order: length, EtherType, announced payload
/// length, frame length, checksum.
pub open spec fn frame_check(f: Seq<u8>, max_payload: nat) -> FrameCheck {
    if f.len() < payload_start() {
        FrameCheck::TooShort
    } else if be16(f[12], f[13]) != CUSTOM_ETHERTYPE {
        FrameCheck::ForeignEtherType
    } else {
        let h = header_of(f.skip(ETH_HLEN as int));
        if h.payload_len > max_payload {
            FrameCheck::PayloadTooLong { header: h }
        } else if f.len() < payload_start() + h.payload_len {
            FrameCheck::Truncated { header: h }
        } else if byte_sum(frame_payload(f, h)) != h.checksum {
            FrameCheck::ChecksumMismatch { header: h, computed: byte_sum(frame_payload(f, h)) as u32 }
        } else {
            FrameCheck::Valid { header: h }
        }
    }
}

/// Check a received frame (exactly the received bytes) against the protocol,
/// allowing at most `max_payload` payload bytes.
pub fn check_frame(frame: &[u8], max_payload: usize) -> (r: FrameCheck)
    ensures
        r == frame_check(frame@, max_payload as nat),
{
    if frame.len() < ETH_HLEN + HEADER_SIZE {
        return FrameCheck::TooShort;
    }
    let ethertype: u16 = (frame[12] as u16) * 0x100 + frame[13] as u16;
    if ethertype != CUSTOM_ETHERTYPE {
        return FrameCheck::ForeignEtherType;
    }
    let rest = slice_from(frame, ETH_HLEN);
    let header = match CustomHeader::from_bytes(rest) {
        Some(h) => h,
        // Cannot happen: the frame holds a whole header past the Ethernet header.
        None => { return FrameCheck::TooShort; },
    };
    if header.payload_len as usize > max_payload {
        return FrameCheck::PayloadTooLong { header };
    }
    let start = ETH_HLEN + HEADER_SIZE;
    let total_needed = start + header.payload_len as usize;
    if frame.len() < total_needed {
        return FrameCheck::Truncated { header };
    }
    let payload = slice_range(frame, start, total_needed);
    proof { lemma_byte_sum_bound(payload@); }
    let computed = compute_checksum(payload);
    if computed != header.checksum {
        return FrameCheck::ChecksumMismatch { header, computed };
    }
    FrameCheck::Valid { header }
}

fn slice_from(s: &[u8], start: usize) -> (r: &[u8])
    requires
        start <= s.len(),
    ensures
        r@ == s@.skip(start as int),
{
    let r = &s[start..s.len()];
    assert(r@ =~= s@.skip(start as int));
    r
}

fn slice_range(s: &[u8], start: usize, end: usize) -> (r: &[u8])
    requires
        start <= end <= s.len(),
    ensures
        r@ == s@.subrange(start as int, end as int),
{
    &s[start..end]
}

/// The source MAC address of a frame (bytes 6 to 12).
pub fn source_mac(frame: &[u8]) -> (r: [u8; 6])
    requires
        frame.len() >= 12,
    ensures
        r@ == frame@.subrange(6, 12),
{
    let r = [frame[6], frame[7], frame[8], frame[9], frame[10], frame[11]];
    assert(r@ =~= frame@.subrange(6, 12));
    r
}

/// The sequence number to acknowledge for a received frame with header `h`:
/// only DATA frames are answered, so that ACKs never answer ACKs.
pub open spec fn ack_due(h: CustomHeader) -> Option<u16> {
    if h.msg_type == msg_type_code(MsgType::Data) {
        Some(h.seq)
    } else {
        None
    }
}

/// The sequence number to acknowledge for a frame with this header, if any.
pub fn reply_seq(header: &CustomHeader) -> (r: Option<u16>)
    ensures
        r == ack_due(*header),
{
    if header.msg_type == MsgType::Data.as_u8() {
        Some(header.seq)
    } else {
        None
    }
}

proof fn lemma_frame_fields(dest: Seq<u8>, src: Seq<u8>, h: CustomHeader, payload: Seq<u8>)
    requires
        dest.len() == 6,
        src.len() == 6,
    ensures
        ({
            let f = frame_bytes(dest, src, h, payload);
            &&& f.len() == payload_start() + payload.len()
            &&& f.subrange(6, 12) == src
            &&& f.subrange(0, 6) == dest
            &&& be16(f[12], f[13]) == CUSTOM_ETHERTYPE
            &&& header_of(f.skip(ETH_HLEN as int)) == h
            &&& f.subrange(payload_start(), payload_start() + payload.len()) == payload
        }),
{
    let f = frame_bytes(dest, src, h, payload);
    assert(f.subrange(6, 12) =~= src);
    assert(f.subrange(0, 6) =~= dest);
    assert(f.subrange(payload_start(), payload_start() + payload.len()) =~= payload);
    lemma_header_roundtrip(h);
    let hb = header_bytes(h);
    let rest = f.skip(ETH_HLEN as int);
    assert forall|i: int| 0 <= i < HEADER_SIZE implies rest[i] == hb[i] by {
        assert(rest[i] == f[ETH_HLEN + i]);
    }
    assert(parse_header(hb) == Some(h));
    assert(header_of(rest) == header_of(hb));
}

/// Every DATA frame that the sender builds, with a payload within the allowed
/// length, passes every check of the receiver: it is valid, its header is the
/// one the sender wrote, it names the sender as its source, it carries the
/// sender's payload, and it is due an ACK with the sender's sequence number.
pub proof fn lemma_data_frame_accepted(dest: Seq<u8>, src: Seq<u8>, payload: Seq<u8>, seq: u16, max_payload: nat)
    requires
        dest.len() == ETH_ALEN,
        src.len() == ETH_ALEN,
        payload.len() <= max_payload,
        payload.len() <= u16::MAX,
    ensures
        frame_check(data_frame(dest, src, payload, seq), max_payload)
            == (FrameCheck::Valid { header: data_header(payload, seq) }),
        data_frame(dest, src, payload, seq).subrange(6, 12) == src,
        frame_payload(data_frame(dest, src, payload, seq), data_header(payload, seq)) == payload,
        ack_due(data_header(payload, seq)) == Some(seq),
{
    lemma_byte_sum_bound(payload);
    lemma_frame_fields(dest, src, data_header(payload, seq), payload);
}

/// Every ACK frame that the receiver builds passes every check of a receiver
/// that allows its payload length, names the acknowledging station as its
/// source, echoes the acknowledged sequence number, and is itself never due
/// an ACK.
pub proof fn lemma_ack_frame_accepted(dest: Seq<u8>, src: Seq<u8>, seq: u16, max_payload: nat)
    requires
        dest.len() == ETH_ALEN,
        src.len() == ETH_ALEN,
        ack_payload().len() <= max_payload,
    ensures
        frame_check(ack_frame(dest, src, seq), max_payload)
            == (FrameCheck::Valid { header: ack_header(seq) }),
        ack_frame(dest, src, seq).subrange(6, 12) == src,
        ack_header(seq).seq == seq,
        ack_due(ack_header(seq)) is None,
{
    lemma_byte_sum_bound(ack_payload());
    lemma_frame_fields(dest, src, ack_header(seq), ack_payload());
}

/// The receiver's verdict on any frame, read off the frame's bytes: a frame
/// under 24 bytes is too short; otherwise one whose bytes 12 and 13 are not
/// 0x88, 0xB6 belongs to another protocol; otherwise, with the payload length
/// in bytes 18-19 and the checksum in bytes 20-23 (big-endian), one that
/// announces more than `max_payload` bytes is refused, one shorter than 24
/// bytes plus the announced payload is truncated, one whose payload bytes do
/// not sum to the checksum is corrupt, and the rest are valid. The header
/// reported is the one in bytes 14-23, and a corrupt frame reports its
/// payload's true sum.
pub proof fn lemma_frame_check_by_bytes(f: Seq<u8>, max_payload: nat)
    ensures
        ({
            let r = frame_check(f, max_payload);
            let long_enough = f.len() >= 24;
            let ours = f[12] == 0x88u8 && f[13] == 0xB6u8;
            let len = f[18] * 256 + f[19];
            let cs = f[20] * 0x100_0000 + f[21] * 0x1_0000 + f[22] * 0x100 + f[23];
            let sum = byte_sum(f.subrange(24, 24 + len));
            &&& (r is TooShort <==> !long_enough)
            &&& (r is ForeignEtherType <==> long_enough && !ours)
            &&& (r is PayloadTooLong <==> long_enough && ours && len > max_payload)
            &&& (r is Truncated <==> long_enough && ours && len <= max_payload && f.len() < 24 + len)
            &&& (r is ChecksumMismatch <==> long_enough && ours && len <= max_payload && f.len() >= 24 + len
                && sum != cs)
            &&& (r is Valid <==> long_enough && ours && len <= max_payload && f.len() >= 24 + len && sum
                == cs)
            &&& (long_enough && ours ==> {
                let h = match r {
                    FrameCheck::PayloadTooLong { header } => header,
                    FrameCheck::Truncated { header } => header,
                    FrameCheck::ChecksumMismatch { header, .. } => header,
                    FrameCheck::Valid { header } => header,
                    _ => arbitrary(),
                };
                &&& h.version == f[14]
                &&& h.msg_type == f[15]
                &&& h.seq == f[16] * 256 + f[17]
                &&& h.payload_len == len
                &&& h.checksum == cs
            })
            &&& (r matches FrameCheck::ChecksumMismatch { computed, .. } ==> computed == sum)
        }),
{
    if f.len() >= 24 {
        lemma_be16_split(f[12] as int, f[13] as int);
        let rest = f.skip(ETH_HLEN as int);
        assert(rest[0] == f[14] && rest[1] == f[15] && rest[2] == f[16] && rest[3] == f[17]);
        assert(rest[4] == f[18] && rest[5] == f[19] && rest[6] == f[20] && rest[7] == f[21]);
        assert(rest[8] == f[22] && rest[9] == f[23]);
        let len = f[18] * 256 + f[19];
        assert(0 <= len <= 0xFFFF);
        let sum = byte_sum(f.subrange(24, 24 + len));
        if f.len() >= 24 + len {
            lemma_byte_sum_bound(f.subrange(24, 24 + len));
        }
    }
}

/// The bytes of the frames the library builds: destination MAC (bytes 0-5),
/// source MAC (6-11), EtherType 0x88, 0xB6 (12-13), version 1 (14), the
/// message type (15: 1 for DATA, 2 for ACK), the sequence number (16-17), the
/// payload length (18-19) and the payload's byte sum (20-23), most
/// significant byte first, then the payload; an ACK's payload is the 16 bytes
/// "Message received".
pub proof fn lemma_frame_layout(dest: Seq<u8>, src: Seq<u8>, payload: Seq<u8>, seq: u16)
    requires
        dest.len() == ETH_ALEN,
        src.len() == ETH_ALEN,
        payload.len() <= u16::MAX,
    ensures
        ({
            let f = data_frame(dest, src, payload, seq);
            &&& f.len() == 24 + payload.len()
            &&& f.subrange(0, 6) == dest
            &&& f.subrange(6, 12) == src
            &&& f[12] == 0x88u8 && f[13] == 0xB6u8
            &&& f[14] == 1 && f[15] == 1
            &&& f[16] * 256 + f[17] == seq
            &&& f[18] * 256 + f[19] == payload.len()
            &&& f[20] * 0x100_0000 + f[21] * 0x1_0000 + f[22] * 0x100 + f[23] == byte_sum(payload)
            &&& f.skip(24) == payload
        }),
        ({
            let a = ack_frame(dest, src, seq);
            &&& a.len() == 40
            &&& a.subrange(0, 6) == dest
            &&& a.subrange(6, 12) == src
            &&& a[12] == 0x88u8 && a[13] == 0xB6u8
            &&& a[14] == 1 && a[15] == 2
            &&& a[16] * 256 + a[17] == seq
            &&& a[18] * 256 + a[19] == 16
            &&& a[20] * 0x100_0000 + a[21] * 0x1_0000 + a[22] * 0x100 + a[23] == byte_sum(a.skip(24))
            &&& a.skip(24) == seq![77u8, 101, 115, 115, 97, 103, 101, 32, 114, 101, 99, 101, 105, 118, 101, 100]
        }),
{
    lemma_byte_sum_bound(payload);
    let f = data_frame(dest, src, payload, seq);
    let h = data_header(payload, seq);
    lemma_header_wire_layout(h, Seq::empty());
    let w = header_bytes(h);
    assert forall|i: int| 0 <= i < 10 implies f[14 + i] == w[i] by {}
    assert(f.subrange(0, 6) =~= dest);
    assert(f.subrange(6, 12) =~= src);
    assert(f.skip(24) =~= payload);
    let a = ack_frame(dest, src, seq);
    let ha = ack_header(seq);
    lemma_byte_sum_bound(ack_payload());
    lemma_header_wire_layout(ha, Seq::empty());
    let wa = header_bytes(ha);
    assert forall|i: int| 0 <= i < 10 implies a[14 + i] == wa[i] by {}
    assert(a.subrange(0, 6) =~= dest);
    assert(a.subrange(6, 12) =~= src);
    assert(a.skip(24) =~= ack_payload());
}

/// Only DATA frames (message type 1) are due an ACK, and the ACK echoes the
/// frame's own sequence number.
pub proof fn lemma_ack_due_only_for_data(h: CustomHeader)
    ensures
        ack_due(h) is Some <==> h.msg_type == 1,
        ack_due(h) matches Some(s) ==> s == h.seq,
{
}

} // verus!
