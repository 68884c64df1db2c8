//! Protocol constants, message types, the wire header and its checksum.

use vstd::prelude::*;

verus! {

/// Custom EtherType, not registered with IEEE.
pub const CUSTOM_ETHERTYPE: u16 = 0x88B6;

/// Ethernet header length: 6 (dst MAC) + 6 (src MAC) + 2 (EtherType).
pub const ETH_HLEN: usize = 14;

/// Ethernet MAC address length in bytes.
pub const ETH_ALEN: usize = 6;

/// Wire size of the custom header: 1 + 1 + 2 + 2 + 4 bytes.
pub const HEADER_SIZE: usize = 10;

/// Maximum application payload of the firmware, in bytes.
pub const MAX_PAYLOAD: usize = 256;

/// Maximum application payload of the Linux sender and receiver, in bytes.
pub const LINUX_MAX_PAYLOAD: usize = 1024;

/// Maximum total frame size of the firmware: Ethernet header + custom header
/// + maximum payload.
pub const MAX_FRAME_SIZE: usize = ETH_HLEN + HEADER_SIZE + MAX_PAYLOAD;

/// The kinds of message the protocol carries.
#[derive(Debug, Clone, Copy, PartialEq, Eq, Structural)]
pub enum MsgType {
    Data,
    Ack,
    Ping,
}

/// The wire code of each message type.
pub open spec fn msg_type_code(t: MsgType) -> u8 {
    match t {
        MsgType::Data => 0x01,
        MsgType::Ack => 0x02,
        MsgType::Ping => 0x03,
    }
}

/// The message type that a wire code stands for, if any.
pub open spec fn msg_type_of(v: u8) -> Option<MsgType> {
    if v == 0x01 {
        Some(MsgType::Data)
    } else if v == 0x02 {
        Some(MsgType::Ack)
    } else if v == 0x03 {
        Some(MsgType::Ping)
    } else {
        None
    }
}

impl MsgType {
    /// Convert a raw byte into a message type, or `None` if unrecognised.
    pub fn from_u8(v: u8) -> (r: Option<MsgType>)
        ensures
            r == msg_type_of(v),
    {
        match v {
            0x01 => Some(MsgType::Data),
            0x02 => Some(MsgType::Ack),
            0x03 => Some(MsgType::Ping),
            _ => None,
        }
    }

    /// The byte that stands for this message type on the wire.
    pub fn as_u8(self) -> (r: u8)
        ensures
            r == msg_type_code(self),
    {
        match self {
            MsgType::Data => 0x01,
            MsgType::Ack => 0x02,
            MsgType::Ping => 0x03,
        }
    }
}

/// The decoded custom header, fields in host byte order.
#[derive(Debug, Clone, Copy, PartialEq, Eq, Structural)]
pub struct CustomHeader {
    pub version: u8,
    pub msg_type: u8,
    pub seq: u16,
    pub payload_len: u16,
    pub checksum: u32,
}

/// Big-endian value of two bytes.
pub open spec fn be16(b0: u8, b1: u8) -> int {
    b0 * 0x100 + b1
}

/// Big-endian value of four bytes.
pub open spec fn be32(b0: u8, b1: u8, b2: u8, b3: u8) -> int {
    b0 * 0x100_0000 + b1 * 0x1_0000 + b2 * 0x100 + b3
}

/// The header whose wire form starts `b` (`b` holds at least the header size).
pub open spec fn header_of(b: Seq<u8>) -> CustomHeader {
    CustomHeader {
        version: b[0],
        msg_type: b[1],
        seq: be16(b[2], b[3]) as u16,
        payload_len: be16(b[4], b[5]) as u16,
        checksum: be32(b[6], b[7], b[8], b[9]) as u32,
    }
}

/// What `from_bytes` gives for a byte sequence.
pub open spec fn parse_header(b: Seq<u8>) -> Option<CustomHeader> {
    if b.len() < HEADER_SIZE {
        None
    } else {
        Some(header_of(b))
    }
}

/// The wire form of a header: each field in network (big-endian) byte order.
pub open spec fn header_bytes(h: CustomHeader) -> Seq<u8> {
    seq![
        h.version,
        h.msg_type,
        (h.seq / 0x100) as u8,
        (h.seq % 0x100) as u8,
        (h.payload_len / 0x100) as u8,
        (h.payload_len % 0x100) as u8,
        (h.checksum / 0x100_0000) as u8,
        (h.checksum / 0x1_0000 % 0x100) as u8,
        (h.checksum / 0x100 % 0x100) as u8,
        (h.checksum % 0x100) as u8,
    ]
}

impl CustomHeader {
    /// Wire size: 1 + 1 + 2 + 2 + 4 = 10 bytes.
    pub const SIZE: usize = HEADER_SIZE;

    /// Deserialise from a network-byte-order (big-endian) byte slice; `None`
    /// if the slice is shorter than the header.
    pub fn from_bytes(bytes: &[u8]) -> (r: Option<CustomHeader>)
        ensures
            r == parse_header(bytes@),
    {
        if bytes.len() < HEADER_SIZE {
            return None;
        }
        let seq: u16 = (bytes[2] as u16) * 0x100 + bytes[3] as u16;
        let payload_len: u16 = (bytes[4] as u16) * 0x100 + bytes[5] as u16;
        let checksum: u32 = (bytes[6] as u32) * 0x100_0000 + (bytes[7] as u32) * 0x1_0000
            + (bytes[8] as u32) * 0x100 + bytes[9] as u32;
        Some(CustomHeader { version: bytes[0], msg_type: bytes[1], seq, payload_len, checksum })
    }

    /// Serialise to network-byte-order bytes, ready to copy into a frame.
    pub fn to_bytes(&self) -> (r: [u8; 10])
        ensures
            r@ == header_bytes(*self),
    {
        [
            self.version,
            self.msg_type,
            (self.seq / 0x100) as u8,
            (self.seq % 0x100) as u8,
            (self.payload_len / 0x100) as u8,
            (self.payload_len % 0x100) as u8,
            (self.checksum / 0x100_0000) as u8,
            (self.checksum / 0x1_0000 % 0x100) as u8,
            (self.checksum / 0x100 % 0x100) as u8,
            (self.checksum % 0x100) as u8,
        ]
    }
}

/// The sum of all bytes of `s`, as a mathematical integer.
pub open spec fn byte_sum(s: Seq<u8>) -> nat
    decreases s.len(),
{
    if s.len() == 0 {
        0
    } else {
        byte_sum(s.drop_last()) + s.last() as nat
    }
}

/// The sum of a byte sequence is at most 255 for each byte.
pub proof fn lemma_byte_sum_bound(s: Seq<u8>)
    ensures
        byte_sum(s) <= 255 * s.len(),
    decreases s.len(),
{
    if s.len() > 0 {
        lemma_byte_sum_bound(s.drop_last());
    }
}

/// Simple additive checksum: the sum of all bytes. The sum must fit in a
/// `u32`, as it does for any slice of at most `u32::MAX / 255` bytes.
pub fn compute_checksum(data: &[u8]) -> (r: u32)
    requires
        data.len() <= u32::MAX / 255 || byte_sum(data@) <= u32::MAX,
    ensures
        r == byte_sum(data@),
{
    proof { lemma_byte_sum_bound(data@); }
    let mut sum: u32 = 0;
    let mut i: usize = 0;
    while i < data.len()
        invariant
            i <= data.len(),
            byte_sum(data@) <= u32::MAX,
            sum == byte_sum(data@.take(i as int)),
        decreases data.len() - i,
    {
        assert(data@.take(i + 1).drop_last() =~= data@.take(i as int));
        proof { lemma_byte_sum_prefix(data@, i + 1); }
        sum = sum + data[i] as u32;
        i = i + 1;
    }
    assert(data@.take(i as int) =~= data@);
    sum
}

/// The sum of a prefix is at most the sum of the whole.
pub proof fn lemma_byte_sum_prefix(s: Seq<u8>, k: int)
    requires
        0 <= k <= s.len(),
    ensures
        byte_sum(s.take(k)) <= byte_sum(s),
    decreases s.len() - k,
{
    if k < s.len() {
        lemma_byte_sum_prefix(s, k + 1);
        assert(s.take(k + 1).drop_last() =~= s.take(k));
    } else {
        assert(s.take(k) =~= s);
    }
}

/// Decoding the wire form of any header gives that header back.
pub proof fn lemma_header_roundtrip(h: CustomHeader)
    ensures
        parse_header(header_bytes(h)) == Some(h),
{
    let b = header_bytes(h);
    assert(be16(b[2], b[3]) == h.seq as int);
    assert(be16(b[4], b[5]) == h.payload_len as int);
    assert(be32(b[6], b[7], b[8], b[9]) == h.checksum as int);
}

/// Two bytes read big-endian split back into those bytes.
pub proof fn lemma_be16_split(b0: int, b1: int)
    requires
        0 <= b0 < 0x100,
        0 <= b1 < 0x100,
    ensures
        (b0 * 0x100 + b1) / 0x100 == b0,
        (b0 * 0x100 + b1) % 0x100 == b1,
{
    assert((b0 * 0x100 + b1) / 0x100 == b0) by (nonlinear_arith)
        requires 0 <= b0 < 0x100, 0 <= b1 < 0x100;
    assert((b0 * 0x100 + b1) % 0x100 == b1) by (nonlinear_arith)
        requires 0 <= b0 < 0x100, 0 <= b1 < 0x100;
}

/// Four bytes read big-endian split back into those bytes.
pub proof fn lemma_be32_split(b0: int, b1: int, b2: int, b3: int)
    requires
        0 <= b0 < 0x100,
        0 <= b1 < 0x100,
        0 <= b2 < 0x100,
        0 <= b3 < 0x100,
    ensures
        ({
            let x = b0 * 0x100_0000 + b1 * 0x1_0000 + b2 * 0x100 + b3;
            &&& x / 0x100_0000 == b0
            &&& x / 0x1_0000 % 0x100 == b1
            &&& x / 0x100 % 0x100 == b2
            &&& x % 0x100 == b3
        }),
{
    let y = b0 * 0x100 + b1;
    let z = y * 0x100 + b2;
    let x = z * 0x100 + b3;
    assert(x == b0 * 0x100_0000 + b1 * 0x1_0000 + b2 * 0x100 + b3);
    lemma_be16_split(b0, b1);
    assert(0 <= y < 0x1_0000);
    assert(x / 0x100 == z && x % 0x100 == b3) by (nonlinear_arith)
        requires x == z * 0x100 + b3, 0 <= b3 < 0x100, z >= 0;
    assert(z / 0x100 == y && z % 0x100 == b2) by (nonlinear_arith)
        requires z == y * 0x100 + b2, 0 <= b2 < 0x100, y >= 0;
    assert(x / 0x1_0000 == y) by (nonlinear_arith)
        requires x == (y * 0x100 + b2) * 0x100 + b3, 0 <= b2 < 0x100, 0 <= b3 < 0x100, y >= 0;
    assert(x / 0x100_0000 == b0) by (nonlinear_arith)
        requires x == ((b0 * 0x100 + b1) * 0x100 + b2) * 0x100 + b3, 0 <= b1 < 0x100,
            0 <= b2 < 0x100, 0 <= b3 < 0x100, b0 >= 0;
}

/// Encoding a decoded header gives back the header's bytes it was read from.
pub proof fn lemma_header_bytes_roundtrip(b: Seq<u8>)
    requires
        b.len() >= HEADER_SIZE,
    ensures
        parse_header(b) == Some(header_of(b)),
        header_bytes(header_of(b)) == b.take(HEADER_SIZE as int),
{
    let h = header_of(b);
    lemma_be16_split(b[2] as int, b[3] as int);
    lemma_be16_split(b[4] as int, b[5] as int);
    lemma_be32_split(b[6] as int, b[7] as int, b[8] as int, b[9] as int);
    assert(header_bytes(h) =~= b.take(HEADER_SIZE as int));
}

/// Every message type is recognised from its own wire code, and a recognised
/// wire code is the code of the type it gives.
pub proof fn lemma_msg_type_roundtrip(t: MsgType, v: u8)
    ensures
        msg_type_of(msg_type_code(t)) == Some(t),
        msg_type_of(v) == Some(t) ==> msg_type_code(t) == v,
{
}

/// The checksum of two pieces laid end to end is the sum of their checksums.
pub proof fn lemma_byte_sum_concat(a: Seq<u8>, b: Seq<u8>)
    ensures
        byte_sum(a + b) == byte_sum(a) + byte_sum(b),
    decreases b.len(),
{
    if b.len() == 0 {
        assert(a + b =~= a);
    } else {
        lemma_byte_sum_concat(a, b.drop_last());
        assert((a + b).drop_last() =~= a + b.drop_last());
    }
}

/// Taking one byte out of a sequence takes its value off the sum.
pub proof fn lemma_byte_sum_remove(s: Seq<u8>, i: int)
    requires
        0 <= i < s.len(),
    ensures
        byte_sum(s) == byte_sum(s.remove(i)) + s[i],
{
    let a = s.take(i);
    let b = s.skip(i + 1);
    assert(s =~= a + seq![s[i]] + b);
    assert(s.remove(i) =~= a + b);
    lemma_byte_sum_concat(a + seq![s[i]], b);
    lemma_byte_sum_concat(a, seq![s[i]]);
    lemma_byte_sum_concat(a, b);
    assert(seq![s[i]].drop_last() =~= Seq::<u8>::empty());
    assert(byte_sum(seq![s[i]]) == s[i] as nat) by {
        reveal_with_fuel(byte_sum, 2);
    }
    assert(byte_sum(s) == byte_sum(a + seq![s[i]]) + byte_sum(b));
}

/// The checksum does not depend on the order of the bytes: two sequences
/// holding the same bytes, each as many times, have the same sum.
pub proof fn lemma_byte_sum_permutation(s: Seq<u8>, t: Seq<u8>)
    requires
        s.to_multiset() == t.to_multiset(),
    ensures
        byte_sum(s) == byte_sum(t),
    decreases s.len(),
{
    broadcast use vstd::seq_lib::group_to_multiset_ensures, vstd::multiset::group_multiset_axioms;

    if s.len() == 0 {
        assert(t.to_multiset().len() == 0);
        assert(t =~= Seq::<u8>::empty());
    } else {
        let x = s.last();
        let rest = s.drop_last();
        assert(s =~= rest.push(x));
        assert(s.contains(x)) by {
            assert(s[s.len() - 1] == x);
        }
        assert(s.to_multiset().count(x) > 0);
        assert(t.to_multiset().count(x) > 0);
        assert(t.contains(x));
        let i = choose|i: int| 0 <= i < t.len() && t[i] == x;
        let t2 = t.remove(i);
        assert(t2.to_multiset() == t.to_multiset().remove(x));
        assert(rest.push(x).to_multiset() == rest.to_multiset().insert(x));
        assert(t2.to_multiset() =~= rest.to_multiset());
        lemma_byte_sum_permutation(rest, t2);
        lemma_byte_sum_remove(t, i);
    }
}

/// The header's wire layout: 10 bytes, version then message type, then the
/// sequence number, the payload length and the checksum, each most
/// significant byte first; and reading bytes back takes each field from the
/// same places (`None` for fewer than 10 bytes).
pub proof fn lemma_header_wire_layout(h: CustomHeader, b: Seq<u8>)
    ensures
        ({
            let w = header_bytes(h);
            &&& w.len() == 10
            &&& w[0] == h.version
            &&& w[1] == h.msg_type
            &&& w[2] * 256 + w[3] == h.seq
            &&& w[4] * 256 + w[5] == h.payload_len
            &&& w[6] * 0x100_0000 + w[7] * 0x1_0000 + w[8] * 0x100 + w[9] == h.checksum
        }),
        b.len() < 10 ==> parse_header(b) is None,
        b.len() >= 10 ==> (parse_header(b) matches Some(g) && {
            &&& g.version == b[0]
            &&& g.msg_type == b[1]
            &&& g.seq == b[2] * 256 + b[3]
            &&& g.payload_len == b[4] * 256 + b[5]
            &&& g.checksum == b[6] * 0x100_0000 + b[7] * 0x1_0000 + b[8] * 0x100 + b[9]
        }),
{
    let w = header_bytes(h);
    assert(w[2] * 256 + w[3] == h.seq) by (nonlinear_arith)
        requires w[2] == (h.seq / 0x100) as u8, w[3] == (h.seq % 0x100) as u8;
    assert(w[4] * 256 + w[5] == h.payload_len) by (nonlinear_arith)
        requires w[4] == (h.payload_len / 0x100) as u8, w[5] == (h.payload_len % 0x100) as u8;
    assert(w[6] * 0x100_0000 + w[7] * 0x1_0000 + w[8] * 0x100 + w[9] == h.checksum) by (nonlinear_arith)
        requires
            w[6] == (h.checksum / 0x100_0000) as u8,
            w[7] == (h.checksum / 0x1_0000 % 0x100) as u8,
            w[8] == (h.checksum / 0x100 % 0x100) as u8,
            w[9] == (h.checksum % 0x100) as u8;
}

/// The checksum is fixed by three facts: nothing sums to 0, one byte sums to
/// itself, and pieces laid end to end sum to the sum of their sums.
pub proof fn lemma_byte_sum_basics(x: u8, a: Seq<u8>, b: Seq<u8>)
    ensures
        byte_sum(Seq::<u8>::empty()) == 0,
        byte_sum(seq![x]) == x,
        byte_sum(a + b) == byte_sum(a) + byte_sum(b),
{
    assert(seq![x].drop_last() =~= Seq::<u8>::empty());
    assert(byte_sum(seq![x]) == x) by {
        reveal_with_fuel(byte_sum, 2);
    }
    lemma_byte_sum_concat(a, b);
}

/// The message types' wire codes: DATA is 1, ACK 2, PING 3; exactly these
/// three codes are recognised, each as its own type.
pub proof fn lemma_msg_type_codes(v: u8)
    ensures
        msg_type_code(MsgType::Data) == 1,
        msg_type_code(MsgType::Ack) == 2,
        msg_type_code(MsgType::Ping) == 3,
        msg_type_of(v) is Some <==> 1 <= v <= 3,
        msg_type_of(v) matches Some(t) ==> msg_type_code(t) == v,
{
}

} // verus!
