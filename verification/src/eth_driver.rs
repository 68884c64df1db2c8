//! The contract between the protocol logic and any raw Ethernet hardware, and
//! a loopback driver in software that fulfils it.

use vstd::prelude::*;
use crate::protocol::MAX_FRAME_SIZE;

verus! {

/// What can go wrong talking to the Ethernet hardware.
#[derive(Debug, Clone, Copy, PartialEq, Eq, Structural)]
pub enum EthError {
    /// Transmit buffer full: hardware not ready to send.
    TxBusy,
    /// No frame waiting to be received.
    RxEmpty,
    /// The provided buffer is too small for the received frame.
    BufferTooSmall,
    /// Hardware fault (link down, SPI error, and the like).
    HardwareFault,
}

/// What the protocol logic needs from Ethernet hardware. A driver for a
/// specific chip implements it.
///
/// A driver describes its behaviour by a model of its state (`Model`): what a
/// send or a receive returns, and the state it leaves, are functions of the
/// state before the call and of the call's arguments. A driver whose hardware
/// can answer differently keeps what decides the answer in its model.
pub trait EthernetMac {
    /// The driver's state as far as it decides what `send` and `recv` do.
    type Model;

    /// The driver's current state.
    spec fn model(&self) -> Self::Model;

    /// The interface's MAC address.
    spec fn mac_view(&self) -> Seq<u8>;

    /// Every frame handed to `send` so far, oldest first.
    spec fn sent_frames(&self) -> Seq<Seq<u8>>;

    /// What `send` of `frame` returns from state `m`, and the state it leaves.
    spec fn send_outcome(m: Self::Model, frame: Seq<u8>) -> (Result<usize, EthError>, Self::Model);

    /// What `recv` into a buffer holding `buf` returns from state `m`: the
    /// result, the buffer's new contents, and the state it leaves.
    spec fn recv_outcome(m: Self::Model, buf: Seq<u8>) -> (Result<usize, EthError>, Seq<u8>, Self::Model);

    /// Send a raw Ethernet frame (Ethernet header included). Returns the
    /// number of bytes sent, or an error. The frame is recorded as handed to
    /// the hardware whatever the outcome.
    fn send(&mut self, frame: &[u8]) -> (r: Result<usize, EthError>)
        ensures
            (r, final(self).model()) == Self::send_outcome(old(self).model(), frame@),
            final(self).sent_frames() == old(self).sent_frames().push(frame@),
            final(self).mac_view() == old(self).mac_view(),
    ;

    /// If a frame is waiting, copy it into `buf` and return its length;
    /// `Err(EthError::RxEmpty)` when nothing is waiting. Never blocks.
    fn recv(&mut self, buf: &mut [u8]) -> (r: Result<usize, EthError>)
        ensures
            (r, final(buf)@, final(self).model()) == Self::recv_outcome(old(self).model(), old(buf)@),
            final(buf)@.len() == old(buf)@.len(),
            final(self).sent_frames() == old(self).sent_frames(),
            final(self).mac_view() == old(self).mac_view(),
    ;

    /// This interface's MAC address.
    fn mac_address(&self) -> (r: [u8; 6])
        ensures
            r@ == self.mac_view(),
    ;
}

/// How many bytes of a frame of length `n` the loopback driver keeps.
pub open spec fn kept_len(n: nat) -> nat {
    if n < MAX_FRAME_SIZE {
        n
    } else {
        MAX_FRAME_SIZE as nat
    }
}

/// A software Ethernet driver in loopback: a frame sent with `send` (or
/// injected with `inject_frame`) is what the next `recv` returns. It holds
/// one frame at a time, of at most `MAX_FRAME_SIZE` bytes; an empty frame
/// counts as no frame.
pub struct MockEthDriver {
    mac: [u8; 6],
    rx_frame: [u8; MAX_FRAME_SIZE],
    rx_len: usize,
    sent: Ghost<Seq<Seq<u8>>>,
}

impl MockEthDriver {
    #[verifier::type_invariant]
    spec fn well_formed(self) -> bool {
        &&& self.rx_len <= MAX_FRAME_SIZE
    }

    /// The frame waiting to be received; empty when none is.
    pub closed spec fn pending(self) -> Seq<u8> {
        self.rx_frame@.take(self.rx_len as int)
    }

    /// A driver with MAC address `mac`, nothing waiting and nothing sent.
    pub fn new(mac: [u8; 6]) -> (r: MockEthDriver)
        ensures
            r.mac_view() == mac@,
            r.model() == Seq::<u8>::empty(),
            r.sent_frames() == Seq::<Seq<u8>>::empty(),
    {
        let rx_frame = [0u8; MAX_FRAME_SIZE];
        let r = MockEthDriver { mac, rx_frame, rx_len: 0, sent: Ghost(Seq::empty()) };
        assert(r.pending() =~= Seq::<u8>::empty());
        r
    }

    /// Store the first `kept_len` bytes of `frame` as the waiting frame.
    fn store(&mut self, frame: &[u8]) -> (len: usize)
        ensures
            len == kept_len(frame.len() as nat),
            final(self).pending() == frame@.take(len as int),
            final(self).mac == old(self).mac,
            final(self).sent == old(self).sent,
    {
        proof { use_type_invariant(&*self); }
        let len = if frame.len() < MAX_FRAME_SIZE { frame.len() } else { MAX_FRAME_SIZE };
        let mut buf = self.rx_frame;
        let mut i: usize = 0;
        while i < len
            invariant
                i <= len,
                len <= frame.len(),
                len <= MAX_FRAME_SIZE,
                buf@.len() == MAX_FRAME_SIZE,
                forall|j: int| 0 <= j < i ==> buf@[j] == frame@[j],
            decreases len - i,
        {
            buf[i] = frame[i];
            i = i + 1;
        }
        self.rx_frame = buf;
        self.rx_len = len;
        assert(self.pending() =~= frame@.take(len as int));
        len
    }

    /// Inject a frame as if it arrived from the network: its first
    /// `MAX_FRAME_SIZE` bytes become the waiting frame.
    pub fn inject_frame(&mut self, frame: &[u8])
        ensures
            final(self).model() == frame@.take(kept_len(frame.len() as nat) as int),
            final(self).mac_view() == old(self).mac_view(),
            final(self).sent_frames() == old(self).sent_frames(),
    {
        self.store(frame);
    }
}

/// What the loopback driver's `recv` does with waiting frame `pending` and a
/// buffer holding `buf`: `RxEmpty` when nothing waits; `BufferTooSmall`, the
/// frame staying, when the buffer cannot hold it; otherwise the frame's
/// length, the frame copied to the start of the buffer, and nothing left
/// waiting.
pub open spec fn loopback_recv(pending: Seq<u8>, buf: Seq<u8>) -> (Result<usize, EthError>, Seq<u8>, Seq<u8>) {
    if pending.len() == 0 {
        (Err(EthError::RxEmpty), buf, pending)
    } else if buf.len() < pending.len() {
        (Err(EthError::BufferTooSmall), buf, pending)
    } else {
        (Ok(pending.len() as usize), pending + buf.skip(pending.len() as int), Seq::empty())
    }
}

/// What the loopback driver's `send` does with `frame`: its first
/// `MAX_FRAME_SIZE` bytes become the waiting frame, and their number is
/// returned.
pub open spec fn loopback_send(frame: Seq<u8>) -> (Result<usize, EthError>, Seq<u8>) {
    (Ok(kept_len(frame.len()) as usize), frame.take(kept_len(frame.len()) as int))
}

impl EthernetMac for MockEthDriver {
    /// The frame waiting to be received.
    type Model = Seq<u8>;

    open spec fn model(&self) -> Seq<u8> {
        self.pending()
    }

    closed spec fn mac_view(&self) -> Seq<u8> {
        self.mac@
    }

    closed spec fn sent_frames(&self) -> Seq<Seq<u8>> {
        self.sent@
    }

    open spec fn send_outcome(m: Seq<u8>, frame: Seq<u8>) -> (Result<usize, EthError>, Seq<u8>) {
        loopback_send(frame)
    }

    open spec fn recv_outcome(m: Seq<u8>, buf: Seq<u8>) -> (Result<usize, EthError>, Seq<u8>, Seq<u8>) {
        loopback_recv(m, buf)
    }

    fn send(&mut self, frame: &[u8]) -> (r: Result<usize, EthError>) {
        let len = self.store(frame);
        proof {
            use_type_invariant(&*self);
            self.sent@ = self.sent@.push(frame@);
        }
        Ok(len)
    }

    fn recv(&mut self, buf: &mut [u8]) -> (r: Result<usize, EthError>) {
        proof { use_type_invariant(&*self); }
        if self.rx_len == 0 {
            return Err(EthError::RxEmpty);
        }
        if buf.len() < self.rx_len {
            return Err(EthError::BufferTooSmall);
        }
        let len = self.rx_len;
        let mut i: usize = 0;
        while i < len
            invariant
                i <= len,
                len == self.rx_len,
                len <= buf.len(),
                self.rx_frame@.len() == MAX_FRAME_SIZE,
                len <= MAX_FRAME_SIZE,
                buf@.len() == old(buf)@.len(),
                forall|j: int| 0 <= j < i ==> buf@[j] == self.rx_frame@[j],
                forall|j: int| i <= j < buf@.len() ==> buf@[j] == old(buf)@[j],
            decreases len - i,
        {
            buf[i] = self.rx_frame[i];
            i = i + 1;
        }
        self.rx_len = 0;
        assert(buf@ =~= old(self).pending() + old(buf)@.skip(len as int));
        assert(self.pending() =~= Seq::<u8>::empty());
        Ok(len)
    }

    fn mac_address(&self) -> (r: [u8; 6]) {
        self.mac
    }
}

/// The loopback driver's send does not depend on what waits: whatever the
/// state, sending a frame returns `Ok` with the number of bytes kept (all of
/// them, up to `MAX_FRAME_SIZE`) and leaves those bytes waiting, replacing
/// any frame that waited before.
pub proof fn lemma_loopback_send(m: Seq<u8>, f: Seq<u8>)
    ensures
        ({
            let k = if f.len() <= MAX_FRAME_SIZE { f.len() as int } else { MAX_FRAME_SIZE as int };
            <MockEthDriver as EthernetMac>::send_outcome(m, f) == (
                Ok::<usize, EthError>(k as usize),
                f.take(k),
            )
        }),
{
}

/// On the loopback driver, a receive after a send gives back the frame sent:
/// for any earlier state, any frame of 1 to `MAX_FRAME_SIZE` bytes and any
/// buffer that can hold it, the receive returns the frame's length, writes
/// the frame at the start of the buffer (leaving the rest), and leaves
/// nothing waiting, so the receive after it finds nothing.
pub proof fn lemma_loopback_send_then_recv(m: Seq<u8>, f: Seq<u8>, buf: Seq<u8>, buf2: Seq<u8>)
    requires
        0 < f.len() <= MAX_FRAME_SIZE,
        f.len() <= buf.len(),
    ensures
        ({
            let after_send = <MockEthDriver as EthernetMac>::send_outcome(m, f).1;
            let (r, new_buf, after_recv) = <MockEthDriver as EthernetMac>::recv_outcome(after_send, buf);
            &&& r == Ok::<usize, EthError>(f.len() as usize)
            &&& new_buf.take(f.len() as int) == f
            &&& new_buf.skip(f.len() as int) == buf.skip(f.len() as int)
            &&& <MockEthDriver as EthernetMac>::recv_outcome(after_recv, buf2) == (
                Err::<usize, EthError>(EthError::RxEmpty),
                buf2,
                after_recv,
            )
        }),
{
    assert(f.take(f.len() as int) =~= f);
    let p = f;
    assert((p + buf.skip(p.len() as int)).take(p.len() as int) =~= p);
    assert((p + buf.skip(p.len() as int)).skip(p.len() as int) =~= buf.skip(p.len() as int));
}

/// The loopback driver's receive: nothing waiting gives `RxEmpty` and changes
/// nothing; a buffer shorter than the waiting frame gives `BufferTooSmall`
/// and changes nothing; otherwise the waiting frame's length is returned, the
/// frame is written at the start of the buffer (the rest left as it was),
/// and nothing is left waiting.
pub proof fn lemma_loopback_recv(m: Seq<u8>, buf: Seq<u8>)
    ensures
        ({
            let (r, new_buf, after) = <MockEthDriver as EthernetMac>::recv_outcome(m, buf);
            &&& m.len() == 0 ==> r == Err::<usize, EthError>(EthError::RxEmpty) && new_buf == buf && after == m
            &&& 0 < m.len() && buf.len() < m.len() ==> r == Err::<usize, EthError>(EthError::BufferTooSmall)
                && new_buf == buf && after == m
            &&& 0 < m.len() <= buf.len() ==> {
                &&& r == Ok::<usize, EthError>(m.len() as usize)
                &&& new_buf.len() == buf.len()
                &&& new_buf.take(m.len() as int) == m
                &&& new_buf.skip(m.len() as int) == buf.skip(m.len() as int)
                &&& after.len() == 0
            }
        }),
{
    if 0 < m.len() <= buf.len() {
        assert((m + buf.skip(m.len() as int)).take(m.len() as int) =~= m);
        assert((m + buf.skip(m.len() as int)).skip(m.len() as int) =~= buf.skip(m.len() as int));
    }
}

} // verus!
