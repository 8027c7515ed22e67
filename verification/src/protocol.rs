//! The transfer engine: the reusable wire-frame buffer and the sender and
//! receiver state machines, each owning one byte transport for the session.
//!
//! Both contracts are exact against the model in `model`: unless the
//! transport itself fails mid-operation (the `Serial` error, which this layer
//! never retries), every byte written, every byte consumed and every block
//! delivered is pinned down by the incoming byte script.

use vstd::prelude::*;

use crate::checksum::checksum;
use crate::checksum::crc16;
use crate::device::SerialDevice;
use crate::model::ACK;
use crate::model::CANCEL;
use crate::model::CHECKSUM_REQUEST;
use crate::model::END_OF_TRANSMISSION;
use crate::model::END_OF_TRANSMISSION_BLOCK;
use crate::model::Error;
use crate::model::NAK;
use crate::model::START_OF_HEADER;
use crate::model::chunk_at;
use crate::model::chunk_end;
use crate::model::crc_hi;
use crate::model::crc_lo;
use crate::model::frame_bytes;
use crate::model::load_chunk;
use crate::model::frame_ok;
use crate::model::grows_within;
use crate::model::lemma_grows_nothing;
use crate::model::lemma_grows_within;
use crate::model::lemma_prefix_concat;
use crate::model::lemma_prefix_trans;
use crate::model::lemma_recv_attempt_sent_extends;
use crate::model::lemma_recv_attempt_taken_extends;
use crate::model::lemma_recv_model_remaining;
use crate::model::lemma_recv_remaining_in_frame;
use crate::model::lemma_send_attempt_holds_frame;
use crate::model::lemma_send_model_remaining;
use crate::model::lemma_skip_is_suffix;
use crate::model::lemma_suffix_refl;
use crate::model::lemma_suffix_trans;
use crate::model::num_chunks;
use crate::model::recv_attempt_sent;
use crate::model::recv_attempt_taken;
use crate::model::recv_loop_model;
use crate::model::recv_model;
use crate::model::result_matches;
use crate::model::send_attempt;
use crate::model::send_attempt_blocks;
use crate::model::send_blocks_model;
use crate::model::send_model;
use crate::model::wrap_inc;

verus! {

/// The wire frame buffer, fixed at 133 bytes on the wire: type, id,
/// complement of id, 128 data bytes, and a big-endian CRC. One buffer is
/// owned per session and reused across blocks; the data field is not cleared
/// between blocks, so trailing bytes of a short final chunk keep what the
/// previous block left there.
pub struct Packet {
    ty: u8,
    id: u8,
    id_inverted: u8,
    data: Vec<u8>,
    crc_hi: u8,
    crc_lo: u8,
}

impl Packet {
    /// The data field always holds exactly one 128-byte block.
    pub closed spec fn wf(&self) -> bool {
        self.data@.len() == 128
    }

    /// The contents of the 128-byte data field.
    pub closed spec fn block(&self) -> Seq<u8> {
        self.data@
    }

    fn zeroed() -> (r: Packet)
        ensures
            r.wf(),
            r.block() == Seq::new(128, |k: int| 0u8),
    {
        let mut data: Vec<u8> = Vec::new();
        let mut k: usize = 0;
        while k < 128
            invariant
                k <= 128,
                data@ =~= Seq::new(k as nat, |j: int| 0u8),
            decreases 128 - k,
        {
            data.push(0);
            proof {
                assert(data@ =~= Seq::new((k + 1) as nat, |j: int| 0u8));
            }
            k = k + 1;
        }
        Packet { ty: 0, id: 0, id_inverted: 0, data, crc_hi: 0, crc_lo: 0 }
    }
}

/// An observer of transfer progress, told once per acknowledged block. The
/// notification is advisory: it cannot see or touch the session, and the
/// sender's contract is the same whatever the observer does.
pub trait ProgressObserver {
    /// Called after each acknowledged block with how many blocks have been
    /// acknowledged and the session's chunk count. The count follows the
    /// display convention `len / 128 + 1`: one more than the number of blocks
    /// when the data length is an exact multiple of 128, and 1 for empty data.
    fn block_acknowledged(&mut self, completed: usize, total: usize);
}

/// An observer that ignores progress.
pub struct SilentProgress;

impl ProgressObserver for SilentProgress {
    fn block_acknowledged(&mut self, _completed: usize, _total: usize) {
    }
}

/// An observer that keeps every notification, in order.
pub struct ProgressLog {
    entries: Vec<(usize, usize)>,
}

impl ProgressLog {
    /// The notifications seen so far, in order.
    pub closed spec fn seen(&self) -> Seq<(usize, usize)> {
        self.entries@
    }

    /// An empty log.
    pub fn new() -> (r: ProgressLog)
        ensures
            r.seen() == Seq::<(usize, usize)>::empty(),
    {
        ProgressLog { entries: Vec::new() }
    }

    /// The notifications seen so far, in order.
    pub fn entries(&self) -> (r: &Vec<(usize, usize)>)
        ensures
            r@ == self.seen(),
    {
        &self.entries
    }
}

impl ProgressObserver for ProgressLog {
    fn block_acknowledged(&mut self, completed: usize, total: usize) {
        self.entries.push((completed, total));
    }
}

/// The sender state machine: drives one outbound transfer of a byte buffer,
/// chunked into 128-byte blocks, under receiver-driven retry.
pub struct Sender<S: SerialDevice> {
    buffer: Packet,
    device: S,
}

impl<S: SerialDevice> Sender<S> {
    /// The session's packet buffer holds a whole block.
    pub closed spec fn wf(&self) -> bool {
        self.buffer.wf()
    }

    /// The data field of the session's packet buffer.
    pub closed spec fn buf(&self) -> Seq<u8> {
        self.buffer.block()
    }

    /// The bytes the owned transport has yet to deliver.
    pub closed spec fn incoming(&self) -> Seq<u8> {
        self.device.incoming()
    }

    /// The bytes written to the owned transport so far.
    pub closed spec fn sent(&self) -> Seq<u8> {
        self.device.sent()
    }

    /// Whether the owned transport is failure-free.
    pub closed spec fn reliable(&self) -> bool {
        self.device.reliable()
    }

    /// A sender around `device`, with a zeroed packet buffer.
    pub fn new(device: S) -> (r: Self)
        ensures
            r.wf(),
            r.buf() == Seq::new(128, |k: int| 0u8),
            r.incoming() == device.incoming(),
            r.sent() == device.sent(),
            r.reliable() == device.reliable(),
    {
        Sender { buffer: Packet::zeroed(), device }
    }

    /// The owned transport, for inspection once the session is over.
    pub fn device(&self) -> (r: &S)
        ensures
            r.incoming() == self.incoming(),
            r.sent() == self.sent(),
            r.reliable() == self.reliable(),
    {
        &self.device
    }

    /// The wire form of the packet buffer: its fields in frame order.
    spec fn buffer_wire(&self) -> Seq<u8> {
        seq![self.buffer.ty, self.buffer.id, self.buffer.id_inverted] + self.buffer.data@
            + seq![self.buffer.crc_hi, self.buffer.crc_lo]
    }

    /// Writes the packet buffer's 133 bytes to the transport in frame order.
    /// On failure some prefix of the frame is on the wire and nothing more.
    #[verifier::loop_isolation(false)]
    fn write_frame(&mut self) -> (r: Result<(), S::Error>)
        requires
            old(self).wf(),
        ensures
            final(self).wf(),
            final(self).buffer == old(self).buffer,
            final(self).device.incoming() == old(self).device.incoming(),
            final(self).device.reliable() == old(self).device.reliable(),
            match r {
                Ok(_) => final(self).device.sent() == old(self).device.sent()
                    + old(self).buffer_wire(),
                Err(_) => exists|p: Seq<u8>|
                    p.is_prefix_of(old(self).buffer_wire()) && final(self).device.sent() == old(
                        self,
                    ).device.sent() + p,
            },
            old(self).device.reliable() ==> r is Ok,
    {
        let ghost sent0 = self.device.sent();
        let ghost wire = self.buffer_wire();
        match self.device.write(self.buffer.ty) {
            Ok(_) => {},
            Err(e) => {
                proof {
                    let p = Seq::<u8>::empty();
                    assert(p =~= wire.subrange(0, 0));
                    assert(p.is_prefix_of(wire));
                    assert(self.device.sent() =~= sent0 + p);
                    assert(p.is_prefix_of(wire) && self.device.sent() == sent0 + p);
                }
                return Err(e);
            },
        }
        match self.device.write(self.buffer.id) {
            Ok(_) => {},
            Err(e) => {
                proof {
                    let p = wire.subrange(0, 1);
                    assert(p.is_prefix_of(wire)) by {
                        assert(p =~= wire.subrange(0, p.len() as int));
                    }
                    assert(self.device.sent() =~= sent0 + p);
                    assert(p.is_prefix_of(wire) && self.device.sent() == sent0 + p);
                }
                return Err(e);
            },
        }
        match self.device.write(self.buffer.id_inverted) {
            Ok(_) => {},
            Err(e) => {
                proof {
                    let p = wire.subrange(0, 2);
                    assert(p.is_prefix_of(wire)) by {
                        assert(p =~= wire.subrange(0, p.len() as int));
                    }
                    assert(self.device.sent() =~= sent0 + p);
                    assert(p.is_prefix_of(wire) && self.device.sent() == sent0 + p);
                }
                return Err(e);
            },
        }
        let mut j: usize = 0;
        while j < 128
            invariant
                j <= 128,
                self.wf(),
                self.buffer == old(self).buffer,
                self.device.incoming() == old(self).device.incoming(),
                self.device.reliable() == old(self).device.reliable(),
                self.device.sent() == sent0 + wire.subrange(0, 3 + j),
                wire == old(self).buffer_wire(),
            decreases 128 - j,
        {
            let byte = self.buffer.data[j];
            match self.device.write(byte) {
                Ok(_) => {},
                Err(e) => {
                    proof {
                        let p = wire.subrange(0, 3 + j);
                        assert(p.is_prefix_of(wire)) by {
                            assert(p =~= wire.subrange(0, p.len() as int));
                        }
                        assert(p.is_prefix_of(wire) && self.device.sent() == sent0 + p);
                    }
                    return Err(e);
                },
            }
            proof {
                assert((sent0 + wire.subrange(0, 3 + j)).push(byte) =~= sent0 + wire.subrange(
                    0,
                    3 + j + 1,
                ));
            }
            j = j + 1;
        }
        match self.device.write(self.buffer.crc_hi) {
            Ok(_) => {},
            Err(e) => {
                proof {
                    let p = wire.subrange(0, 131);
                    assert(p.is_prefix_of(wire)) by {
                        assert(p =~= wire.subrange(0, p.len() as int));
                    }
                    assert(self.device.sent() =~= sent0 + p);
                    assert(p.is_prefix_of(wire) && self.device.sent() == sent0 + p);
                }
                return Err(e);
            },
        }
        match self.device.write(self.buffer.crc_lo) {
            Ok(_) => {},
            Err(e) => {
                proof {
                    let p = wire.subrange(0, 132);
                    assert(p.is_prefix_of(wire)) by {
                        assert(p =~= wire.subrange(0, p.len() as int));
                    }
                    assert(self.device.sent() =~= sent0 + p);
                    assert(p.is_prefix_of(wire) && self.device.sent() == sent0 + p);
                }
                return Err(e);
            },
        }
        proof {
            assert(self.device.sent() =~= sent0 + wire);
        }
        Ok(())
    }

    /// Sends `data` as consecutive 128-byte blocks (the last one padded with
    /// whatever the buffer held before), each under an incrementing wrapping
    /// sequence number starting at 1, retransmitting a block for every nak
    /// until its ack, and closing with end-of-transmission. Unless the
    /// transport itself fails, the whole exchange — every byte written, every
    /// reply consumed, and the outcome — equals the model's; a failed run
    /// still only ever writes a prefix of the modelled transcript, and on a
    /// reliable transport whose script the model accepts, the transfer cannot
    /// fail with a transport error.
    pub fn send(&mut self, data: &[u8]) -> (r: Result<(), Error<S::Error>>)
        requires
            old(self).wf(),
        ensures
            final(self).wf(),
            final(self).reliable() == old(self).reliable(),
            final(self).incoming().is_suffix_of(old(self).incoming()),
            grows_within(
                old(self).sent(),
                final(self).sent(),
                send_attempt(data@, old(self).buf(), old(self).incoming()),
            ),
            old(self).reliable() && send_model(data@, old(self).buf(), old(self).incoming())
                is Some ==> !(r matches Err(Error::Serial(_))),
            match send_model(data@, old(self).buf(), old(self).incoming()) {
                Some(t) => t.remaining.is_suffix_of(final(self).incoming()),
                None => true,
            },
            (r matches Err(Error::Serial(_))) || (match send_model(
                data@,
                old(self).buf(),
                old(self).incoming(),
            ) {
                Some(t) => {
                    &&& final(self).sent() == old(self).sent() + t.sent
                    &&& final(self).incoming() == t.remaining
                    &&& final(self).buf() == t.buf
                    &&& result_matches(r, t.outcome)
                },
                None => false,
            }),
    {
        let mut silent = SilentProgress;
        self.send_with_progress(data, &mut silent)
    }

    /// As `send`, and additionally tells `observer` about each acknowledged
    /// block. The notification is advisory: the contract is the same whatever
    /// the observer does, and the observer can neither see nor touch the
    /// session.
    #[verifier::loop_isolation(false)]
    pub fn send_with_progress<P: ProgressObserver>(
        &mut self,
        data: &[u8],
        observer: &mut P,
    ) -> (r: Result<(), Error<S::Error>>)
        requires
            old(self).wf(),
        ensures
            final(self).wf(),
            final(self).reliable() == old(self).reliable(),
            final(self).incoming().is_suffix_of(old(self).incoming()),
            grows_within(
                old(self).sent(),
                final(self).sent(),
                send_attempt(data@, old(self).buf(), old(self).incoming()),
            ),
            old(self).reliable() && send_model(data@, old(self).buf(), old(self).incoming())
                is Some ==> !(r matches Err(Error::Serial(_))),
            match send_model(data@, old(self).buf(), old(self).incoming()) {
                Some(t) => t.remaining.is_suffix_of(final(self).incoming()),
                None => true,
            },
            (r matches Err(Error::Serial(_))) || (match send_model(
                data@,
                old(self).buf(),
                old(self).incoming(),
            ) {
                Some(t) => {
                    &&& final(self).sent() == old(self).sent() + t.sent
                    &&& final(self).incoming() == t.remaining
                    &&& final(self).buf() == t.buf
                    &&& result_matches(r, t.outcome)
                },
                None => false,
            }),
    {
        let ghost buf0 = self.buffer.data@;
        let ghost script0 = self.device.incoming();
        let ghost sent0 = self.device.sent();
        let ghost r0 = self.device.reliable();
        let ghost m = send_model(data@, buf0, script0);
        let ghost a = send_attempt(data@, buf0, script0);

        let b = match self.device.read() {
            Ok(b) => b,
            Err(e) => {
                proof {
                    lemma_suffix_refl(script0);
                    lemma_grows_nothing(sent0, a);
                    if m is Some && script0[0] == CHECKSUM_REQUEST {
                        lemma_send_model_remaining(data@, 0, 1, buf0, script0.skip(1), Seq::empty());
                        match send_blocks_model(data@, 0, 1, buf0, script0.skip(1), Seq::empty()) {
                            Some(t) => {
                                lemma_skip_is_suffix(script0, 1);
                                lemma_suffix_trans(t.remaining, script0.skip(1), script0);
                            },
                            None => {},
                        }
                    }
                    if m is Some && script0.len() > 0 && script0[0] != CHECKSUM_REQUEST {
                        lemma_skip_is_suffix(script0, 1);
                    }
                }
                return Err(Error::Serial(e));
            },
        };
        if b != CHECKSUM_REQUEST {
            proof {
                lemma_skip_is_suffix(script0, 1);
                lemma_grows_nothing(sent0, a);
                lemma_suffix_refl(self.device.incoming());
            }
            return Err(Error::BadPacketType(b));
        }

        let mut id: u8 = 1;
        let mut start: usize = 0;
        let n = data.len();
        let total = n / 128 + 1;
        let mut done: usize = 0;
        let ghost mut g_i: nat = 0;
        let ghost mut g_sent: Seq<u8> = Seq::empty();
        proof {
            lemma_skip_is_suffix(script0, 1);
        }

        while start < n
            invariant
                self.wf(),
                g_i <= num_chunks(n as nat),
                g_i < num_chunks(n as nat) ==> start == 128 * g_i,
                g_i >= num_chunks(n as nat) ==> start == n,
                done == g_i,
                self.device.sent() == sent0 + g_sent,
                self.device.reliable() == r0,
                self.device.incoming().is_suffix_of(script0),
                send_blocks_model(
                    data@,
                    g_i,
                    id,
                    self.buffer.data@,
                    self.device.incoming(),
                    g_sent,
                ) == m,
                send_attempt_blocks(
                    data@,
                    g_i,
                    id,
                    self.buffer.data@,
                    self.device.incoming(),
                    g_sent,
                ) == a,
            decreases self.device.incoming().len(),
        {
            proof {
                crate::model::lemma_chunk_index(n as nat, g_i);
            }
            let end = if n - start >= 128 {
                start + 128
            } else {
                n
            };
            let ghost buf_iter = self.buffer.data@;
            let ghost script_iter = self.device.incoming();
            let ghost sent_iter = self.device.sent();

            // load the chunk into the front of the data field
            let mut j: usize = 0;
            while j < end - start
                invariant
                    j <= end - start,
                    self.buffer.data@.len() == 128,
                    self.buffer.data@ == data@.subrange(start as int, start + j) + buf_iter.skip(
                        j as int,
                    ),
                    self.device.incoming() == script_iter,
                    self.device.sent() == sent_iter,
                    self.device.reliable() == r0,
                decreases end - start - j,
            {
                proof {
                    assert(data@.subrange(start as int, start + j).push(data@[start + j])
                        =~= data@.subrange(start as int, start + j + 1));
                    assert(buf_iter.skip(j as int).skip(1) =~= buf_iter.skip(j + 1));
                }
                self.buffer.data[j] = data[start + j];
                proof {
                    assert(self.buffer.data@ =~= data@.subrange(start as int, start + j + 1)
                        + buf_iter.skip(j + 1));
                }
                j = j + 1;
            }
            let ghost buf2 = load_chunk(buf_iter, chunk_at(data@, g_i as int));
            proof {
                assert(chunk_end(n as int, g_i as int) == end);
                assert(chunk_at(data@, g_i as int) == data@.subrange(start as int, end as int));
                assert(self.buffer.data@ =~= buf2);
            }

            // populate the header and checksum fields
            self.buffer.ty = START_OF_HEADER;
            self.buffer.id = id;
            self.buffer.id_inverted = !id;
            let c = checksum(self.buffer.data.as_slice());
            proof {
                assert(c >> 8 < 256) by (bit_vector);
                assert(c & 0xff < 256) by (bit_vector);
            }
            self.buffer.crc_hi = (c >> 8) as u8;
            self.buffer.crc_lo = (c & 0xff) as u8;
            proof {
                assert(self.buffer_wire() =~= frame_bytes(id, buf2));
                lemma_send_attempt_holds_frame(data@, g_i, id, buf_iter, script_iter, g_sent);
            }

            // write the full 133-byte frame
            match self.write_frame() {
                Ok(_) => {},
                Err(e) => {
                    proof {
                        let p = choose|p: Seq<u8>|
                            p.is_prefix_of(frame_bytes(id, buf2)) && self.device.sent() == (sent0
                                + g_sent) + p;
                        lemma_prefix_concat(g_sent, p, frame_bytes(id, buf2));
                        lemma_prefix_trans(g_sent + p, g_sent + frame_bytes(id, buf2), a);
                        lemma_grows_within(sent0, g_sent + p, a);
                        assert(sent0 + (g_sent + p) =~= (sent0 + g_sent) + p);
                        lemma_send_model_remaining(data@, g_i, id, buf_iter, script_iter, g_sent);
                    }
                    return Err(Error::Serial(e));
                },
            }
            proof {
                assert(self.device.sent() =~= sent0 + (g_sent + frame_bytes(id, buf2)));
            }

            // block on the reply
            let rb = match self.device.read() {
                Ok(rb) => rb,
                Err(e) => {
                    proof {
                        lemma_grows_within(sent0, g_sent + frame_bytes(id, buf2), a);
                        lemma_send_model_remaining(data@, g_i, id, buf_iter, script_iter, g_sent);
                        if r0 {
                            assert(script_iter.len() == 0);
                            assert(m is None);
                        }
                    }
                    return Err(Error::Serial(e));
                },
            };
            proof {
                lemma_skip_is_suffix(script_iter, 1);
                lemma_suffix_trans(script_iter.skip(1), script_iter, script0);
            }
            if rb == ACK {
                proof {
                    g_sent = g_sent + frame_bytes(id, buf2);
                    g_i = g_i + 1;
                }
                id = if id == 255 {
                    0
                } else {
                    id + 1
                };
                start = end;
                proof {
                    assert((n - 1) as int / 128 <= n - 1) by (nonlinear_arith)
                        requires
                            n >= 1,
                    ;
                }
                done = done + 1;
                observer.block_acknowledged(done, total);
            } else if rb == NAK {
                proof {
                    g_sent = g_sent + frame_bytes(id, buf2);
                }
            } else if rb == CANCEL {
                proof {
                    assert(self.device.sent() =~= sent0 + (g_sent + frame_bytes(id, buf2)));
                    lemma_grows_within(sent0, g_sent + frame_bytes(id, buf2), a);
                    lemma_suffix_refl(self.device.incoming());
                }
                return Err(Error::Canceled);
            } else {
                proof {
                    lemma_grows_within(sent0, g_sent + frame_bytes(id, buf2), a);
                    lemma_suffix_refl(self.device.incoming());
                }
                return Err(Error::BadPacketType(rb));
            }
        }

        proof {
            if g_i < num_chunks(n as nat) {
                crate::model::lemma_chunk_index(n as nat, g_i);
            }
            assert(g_i >= num_chunks(n as nat));
            assert(a == g_sent.push(END_OF_TRANSMISSION));
            assert(g_sent.is_prefix_of(a)) by {
                assert(g_sent =~= a.subrange(0, g_sent.len() as int));
            }
        }

        // all chunks acknowledged: close the transfer
        match self.device.write(END_OF_TRANSMISSION) {
            Ok(_) => {},
            Err(e) => {
                proof {
                    lemma_grows_within(sent0, g_sent, a);
                    lemma_send_model_remaining(
                        data@,
                        g_i,
                        id,
                        self.buffer.data@,
                        self.device.incoming(),
                        g_sent,
                    );
                }
                return Err(Error::Serial(e));
            },
        }
        proof {
            assert(self.device.sent() =~= sent0 + g_sent.push(END_OF_TRANSMISSION));
            assert(a.is_prefix_of(a)) by {
                assert(a =~= a.subrange(0, a.len() as int));
            }
            lemma_grows_within(sent0, a, a);
        }
        let ghost tail = self.device.incoming();
        let rb = match self.device.read() {
            Ok(rb) => rb,
            Err(e) => {
                proof {
                    lemma_send_model_remaining(data@, g_i, id, self.buffer.data@, tail, g_sent);
                    if r0 {
                        assert(tail.len() == 0);
                        assert(m is None);
                    }
                }
                return Err(Error::Serial(e));
            },
        };
        proof {
            lemma_skip_is_suffix(tail, 1);
            lemma_suffix_trans(tail.skip(1), tail, script0);
            lemma_suffix_refl(self.device.incoming());
        }
        if rb == ACK {
            Ok(())
        } else {
            Err(Error::BadPacketType(rb))
        }
    }
}

/// The consumer of received blocks: invoked once per accepted 128-byte block,
/// in arrival order. The ghost `taken` sequence records every block handed
/// over, so a receiver's contract can say exactly what was delivered.
pub trait BlockConsumer: Sized {
    /// The blocks this consumer has been handed, in order.
    spec fn taken(&self) -> Seq<Seq<u8>>;

    /// Accepts one 128-byte block.
    fn consume(&mut self, block: &[u8])
        requires
            block@.len() == 128,
        ensures
            final(self).taken() == old(self).taken().push(block@),
    ;
}

/// A consumer that keeps every delivered block, in arrival order.
pub struct BlockCollector {
    blocks: Vec<Vec<u8>>,
}

impl BlockCollector {
    /// An empty collector.
    pub fn new() -> (r: BlockCollector)
        ensures
            r.taken() == Seq::<Seq<u8>>::empty(),
    {
        let r = BlockCollector { blocks: Vec::new() };
        proof {
            assert(r.taken() =~= Seq::<Seq<u8>>::empty());
        }
        r
    }

    /// The collected blocks, in arrival order.
    pub fn blocks(&self) -> (r: &Vec<Vec<u8>>)
        ensures
            r@.len() == self.taken().len(),
            forall|i: int| 0 <= i < r@.len() ==> r@[i]@ == self.taken()[i],
    {
        &self.blocks
    }
}

impl BlockConsumer for BlockCollector {
    closed spec fn taken(&self) -> Seq<Seq<u8>> {
        self.blocks@.map_values(|v: Vec<u8>| v@)
    }

    fn consume(&mut self, block: &[u8])
        ensures
            final(self).taken() == old(self).taken().push(block@),
    {
        let v = vstd::slice::slice_to_vec(block);
        self.blocks.push(v);
        proof {
            assert(self.taken() =~= old(self).taken().push(block@));
        }
    }
}

/// The receiver state machine: drives one inbound transfer, validating each
/// block and handing it to the consumer.
pub struct Receiver<S: SerialDevice> {
    buffer: Packet,
    device: S,
}

impl<S: SerialDevice> Receiver<S> {
    /// The session's packet buffer holds a whole block.
    pub closed spec fn wf(&self) -> bool {
        self.buffer.wf()
    }

    /// The bytes the owned transport has yet to deliver.
    pub closed spec fn incoming(&self) -> Seq<u8> {
        self.device.incoming()
    }

    /// The bytes written to the owned transport so far.
    pub closed spec fn sent(&self) -> Seq<u8> {
        self.device.sent()
    }

    /// Whether the owned transport is failure-free.
    pub closed spec fn reliable(&self) -> bool {
        self.device.reliable()
    }

    /// A receiver around `device`, with a zeroed packet buffer.
    pub fn new(device: S) -> (r: Self)
        ensures
            r.wf(),
            r.incoming() == device.incoming(),
            r.sent() == device.sent(),
            r.reliable() == device.reliable(),
    {
        Receiver { buffer: Packet::zeroed(), device }
    }

    /// The owned transport, for inspection once the session is over.
    pub fn device(&self) -> (r: &S)
        ensures
            r.incoming() == self.incoming(),
            r.sent() == self.sent(),
            r.reliable() == self.reliable(),
    {
        &self.device
    }

    /// Requests a CRC-mode transfer, then reads frames: a frame failing its
    /// CRC or id-complement check draws one nak and is retried by the peer; a
    /// valid frame must stay within one sequence step of the last accepted
    /// one and is handed to `f`; end-of-transmission and its closing
    /// end-of-transmission-block are each acknowledged. Unless the transport
    /// itself fails, the whole exchange — every byte written, every byte
    /// consumed, every block delivered, and the outcome — equals the model's.
    /// A failed run still only ever writes a prefix of the modelled replies
    /// and delivers a prefix of the modelled blocks — never a malformed
    /// frame's — and on a reliable transport whose script the model accepts,
    /// the transfer cannot fail with a transport error.
    #[verifier::loop_isolation(false)]
    pub fn receive<C: BlockConsumer>(&mut self, f: &mut C) -> (r: Result<(), Error<S::Error>>)
        requires
            old(self).wf(),
        ensures
            final(self).wf(),
            final(self).reliable() == old(self).reliable(),
            final(self).incoming().is_suffix_of(old(self).incoming()),
            grows_within(
                old(self).sent(),
                final(self).sent(),
                recv_attempt_sent(None, old(self).incoming(), seq![CHECKSUM_REQUEST]),
            ),
            grows_within(
                old(f).taken(),
                final(f).taken(),
                recv_attempt_taken(None, old(self).incoming(), Seq::<Seq<u8>>::empty()),
            ),
            old(self).reliable() && recv_model(old(self).incoming()) is Some ==> !(r matches Err(
                Error::Serial(_),
            )),
            match recv_model(old(self).incoming()) {
                Some(t) => t.remaining.is_suffix_of(final(self).incoming()),
                None => true,
            },
            (r matches Err(Error::Serial(_))) || (match recv_model(old(self).incoming()) {
                Some(t) => {
                    &&& final(self).sent() == old(self).sent() + t.sent
                    &&& final(self).incoming() == t.remaining
                    &&& final(f).taken() == old(f).taken() + t.delivered
                    &&& result_matches(r, t.outcome)
                },
                None => false,
            }),
    {
        let ghost script0 = self.device.incoming();
        let ghost sent0 = self.device.sent();
        let ghost taken0 = f.taken();
        let ghost r0 = self.device.reliable();
        let ghost m = recv_model(script0);
        let ghost a_sent = recv_attempt_sent(None, script0, seq![CHECKSUM_REQUEST]);
        let ghost a_taken = recv_attempt_taken(None, script0, Seq::<Seq<u8>>::empty());

        match self.device.write(CHECKSUM_REQUEST) {
            Ok(_) => {},
            Err(e) => {
                proof {
                    lemma_suffix_refl(script0);
                    lemma_grows_nothing(sent0, a_sent);
                    lemma_grows_nothing(taken0, a_taken);
                    lemma_recv_model_remaining(
                        None,
                        script0,
                        seq![CHECKSUM_REQUEST],
                        Seq::<Seq<u8>>::empty(),
                    );
                }
                return Err(Error::Serial(e));
            },
        }
        let mut prev: Option<u8> = None;
        let ghost mut g_sent: Seq<u8> = seq![CHECKSUM_REQUEST];
        let ghost mut g_del: Seq<Seq<u8>> = Seq::<Seq<u8>>::empty();
        proof {
            lemma_suffix_refl(script0);
        }

        loop
            invariant
                self.wf(),
                self.device.sent() == sent0 + g_sent,
                self.device.reliable() == r0,
                self.device.incoming().is_suffix_of(script0),
                f.taken() == taken0 + g_del,
                recv_loop_model(prev, self.device.incoming(), g_sent, g_del) == m,
                recv_attempt_sent(prev, self.device.incoming(), g_sent) == a_sent,
                recv_attempt_taken(prev, self.device.incoming(), g_del) == a_taken,
            decreases self.device.incoming().len(),
        {
            let ghost script_iter = self.device.incoming();
            let b = match self.device.read() {
                Ok(b) => b,
                Err(e) => {
                    proof {
                        lemma_recv_attempt_sent_extends(prev, script_iter, g_sent);
                        lemma_grows_within(sent0, g_sent, a_sent);
                        lemma_recv_attempt_taken_extends(prev, script_iter, g_del);
                        lemma_grows_within(taken0, g_del, a_taken);
                        lemma_recv_model_remaining(prev, script_iter, g_sent, g_del);
                        if r0 {
                            assert(script_iter.len() == 0);
                            assert(m is None);
                        }
                    }
                    return Err(Error::Serial(e));
                },
            };
            if b == START_OF_HEADER {
                // the remaining 132 bytes of the frame, read in place
                let fid = match self.device.read() {
                    Ok(x) => x,
                    Err(e) => {
                        proof {
                            lemma_recv_attempt_sent_extends(prev, script_iter, g_sent);
                            lemma_grows_within(sent0, g_sent, a_sent);
                            lemma_recv_attempt_taken_extends(prev, script_iter, g_del);
                            lemma_grows_within(taken0, g_del, a_taken);
                            lemma_skip_is_suffix(script_iter, 1);
                            lemma_suffix_trans(script_iter.skip(1), script_iter, script0);
                            lemma_recv_remaining_in_frame(prev, script_iter, g_sent, g_del, 1);
                            if r0 {
                                assert(script_iter.len() == 1);
                                assert(m is None);
                            }
                        }
                        return Err(Error::Serial(e));
                    },
                };
                let finv = match self.device.read() {
                    Ok(x) => x,
                    Err(e) => {
                        proof {
                            lemma_recv_attempt_sent_extends(prev, script_iter, g_sent);
                            lemma_grows_within(sent0, g_sent, a_sent);
                            lemma_recv_attempt_taken_extends(prev, script_iter, g_del);
                            lemma_grows_within(taken0, g_del, a_taken);
                            assert(script_iter.skip(1).skip(1) =~= script_iter.skip(2));
                            lemma_skip_is_suffix(script_iter, 2);
                            lemma_suffix_trans(script_iter.skip(2), script_iter, script0);
                            lemma_recv_remaining_in_frame(prev, script_iter, g_sent, g_del, 2);
                            if r0 {
                                assert(script_iter.len() == 2);
                                assert(m is None);
                            }
                        }
                        return Err(Error::Serial(e));
                    },
                };
                proof {
                    assert(script_iter.skip(1).skip(1) =~= script_iter.skip(2));
                    assert(script_iter.skip(2).skip(1) =~= script_iter.skip(3));
                }
                self.buffer.id = fid;
                self.buffer.id_inverted = finv;
                let mut j: usize = 0;
                while j < 128
                    invariant
                        j <= 128,
                        self.wf(),
                        script_iter.len() >= 3 + j,
                        self.device.sent() == sent0 + g_sent,
                        self.device.reliable() == r0,
                        self.device.incoming() == script_iter.skip(3 + j),
                        self.buffer.data@.len() == 128,
                        self.buffer.data@.take(j as int) == script_iter.subrange(3, 3 + j),
                    decreases 128 - j,
                {
                    let byte = match self.device.read() {
                        Ok(x) => x,
                        Err(e) => {
                            proof {
                                lemma_recv_attempt_sent_extends(prev, script_iter, g_sent);
                                lemma_grows_within(sent0, g_sent, a_sent);
                                lemma_recv_attempt_taken_extends(prev, script_iter, g_del);
                                lemma_grows_within(taken0, g_del, a_taken);
                                lemma_skip_is_suffix(script_iter, 3 + j);
                                lemma_suffix_trans(
                                    script_iter.skip(3 + j),
                                    script_iter,
                                    script0,
                                );
                                lemma_recv_remaining_in_frame(
                                    prev,
                                    script_iter,
                                    g_sent,
                                    g_del,
                                    3 + j,
                                );
                                if r0 {
                                    assert(script_iter.len() == 3 + j);
                                    assert(m is None);
                                }
                            }
                            return Err(Error::Serial(e));
                        },
                    };
                    self.buffer.data[j] = byte;
                    proof {
                        assert(script_iter.skip(3 + j).skip(1) =~= script_iter.skip(3 + j + 1));
                        assert(byte == script_iter[3 + j]);
                        assert(self.buffer.data@.take(j + 1) =~= script_iter.subrange(
                            3,
                            3 + j + 1,
                        ));
                    }
                    j = j + 1;
                }
                let fhi = match self.device.read() {
                    Ok(x) => x,
                    Err(e) => {
                        proof {
                            lemma_recv_attempt_sent_extends(prev, script_iter, g_sent);
                            lemma_grows_within(sent0, g_sent, a_sent);
                            lemma_recv_attempt_taken_extends(prev, script_iter, g_del);
                            lemma_grows_within(taken0, g_del, a_taken);
                            lemma_skip_is_suffix(script_iter, 131);
                            lemma_suffix_trans(script_iter.skip(131), script_iter, script0);
                            lemma_recv_remaining_in_frame(prev, script_iter, g_sent, g_del, 131);
                            if r0 {
                                assert(script_iter.len() == 131);
                                assert(m is None);
                            }
                        }
                        return Err(Error::Serial(e));
                    },
                };
                let flo = match self.device.read() {
                    Ok(x) => x,
                    Err(e) => {
                        proof {
                            lemma_recv_attempt_sent_extends(prev, script_iter, g_sent);
                            lemma_grows_within(sent0, g_sent, a_sent);
                            lemma_recv_attempt_taken_extends(prev, script_iter, g_del);
                            lemma_grows_within(taken0, g_del, a_taken);
                            assert(script_iter.skip(131).skip(1) =~= script_iter.skip(132));
                            lemma_skip_is_suffix(script_iter, 132);
                            lemma_suffix_trans(script_iter.skip(132), script_iter, script0);
                            lemma_recv_remaining_in_frame(prev, script_iter, g_sent, g_del, 132);
                            if r0 {
                                assert(script_iter.len() == 132);
                                assert(m is None);
                            }
                        }
                        return Err(Error::Serial(e));
                    },
                };
                self.buffer.crc_hi = fhi;
                self.buffer.crc_lo = flo;
                let ghost block = script_iter.subrange(3, 131);
                proof {
                    assert(script_iter.skip(131).skip(1) =~= script_iter.skip(132));
                    assert(script_iter.skip(132).skip(1) =~= script_iter.skip(133));
                    assert(fhi == script_iter[131]);
                    assert(flo == script_iter[132]);
                    assert(self.buffer.data@ =~= block);
                    lemma_skip_is_suffix(script_iter, 133);
                    lemma_suffix_trans(script_iter.skip(133), script_iter, script0);
                }

                let c = checksum(self.buffer.data.as_slice());
                let wire = ((fhi as u16) << 8) | (flo as u16);
                if !(c == wire && fid == !finv) {
                    // malformed frame: exactly one nak, nothing delivered
                    match self.device.write(NAK) {
                        Ok(_) => {},
                        Err(e) => {
                            proof {
                                assert(!frame_ok(fid, finv, block, fhi, flo));
                                lemma_recv_attempt_sent_extends(prev, script_iter, g_sent);
                                lemma_grows_within(sent0, g_sent, a_sent);
                                lemma_recv_attempt_taken_extends(prev, script_iter, g_del);
                                lemma_grows_within(taken0, g_del, a_taken);
                                lemma_recv_remaining_in_frame(
                                    prev,
                                    script_iter,
                                    g_sent,
                                    g_del,
                                    133,
                                );
                            }
                            return Err(Error::Serial(e));
                        },
                    }
                    proof {
                        assert(!frame_ok(fid, finv, block, fhi, flo));
                        g_sent = g_sent.push(NAK);
                    }
                } else {
                    proof {
                        assert(frame_ok(fid, finv, block, fhi, flo));
                    }
                    match prev {
                        None => {},
                        Some(p) => {
                            let up = if p == 255 {
                                0
                            } else {
                                p + 1
                            };
                            let down = if p == 0 {
                                255
                            } else {
                                p - 1
                            };
                            if !(fid == up || fid == down) {
                                proof {
                                    lemma_recv_attempt_sent_extends(prev, script_iter, g_sent);
                                    lemma_grows_within(sent0, g_sent, a_sent);
                                    lemma_recv_attempt_taken_extends(prev, script_iter, g_del);
                                    lemma_grows_within(taken0, g_del, a_taken);
                                    lemma_suffix_refl(self.device.incoming());
                                }
                                return Err(Error::BadPacketId);
                            }
                        },
                    }
                    prev = Some(fid);
                    f.consume(self.buffer.data.as_slice());
                    proof {
                        g_del = g_del.push(block);
                        assert(taken0 + g_del =~= (taken0 + g_del.drop_last()).push(block));
                    }
                }
            } else if b == END_OF_TRANSMISSION {
                match self.device.write(ACK) {
                    Ok(_) => {},
                    Err(e) => {
                        proof {
                            lemma_recv_attempt_sent_extends(prev, script_iter, g_sent);
                            lemma_grows_within(sent0, g_sent, a_sent);
                            lemma_recv_attempt_taken_extends(prev, script_iter, g_del);
                            lemma_grows_within(taken0, g_del, a_taken);
                            lemma_skip_is_suffix(script_iter, 1);
                            lemma_suffix_trans(script_iter.skip(1), script_iter, script0);
                            if m is Some {
                                lemma_skip_is_suffix(script_iter.skip(1), 1);
                            }
                        }
                        return Err(Error::Serial(e));
                    },
                }
                proof {
                    g_sent = g_sent.push(ACK);
                    lemma_recv_attempt_taken_extends(prev, script_iter, g_del);
                    lemma_grows_within(taken0, g_del, a_taken);
                    lemma_skip_is_suffix(script_iter, 1);
                    lemma_suffix_trans(script_iter.skip(1), script_iter, script0);
                }
                let b2 = match self.device.read() {
                    Ok(x) => x,
                    Err(e) => {
                        proof {
                            let rest = script_iter.skip(1);
                            if rest.len() > 0 && rest[0] == END_OF_TRANSMISSION_BLOCK {
                                assert(a_sent == g_sent.push(ACK));
                            } else {
                                assert(a_sent == g_sent);
                            }
                            assert(g_sent.is_prefix_of(a_sent)) by {
                                assert(g_sent =~= a_sent.subrange(0, g_sent.len() as int));
                            }
                            lemma_grows_within(sent0, g_sent, a_sent);
                            if m is Some {
                                lemma_skip_is_suffix(script_iter.skip(1), 1);
                            }
                            if r0 {
                                assert(script_iter.skip(1).len() == 0);
                                assert(m is None);
                            }
                        }
                        return Err(Error::Serial(e));
                    },
                };
                proof {
                    assert(script_iter.skip(1).skip(1) =~= script_iter.skip(2));
                    lemma_skip_is_suffix(script_iter, 2);
                    lemma_suffix_trans(script_iter.skip(2), script_iter, script0);
                }
                if b2 == END_OF_TRANSMISSION_BLOCK {
                    proof {
                        assert(a_sent == g_sent.push(ACK));
                        assert(g_sent.is_prefix_of(a_sent)) by {
                            assert(g_sent =~= a_sent.subrange(0, g_sent.len() as int));
                        }
                    }
                    match self.device.write(ACK) {
                        Ok(_) => {},
                        Err(e) => {
                            proof {
                                lemma_grows_within(sent0, g_sent, a_sent);
                                lemma_suffix_refl(self.device.incoming());
                            }
                            return Err(Error::Serial(e));
                        },
                    }
                    proof {
                        assert(a_sent.is_prefix_of(a_sent)) by {
                            assert(a_sent =~= a_sent.subrange(0, a_sent.len() as int));
                        }
                        lemma_grows_within(sent0, a_sent, a_sent);
                        assert(self.device.sent() =~= sent0 + a_sent);
                        lemma_suffix_refl(self.device.incoming());
                    }
                    return Ok(());
                } else {
                    proof {
                        assert(a_sent == g_sent);
                        assert(g_sent.is_prefix_of(a_sent)) by {
                            assert(g_sent =~= a_sent.subrange(0, g_sent.len() as int));
                        }
                        lemma_grows_within(sent0, g_sent, a_sent);
                        lemma_suffix_refl(self.device.incoming());
                    }
                    return Err(Error::BadPacketType(b2));
                }
            } else {
                proof {
                    lemma_recv_attempt_sent_extends(prev, script_iter, g_sent);
                    lemma_grows_within(sent0, g_sent, a_sent);
                    lemma_recv_attempt_taken_extends(prev, script_iter, g_del);
                    lemma_grows_within(taken0, g_del, a_taken);
                    lemma_skip_is_suffix(script_iter, 1);
                    lemma_suffix_trans(script_iter.skip(1), script_iter, script0);
                    lemma_suffix_refl(self.device.incoming());
                }
                return Err(Error::BadPacketType(b));
            }
        }
    }
}

} // verus!
