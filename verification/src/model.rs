//! The mathematical model of the transfer protocol: the control byte
//! vocabulary, the error taxonomy, and spec functions that give, for a data
//! buffer and a script of incoming reply bytes, the exact transcript a sender
//! or receiver produces — every byte written, every byte consumed, every block
//! delivered, and the outcome.

use vstd::prelude::*;

use crate::checksum::crc16;

verus! {

pub const START_OF_HEADER: u8 = 0x01;

pub const END_OF_TRANSMISSION: u8 = 0x04;

pub const ACK: u8 = 0x06;

pub const NAK: u8 = 0x15;

pub const END_OF_TRANSMISSION_BLOCK: u8 = 0x17;

pub const CANCEL: u8 = 0x18;

pub const CHECKSUM_REQUEST: u8 = 0x43;

/// The error taxonomy of a transfer. `Serial` wraps the transport's own
/// error, which this layer never inspects; the other variants are fatal
/// protocol conditions.
#[derive(Debug)]
pub enum Error<S> {
    /// Sequence discontinuity beyond the tolerated one-step relationship.
    BadPacketId,
    /// An unexpected control or frame-type byte where a specific set was
    /// required; carries the offending byte.
    BadPacketType(u8),
    /// The peer sent the cancel byte: a deliberate abort.
    Canceled,
    /// A transport-level failure, never retried by this layer.
    Serial(S),
}

impl<S> vstd::std_specs::convert::FromSpecImpl<S> for Error<S> {
    open spec fn obeys_from_spec() -> bool {
        true
    }

    open spec fn from_spec(s: S) -> Self {
        Error::Serial(s)
    }
}

impl<S> From<S> for Error<S> {
    /// A bare transport error is wrapped as the transport variant.
    fn from(s: S) -> (r: Self) {
        Error::Serial(s)
    }
}

/// The outcome of a modelled transfer: completion or one of the fatal
/// protocol conditions. A transport-level failure has no model — it may
/// interrupt a transfer at any byte.
pub ghost enum Outcome {
    Completed,
    BadPacketType(u8),
    BadPacketId,
    Canceled,
}

/// Whether an executable result carries exactly the modelled outcome.
pub open spec fn result_matches<S>(r: Result<(), Error<S>>, m: Outcome) -> bool {
    match (r, m) {
        (Ok(()), Outcome::Completed) => true,
        (Err(Error::BadPacketType(a)), Outcome::BadPacketType(b)) => a == b,
        (Err(Error::BadPacketId), Outcome::BadPacketId) => true,
        (Err(Error::Canceled), Outcome::Canceled) => true,
        (_, _) => false,
    }
}

/// The block sequence number after `id`, wrapping modulo 256.
pub open spec fn wrap_inc(id: u8) -> u8 {
    if id == 255 {
        0
    } else {
        (id + 1) as u8
    }
}

/// The block sequence number before `id`, wrapping modulo 256.
pub open spec fn wrap_dec(id: u8) -> u8 {
    if id == 0 {
        255
    } else {
        (id - 1) as u8
    }
}

/// The high byte of a big-endian 16-bit CRC.
pub open spec fn crc_hi(c: u16) -> u8 {
    (c >> 8) as u8
}

/// The low byte of a big-endian 16-bit CRC.
pub open spec fn crc_lo(c: u16) -> u8 {
    (c & 0xff) as u8
}

/// A 16-bit CRC reassembled from its big-endian wire bytes.
pub open spec fn crc_combine(hi: u8, lo: u8) -> u16 {
    ((hi as u16) << 8) | (lo as u16)
}

/// The 133-byte wire frame carrying a 128-byte block under sequence number
/// `id`: type, id, complement of id, data, CRC big-endian.
pub open spec fn frame_bytes(id: u8, block: Seq<u8>) -> Seq<u8> {
    seq![START_OF_HEADER, id, !id] + block + seq![crc_hi(crc16(block)), crc_lo(crc16(block))]
}

/// How many blocks a transfer of `len` data bytes sends: one per started
/// 128-byte chunk, none for empty data.
pub open spec fn num_chunks(len: nat) -> nat {
    if len == 0 {
        0
    } else {
        ((len - 1) / 128 + 1) as nat
    }
}

/// Where chunk `i` of a `len`-byte buffer ends.
pub open spec fn chunk_end(len: int, i: int) -> int {
    if 128 * (i + 1) <= len {
        128 * (i + 1)
    } else {
        len
    }
}

/// Chunk `i` of the data buffer: up to 128 consecutive bytes.
pub open spec fn chunk_at(data: Seq<u8>, i: int) -> Seq<u8> {
    data.subrange(128 * i, chunk_end(data.len() as int, i))
}

/// The 128-byte packet buffer after copying chunk `c` over its front; bytes
/// past the chunk keep what the buffer held before.
pub open spec fn load_chunk(buf: Seq<u8>, c: Seq<u8>) -> Seq<u8> {
    c + buf.skip(c.len() as int)
}

/// What a sender produces and consumes from the block loop onward, given the
/// chunked data, the current chunk index and sequence number, the packet
/// buffer contents, the incoming reply script, and the transcript so far.
pub ghost struct SendTrace {
    /// Every byte the sender wrote, in order.
    pub sent: Seq<u8>,
    /// The incoming bytes left unconsumed.
    pub remaining: Seq<u8>,
    /// The packet buffer's data field afterwards.
    pub buf: Seq<u8>,
    /// How the transfer ended.
    pub outcome: Outcome,
}

/// The sender's block loop: for each chunk in order, load it into the buffer,
/// write the frame, and obey the reply — ack advances, nak retransmits
/// without bound, cancel and any other byte end the transfer. After the last
/// chunk, write end-of-transmission and require an ack. `None` means the
/// script ran out where a reply was required.
pub open spec fn send_blocks_model(
    data: Seq<u8>,
    i: nat,
    id: u8,
    buf: Seq<u8>,
    script: Seq<u8>,
    sent: Seq<u8>,
) -> Option<SendTrace>
    decreases script.len(),
{
    if i >= num_chunks(data.len()) {
        let sent2 = sent.push(END_OF_TRANSMISSION);
        if script.len() == 0 {
            None
        } else if script[0] == ACK {
            Some(
                (SendTrace {
                    sent: sent2,
                    remaining: script.skip(1),
                    buf,
                    outcome: Outcome::Completed,
                }),
            )
        } else {
            Some(
                (SendTrace {
                    sent: sent2,
                    remaining: script.skip(1),
                    buf,
                    outcome: Outcome::BadPacketType(script[0]),
                }),
            )
        }
    } else {
        let buf2 = load_chunk(buf, chunk_at(data, i as int));
        let sent2 = sent + frame_bytes(id, buf2);
        if script.len() == 0 {
            None
        } else if script[0] == ACK {
            send_blocks_model(data, i + 1, wrap_inc(id), buf2, script.skip(1), sent2)
        } else if script[0] == NAK {
            send_blocks_model(data, i, id, buf2, script.skip(1), sent2)
        } else if script[0] == CANCEL {
            Some(
                (SendTrace {
                    sent: sent2,
                    remaining: script.skip(1),
                    buf: buf2,
                    outcome: Outcome::Canceled,
                }),
            )
        } else {
            Some(
                (SendTrace {
                    sent: sent2,
                    remaining: script.skip(1),
                    buf: buf2,
                    outcome: Outcome::BadPacketType(script[0]),
                }),
            )
        }
    }
}

/// A whole send: one blocking read that must deliver the checksum request,
/// then the block loop over the chunked data starting at sequence number 1.
pub open spec fn send_model(data: Seq<u8>, buf: Seq<u8>, script: Seq<u8>) -> Option<SendTrace> {
    if script.len() == 0 {
        None
    } else if script[0] == CHECKSUM_REQUEST {
        send_blocks_model(data, 0, 1, buf, script.skip(1), Seq::empty())
    } else {
        Some(
            (SendTrace {
                sent: Seq::empty(),
                remaining: script.skip(1),
                buf,
                outcome: Outcome::BadPacketType(script[0]),
            }),
        )
    }
}

/// What a receiver produces and consumes, given the incoming byte script.
pub ghost struct RecvTrace {
    /// Every byte the receiver wrote, in order.
    pub sent: Seq<u8>,
    /// The incoming bytes left unconsumed.
    pub remaining: Seq<u8>,
    /// The 128-byte blocks handed to the consumer, in arrival order.
    pub delivered: Seq<Seq<u8>>,
    /// How the transfer ended.
    pub outcome: Outcome,
}

/// Whether a frame's integrity checks pass: the CRC over the data matches the
/// transmitted CRC and the id equals the complement of its check byte.
pub open spec fn frame_ok(id: u8, id_inverted: u8, block: Seq<u8>, hi: u8, lo: u8) -> bool {
    crc16(block) == crc_combine(hi, lo) && id == !id_inverted
}

/// Whether a newly validated id is within one step of the previously accepted
/// one, in either direction, wrapping modulo 256.
///
/// Conventional sequencing for this kind of transfer would demand exactly the
/// next id; the tolerance of one step backwards is deliberate here and kept
/// as the protocol's observed behaviour.
pub open spec fn id_in_step(prev: u8, id: u8) -> bool {
    id == wrap_inc(prev) || id == wrap_dec(prev)
}

/// The receiver's frame loop. A start-of-header byte begins a 133-byte frame:
/// a frame failing its integrity checks draws exactly one nak and is not
/// delivered; a valid frame must carry an id within one step of the running
/// id (the first validated frame seeds it) and is delivered to the consumer.
/// End-of-transmission is acknowledged and must be followed by
/// end-of-transmission-block, acknowledged in turn; any other byte where a
/// frame was expected is fatal. `None` means the script ran out mid-session.
pub open spec fn recv_loop_model(
    prev: Option<u8>,
    script: Seq<u8>,
    sent: Seq<u8>,
    delivered: Seq<Seq<u8>>,
) -> Option<RecvTrace>
    decreases script.len(),
{
    if script.len() == 0 {
        None
    } else if script[0] == START_OF_HEADER {
        if script.len() < 133 {
            None
        } else {
            let id = script[1];
            let inv = script[2];
            let block = script.subrange(3, 131);
            let hi = script[131];
            let lo = script[132];
            let rest = script.skip(133);
            if !frame_ok(id, inv, block, hi, lo) {
                recv_loop_model(prev, rest, sent.push(NAK), delivered)
            } else if prev matches Some(p) && !id_in_step(p, id) {
                Some(
                    (RecvTrace {
                        sent,
                        remaining: rest,
                        delivered,
                        outcome: Outcome::BadPacketId,
                    }),
                )
            } else {
                recv_loop_model(Some(id), rest, sent, delivered.push(block))
            }
        }
    } else if script[0] == END_OF_TRANSMISSION {
        let sent2 = sent.push(ACK);
        let rest = script.skip(1);
        if rest.len() == 0 {
            None
        } else if rest[0] == END_OF_TRANSMISSION_BLOCK {
            Some(
                (RecvTrace {
                    sent: sent2.push(ACK),
                    remaining: rest.skip(1),
                    delivered,
                    outcome: Outcome::Completed,
                }),
            )
        } else {
            Some(
                (RecvTrace {
                    sent: sent2,
                    remaining: rest.skip(1),
                    delivered,
                    outcome: Outcome::BadPacketType(rest[0]),
                }),
            )
        }
    } else {
        Some(
            (RecvTrace {
                sent,
                remaining: script.skip(1),
                delivered,
                outcome: Outcome::BadPacketType(script[0]),
            }),
        )
    }
}

/// A whole receive: write the checksum request once, then run the frame loop
/// with no running id yet.
pub open spec fn recv_model(script: Seq<u8>) -> Option<RecvTrace> {
    recv_loop_model(None, script, seq![CHECKSUM_REQUEST], Seq::empty())
}

/// The most a sender's block loop can write for a script, even one that runs
/// out: the transcript of the run up to where a reply is missing. A completed
/// run writes exactly this; a run cut short by a transport failure writes a
/// prefix of it.
pub open spec fn send_attempt_blocks(
    data: Seq<u8>,
    i: nat,
    id: u8,
    buf: Seq<u8>,
    script: Seq<u8>,
    sent: Seq<u8>,
) -> Seq<u8>
    decreases script.len(),
{
    if i >= num_chunks(data.len()) {
        sent.push(END_OF_TRANSMISSION)
    } else {
        let buf2 = load_chunk(buf, chunk_at(data, i as int));
        let sent2 = sent + frame_bytes(id, buf2);
        if script.len() == 0 {
            sent2
        } else if script[0] == ACK {
            send_attempt_blocks(data, i + 1, wrap_inc(id), buf2, script.skip(1), sent2)
        } else if script[0] == NAK {
            send_attempt_blocks(data, i, id, buf2, script.skip(1), sent2)
        } else {
            sent2
        }
    }
}

/// The most a whole send can write for a script: nothing before the
/// handshake is answered, then the block loop's attempt.
pub open spec fn send_attempt(data: Seq<u8>, buf: Seq<u8>, script: Seq<u8>) -> Seq<u8> {
    if script.len() == 0 {
        Seq::empty()
    } else if script[0] == CHECKSUM_REQUEST {
        send_attempt_blocks(data, 0, 1, buf, script.skip(1), Seq::empty())
    } else {
        Seq::empty()
    }
}

/// The most a receiver can write for a script, even one that runs out
/// mid-frame: the checksum request, one nak per malformed frame, and the two
/// closing acks where the close arrives. A run cut short writes a prefix.
pub open spec fn recv_attempt_sent(prev: Option<u8>, script: Seq<u8>, sent: Seq<u8>) -> Seq<u8>
    decreases script.len(),
{
    if script.len() == 0 {
        sent
    } else if script[0] == START_OF_HEADER {
        if script.len() < 133 {
            sent
        } else {
            let id = script[1];
            let inv = script[2];
            let block = script.subrange(3, 131);
            let rest = script.skip(133);
            if !frame_ok(id, inv, block, script[131], script[132]) {
                recv_attempt_sent(prev, rest, sent.push(NAK))
            } else if prev matches Some(p) && !id_in_step(p, id) {
                sent
            } else {
                recv_attempt_sent(Some(id), rest, sent)
            }
        }
    } else if script[0] == END_OF_TRANSMISSION {
        let sent2 = sent.push(ACK);
        let rest = script.skip(1);
        if rest.len() == 0 {
            sent2
        } else if rest[0] == END_OF_TRANSMISSION_BLOCK {
            sent2.push(ACK)
        } else {
            sent2
        }
    } else {
        sent
    }
}

/// The most a receiver can deliver for a script: exactly the blocks of the
/// well-formed, in-step frames up to where the script gives out or a fatal
/// byte arrives. A run cut short delivers a prefix — in particular, never a
/// malformed frame's block.
pub open spec fn recv_attempt_taken(
    prev: Option<u8>,
    script: Seq<u8>,
    taken: Seq<Seq<u8>>,
) -> Seq<Seq<u8>>
    decreases script.len(),
{
    if script.len() == 0 {
        taken
    } else if script[0] == START_OF_HEADER {
        if script.len() < 133 {
            taken
        } else {
            let id = script[1];
            let inv = script[2];
            let block = script.subrange(3, 131);
            let rest = script.skip(133);
            if !frame_ok(id, inv, block, script[131], script[132]) {
                recv_attempt_taken(prev, rest, taken)
            } else if prev matches Some(p) && !id_in_step(p, id) {
                taken
            } else {
                recv_attempt_taken(Some(id), rest, taken.push(block))
            }
        }
    } else {
        taken
    }
}

/// How a session's transcript may grow: `new` extends `old` and the bytes
/// added stay within the attempt `bound`.
pub open spec fn grows_within<T>(old_part: Seq<T>, new_part: Seq<T>, bound: Seq<T>) -> bool {
    old_part.is_prefix_of(new_part) && new_part.skip(old_part.len() as int).is_prefix_of(bound)
}

/// An appended delta within the bound grows within the bound.
pub proof fn lemma_grows_within<T>(old_part: Seq<T>, delta: Seq<T>, bound: Seq<T>)
    requires
        delta.is_prefix_of(bound),
    ensures
        grows_within(old_part, old_part + delta, bound),
{
    assert(old_part =~= (old_part + delta).subrange(0, old_part.len() as int));
    assert((old_part + delta).skip(old_part.len() as int) =~= delta);
}

/// The accumulated transcript is a prefix of the block loop's attempt.
pub proof fn lemma_send_attempt_extends(
    data: Seq<u8>,
    i: nat,
    id: u8,
    buf: Seq<u8>,
    script: Seq<u8>,
    sent: Seq<u8>,
)
    ensures
        sent.is_prefix_of(send_attempt_blocks(data, i, id, buf, script, sent)),
    decreases script.len(),
{
    if i >= num_chunks(data.len()) {
        assert(sent =~= sent.push(END_OF_TRANSMISSION).subrange(0, sent.len() as int));
    } else {
        let buf2 = load_chunk(buf, chunk_at(data, i as int));
        let sent2 = sent + frame_bytes(id, buf2);
        assert(sent =~= sent2.subrange(0, sent.len() as int));
        if script.len() == 0 {
        } else if script[0] == ACK {
            lemma_send_attempt_extends(data, i + 1, wrap_inc(id), buf2, script.skip(1), sent2);
            lemma_prefix_trans(
                sent,
                sent2,
                send_attempt_blocks(data, i + 1, wrap_inc(id), buf2, script.skip(1), sent2),
            );
        } else if script[0] == NAK {
            lemma_send_attempt_extends(data, i, id, buf2, script.skip(1), sent2);
            lemma_prefix_trans(
                sent,
                sent2,
                send_attempt_blocks(data, i, id, buf2, script.skip(1), sent2),
            );
        }
    }
}

/// At a block state, the transcript together with the whole next frame is
/// still a prefix of the attempt: the frame goes out before any reply is
/// awaited.
pub proof fn lemma_send_attempt_holds_frame(
    data: Seq<u8>,
    i: nat,
    id: u8,
    buf: Seq<u8>,
    script: Seq<u8>,
    sent: Seq<u8>,
)
    requires
        i < num_chunks(data.len()),
    ensures
        ({
            let buf2 = load_chunk(buf, chunk_at(data, i as int));
            (sent + frame_bytes(id, buf2)).is_prefix_of(
                send_attempt_blocks(data, i, id, buf, script, sent),
            )
        }),
{
    let buf2 = load_chunk(buf, chunk_at(data, i as int));
    let sent2 = sent + frame_bytes(id, buf2);
    if script.len() == 0 {
        assert(sent2.is_prefix_of(sent2));
    } else if script[0] == ACK {
        lemma_send_attempt_extends(data, i + 1, wrap_inc(id), buf2, script.skip(1), sent2);
    } else if script[0] == NAK {
        lemma_send_attempt_extends(data, i, id, buf2, script.skip(1), sent2);
    } else {
        assert(sent2.is_prefix_of(sent2));
    }
}

/// The accumulated reply transcript is a prefix of the receiver's attempt.
pub proof fn lemma_recv_attempt_sent_extends(prev: Option<u8>, script: Seq<u8>, sent: Seq<u8>)
    ensures
        sent.is_prefix_of(recv_attempt_sent(prev, script, sent)),
    decreases script.len(),
{
    if script.len() == 0 {
    } else if script[0] == START_OF_HEADER {
        if script.len() >= 133 {
            let id = script[1];
            let inv = script[2];
            let block = script.subrange(3, 131);
            let rest = script.skip(133);
            if !frame_ok(id, inv, block, script[131], script[132]) {
                assert(sent =~= sent.push(NAK).subrange(0, sent.len() as int));
                lemma_recv_attempt_sent_extends(prev, rest, sent.push(NAK));
                lemma_prefix_trans(
                    sent,
                    sent.push(NAK),
                    recv_attempt_sent(prev, rest, sent.push(NAK)),
                );
            } else if !(prev matches Some(p) && !id_in_step(p, id)) {
                lemma_recv_attempt_sent_extends(Some(id), rest, sent);
            }
        }
    } else if script[0] == END_OF_TRANSMISSION {
        assert(sent =~= sent.push(ACK).subrange(0, sent.len() as int));
        assert(sent =~= sent.push(ACK).push(ACK).subrange(0, sent.len() as int));
    }
}

/// The accumulated deliveries are a prefix of the receiver's attempt.
pub proof fn lemma_recv_attempt_taken_extends(prev: Option<u8>, script: Seq<u8>, taken: Seq<Seq<u8>>)
    ensures
        taken.is_prefix_of(recv_attempt_taken(prev, script, taken)),
    decreases script.len(),
{
    if script.len() == 0 {
    } else if script[0] == START_OF_HEADER {
        if script.len() >= 133 {
            let id = script[1];
            let inv = script[2];
            let block = script.subrange(3, 131);
            let rest = script.skip(133);
            if !frame_ok(id, inv, block, script[131], script[132]) {
                lemma_recv_attempt_taken_extends(prev, rest, taken);
            } else if !(prev matches Some(p) && !id_in_step(p, id)) {
                assert(taken =~= taken.push(block).subrange(0, taken.len() as int));
                lemma_recv_attempt_taken_extends(Some(id), rest, taken.push(block));
                lemma_prefix_trans(
                    taken,
                    taken.push(block),
                    recv_attempt_taken(Some(id), rest, taken.push(block)),
                );
            }
        }
    }
}

/// The sender's model never consumes past its outcome: what it leaves is a
/// suffix of the script it was given.
pub proof fn lemma_send_model_remaining(
    data: Seq<u8>,
    i: nat,
    id: u8,
    buf: Seq<u8>,
    script: Seq<u8>,
    sent: Seq<u8>,
)
    ensures
        match send_blocks_model(data, i, id, buf, script, sent) {
            Some(t) => t.remaining.is_suffix_of(script),
            None => true,
        },
    decreases script.len(),
{
    if script.len() > 0 {
        lemma_skip_is_suffix(script, 1);
        if i < num_chunks(data.len()) {
            let buf2 = load_chunk(buf, chunk_at(data, i as int));
            let sent2 = sent + frame_bytes(id, buf2);
            if script[0] == ACK {
                lemma_send_model_remaining(data, i + 1, wrap_inc(id), buf2, script.skip(1), sent2);
                match send_blocks_model(data, i + 1, wrap_inc(id), buf2, script.skip(1), sent2) {
                    Some(t) => lemma_suffix_trans(t.remaining, script.skip(1), script),
                    None => {},
                }
            } else if script[0] == NAK {
                lemma_send_model_remaining(data, i, id, buf2, script.skip(1), sent2);
                match send_blocks_model(data, i, id, buf2, script.skip(1), sent2) {
                    Some(t) => lemma_suffix_trans(t.remaining, script.skip(1), script),
                    None => {},
                }
            }
        }
    }
}

/// The receiver's model never consumes past its outcome: what it leaves is a
/// suffix of the script it was given.
pub proof fn lemma_recv_model_remaining(
    prev: Option<u8>,
    script: Seq<u8>,
    sent: Seq<u8>,
    delivered: Seq<Seq<u8>>,
)
    ensures
        match recv_loop_model(prev, script, sent, delivered) {
            Some(t) => t.remaining.is_suffix_of(script),
            None => true,
        },
    decreases script.len(),
{
    if script.len() == 0 {
    } else if script[0] == START_OF_HEADER {
        if script.len() >= 133 {
            let id = script[1];
            let inv = script[2];
            let block = script.subrange(3, 131);
            let rest = script.skip(133);
            lemma_skip_is_suffix(script, 133);
            if !frame_ok(id, inv, block, script[131], script[132]) {
                lemma_recv_model_remaining(prev, rest, sent.push(NAK), delivered);
                match recv_loop_model(prev, rest, sent.push(NAK), delivered) {
                    Some(t) => lemma_suffix_trans(t.remaining, rest, script),
                    None => {},
                }
            } else if prev matches Some(p) && !id_in_step(p, id) {
            } else {
                lemma_recv_model_remaining(Some(id), rest, sent, delivered.push(block));
                match recv_loop_model(Some(id), rest, sent, delivered.push(block)) {
                    Some(t) => lemma_suffix_trans(t.remaining, rest, script),
                    None => {},
                }
            }
        }
    } else if script[0] == END_OF_TRANSMISSION {
        let rest = script.skip(1);
        if rest.len() > 0 {
            lemma_skip_is_suffix(script, 1);
            lemma_skip_is_suffix(rest, 1);
            lemma_suffix_trans(rest.skip(1), rest, script);
        }
    } else {
        lemma_skip_is_suffix(script, 1);
    }
}

/// While a frame is being consumed byte by byte, the model's eventual
/// remainder lies beyond the whole frame: it is a suffix of the script with
/// any first part of the frame dropped.
pub proof fn lemma_recv_remaining_in_frame(
    prev: Option<u8>,
    script: Seq<u8>,
    sent: Seq<u8>,
    delivered: Seq<Seq<u8>>,
    k: int,
)
    requires
        0 <= k <= 133,
        script.len() >= 1,
        script[0] == START_OF_HEADER,
    ensures
        match recv_loop_model(prev, script, sent, delivered) {
            Some(t) => t.remaining.is_suffix_of(script.skip(k)),
            None => true,
        },
{
    lemma_recv_model_remaining(prev, script, sent, delivered);
    match recv_loop_model(prev, script, sent, delivered) {
        Some(t) => {
            assert(script.len() >= 133);
            let rest = script.skip(133);
            let id = script[1];
            let inv = script[2];
            let block = script.subrange(3, 131);
            if !frame_ok(id, inv, block, script[131], script[132]) {
                lemma_recv_model_remaining(prev, rest, sent.push(NAK), delivered);
            } else if prev matches Some(p) && !id_in_step(p, id) {
                lemma_suffix_refl(rest);
            } else {
                lemma_recv_model_remaining(Some(id), rest, sent, delivered.push(block));
            }
            assert(t.remaining.is_suffix_of(rest));
            assert(script.skip(k).skip(133 - k) =~= rest);
            lemma_skip_is_suffix(script.skip(k), 133 - k);
            lemma_suffix_trans(t.remaining, rest, script.skip(k));
        },
        None => {},
    }
}

/// A run that added nothing grew within any bound.
pub proof fn lemma_grows_nothing<T>(old_part: Seq<T>, bound: Seq<T>)
    ensures
        grows_within(old_part, old_part, bound),
{
    assert(old_part =~= old_part.subrange(0, old_part.len() as int));
    assert(old_part.skip(old_part.len() as int) =~= bound.subrange(0, 0));
}

/// Appending a prefix of `b` keeps the whole within `a + b`.
pub proof fn lemma_prefix_concat<T>(a: Seq<T>, p: Seq<T>, b: Seq<T>)
    requires
        p.is_prefix_of(b),
    ensures
        (a + p).is_prefix_of(a + b),
{
    assert((a + p) =~= (a + b).subrange(0, (a + p).len() as int));
}

/// Every sequence is a suffix of itself.
pub proof fn lemma_suffix_refl<T>(s: Seq<T>)
    ensures
        s.is_suffix_of(s),
{
    assert(s =~= s.subrange(0, s.len() as int));
}

/// Prefixes compose.
pub proof fn lemma_prefix_trans<T>(a: Seq<T>, b: Seq<T>, c: Seq<T>)
    requires
        a.is_prefix_of(b),
        b.is_prefix_of(c),
    ensures
        a.is_prefix_of(c),
{
    assert(a =~= c.subrange(0, a.len() as int));
}

/// Suffixes compose.
pub proof fn lemma_suffix_trans<T>(a: Seq<T>, b: Seq<T>, c: Seq<T>)
    requires
        a.is_suffix_of(b),
        b.is_suffix_of(c),
    ensures
        a.is_suffix_of(c),
{
    assert(a =~= c.subrange((c.len() - a.len()) as int, c.len() as int));
}

/// Dropping leading elements leaves a suffix.
pub proof fn lemma_skip_is_suffix<T>(s: Seq<T>, k: int)
    requires
        0 <= k <= s.len(),
    ensures
        s.skip(k).is_suffix_of(s),
{
    assert(s.skip(k) =~= s.subrange((s.len() - s.skip(k).len()) as int, s.len() as int));
}

/// `k` copies of `s`, concatenated.
pub open spec fn repeated(s: Seq<u8>, k: nat) -> Seq<u8>
    decreases k,
{
    if k == 0 {
        Seq::empty()
    } else {
        repeated(s, (k - 1) as nat) + s
    }
}

/// A copy of `s` can be peeled off the front of `repeated` as well as off the
/// back.
pub proof fn lemma_repeated_front(s: Seq<u8>, k: nat)
    ensures
        repeated(s, k + 1) == s + repeated(s, k),
    decreases k,
{
    if k == 0 {
        assert(repeated(s, 1) =~= s + repeated(s, 0));
    } else {
        lemma_repeated_front(s, (k - 1) as nat);
        assert(repeated(s, k + 1) == repeated(s, k) + s);
        assert((s + repeated(s, (k - 1) as nat)) + s =~= s + (repeated(s, (k - 1) as nat) + s));
    }
}

/// Loading the same chunk twice leaves the buffer as after loading it once.
pub proof fn lemma_load_chunk_idempotent(buf: Seq<u8>, c: Seq<u8>)
    ensures
        load_chunk(load_chunk(buf, c), c) == load_chunk(buf, c),
{
    assert((c + buf.skip(c.len() as int)).skip(c.len() as int) =~= buf.skip(c.len() as int));
}

/// Sender retry: a block answered by `k` naks and then an ack is transmitted
/// exactly `k + 1` times, and the sequence number does not advance until the
/// ack; afterwards the transfer continues at the next chunk with the next id
/// and nothing else on the wire.
pub proof fn lemma_sender_retry(
    data: Seq<u8>,
    i: nat,
    id: u8,
    buf: Seq<u8>,
    k: nat,
    rest: Seq<u8>,
    sent: Seq<u8>,
)
    requires
        i < num_chunks(data.len()),
    ensures
        ({
            let buf2 = load_chunk(buf, chunk_at(data, i as int));
            let frame = frame_bytes(id, buf2);
            send_blocks_model(data, i, id, buf, Seq::new(k, |j: int| NAK).push(ACK) + rest, sent)
                == send_blocks_model(
                data,
                i + 1,
                wrap_inc(id),
                buf2,
                rest,
                sent + repeated(frame, k + 1),
            )
        }),
    decreases k,
{
    let buf2 = load_chunk(buf, chunk_at(data, i as int));
    let frame = frame_bytes(id, buf2);
    let script = Seq::new(k, |j: int| NAK).push(ACK) + rest;
    if k == 0 {
        assert(script[0] == ACK);
        assert(script.skip(1) =~= rest);
        assert(sent + repeated(frame, 1) == sent + frame) by {
            assert(repeated(frame, 0nat) == Seq::<u8>::empty());
            assert(repeated(frame, 1) == repeated(frame, 0nat) + frame);
            assert(Seq::<u8>::empty() + frame =~= frame);
        }
    } else {
        assert(script[0] == NAK);
        assert(script.skip(1) =~= Seq::new((k - 1) as nat, |j: int| NAK).push(ACK) + rest);
        lemma_load_chunk_idempotent(buf, chunk_at(data, i as int));
        lemma_sender_retry(data, i, id, buf2, (k - 1) as nat, rest, sent + frame);
        lemma_repeated_front(frame, (k - 1) as nat);
        assert((sent + frame) + repeated(frame, k) =~= sent + (frame + repeated(frame, k)));
        assert(sent + repeated(frame, k + 1) == (sent + frame) + repeated(frame, k));
    }
}

/// Cancellation: a cancel byte at a block's reply point ends the transfer
/// with the cancellation outcome at once — the frame just written is the last
/// byte on the wire, and no further incoming byte is consumed.
pub proof fn lemma_sender_cancel(
    data: Seq<u8>,
    i: nat,
    id: u8,
    buf: Seq<u8>,
    rest: Seq<u8>,
    sent: Seq<u8>,
)
    requires
        i < num_chunks(data.len()),
    ensures
        ({
            let buf2 = load_chunk(buf, chunk_at(data, i as int));
            send_blocks_model(data, i, id, buf, seq![CANCEL] + rest, sent) == Some(
                (SendTrace {
                    sent: sent + frame_bytes(id, buf2),
                    remaining: rest,
                    buf: buf2,
                    outcome: Outcome::Canceled,
                }),
            )
        }),
{
    let script = seq![CANCEL] + rest;
    assert(script[0] == CANCEL);
    assert(script.skip(1) =~= rest);
}

/// Packet integrity, rejecting half: a frame whose CRC or id-complement check
/// fails draws exactly one nak, delivers nothing, and leaves the running id
/// untouched; the session goes on with the rest of the script.
pub proof fn lemma_receiver_rejects_malformed(
    prev: Option<u8>,
    frame: Seq<u8>,
    rest: Seq<u8>,
    sent: Seq<u8>,
    delivered: Seq<Seq<u8>>,
)
    requires
        frame.len() == 133,
        frame[0] == START_OF_HEADER,
        !frame_ok(frame[1], frame[2], frame.subrange(3, 131), frame[131], frame[132]),
    ensures
        recv_loop_model(prev, frame + rest, sent, delivered) == recv_loop_model(
            prev,
            rest,
            sent.push(NAK),
            delivered,
        ),
{
    let script = frame + rest;
    assert(script.subrange(3, 131) =~= frame.subrange(3, 131));
    assert(script.skip(133) =~= rest);
}

/// Packet integrity, accepting half: a frame that passes both checks and
/// whose id is admissible (any id for the first block, within one wrapping
/// step of the running id afterwards) is delivered to the consumer exactly
/// once, with no acknowledgment byte of its own, and the running id becomes
/// its id.
pub proof fn lemma_receiver_accepts_valid(
    prev: Option<u8>,
    frame: Seq<u8>,
    rest: Seq<u8>,
    sent: Seq<u8>,
    delivered: Seq<Seq<u8>>,
)
    requires
        frame.len() == 133,
        frame[0] == START_OF_HEADER,
        frame_ok(frame[1], frame[2], frame.subrange(3, 131), frame[131], frame[132]),
        match prev {
            Some(p) => id_in_step(p, frame[1]),
            None => true,
        },
    ensures
        recv_loop_model(prev, frame + rest, sent, delivered) == recv_loop_model(
            Some(frame[1]),
            rest,
            sent,
            delivered.push(frame.subrange(3, 131)),
        ),
{
    let script = frame + rest;
    assert(script.subrange(3, 131) =~= frame.subrange(3, 131));
    assert(script.skip(133) =~= rest);
}

/// Whatever the script, a receiver only ever delivers whole 128-byte blocks.
pub proof fn lemma_delivered_blocks_whole(
    prev: Option<u8>,
    script: Seq<u8>,
    sent: Seq<u8>,
    delivered: Seq<Seq<u8>>,
)
    requires
        forall|i: int| 0 <= i < delivered.len() ==> (#[trigger] delivered[i]).len() == 128,
    ensures
        match recv_loop_model(prev, script, sent, delivered) {
            Some(t) => forall|i: int|
                0 <= i < t.delivered.len() ==> (#[trigger] t.delivered[i]).len() == 128,
            None => true,
        },
    decreases script.len(),
{
    if script.len() == 0 {
    } else if script[0] == START_OF_HEADER {
        if script.len() >= 133 {
            let id = script[1];
            let inv = script[2];
            let block = script.subrange(3, 131);
            let rest = script.skip(133);
            if !frame_ok(id, inv, block, script[131], script[132]) {
                lemma_delivered_blocks_whole(prev, rest, sent.push(NAK), delivered);
            } else if match prev {
                Some(p) => id_in_step(p, id),
                None => true,
            } {
                lemma_delivered_blocks_whole(Some(id), rest, sent, delivered.push(block));
            }
        }
    }
}

/// The wire stream a sender emits when every block is acknowledged first
/// time: each remaining chunk framed under its sequence number, then
/// end-of-transmission.
pub open spec fn sender_wire(data: Seq<u8>, i: nat, id: u8, buf: Seq<u8>) -> Seq<u8>
    decreases num_chunks(data.len()) - i,
{
    if i >= num_chunks(data.len()) {
        seq![END_OF_TRANSMISSION]
    } else {
        let buf2 = load_chunk(buf, chunk_at(data, i as int));
        frame_bytes(id, buf2) + sender_wire(data, i + 1, wrap_inc(id), buf2)
    }
}

/// The blocks those frames carry, in order: each chunk padded by what the
/// buffer held before it.
pub open spec fn loaded_blocks(data: Seq<u8>, i: nat, buf: Seq<u8>) -> Seq<Seq<u8>>
    decreases num_chunks(data.len()) - i,
{
    if i >= num_chunks(data.len()) {
        Seq::empty()
    } else {
        let buf2 = load_chunk(buf, chunk_at(data, i as int));
        seq![buf2] + loaded_blocks(data, i + 1, buf2)
    }
}

/// A completed transfer delivers one block per started 128-byte chunk of the
/// payload.
pub proof fn lemma_loaded_blocks_count(data: Seq<u8>, i: nat, buf: Seq<u8>)
    requires
        i <= num_chunks(data.len()),
    ensures
        loaded_blocks(data, i, buf).len() == num_chunks(data.len()) - i,
    decreases num_chunks(data.len()) - i,
{
    if i < num_chunks(data.len()) {
        let buf2 = load_chunk(buf, chunk_at(data, i as int));
        lemma_loaded_blocks_count(data, i + 1, buf2);
    }
}

/// A peer that acknowledges every block first time draws the whole wire
/// stream out of the sender — one frame per chunk and the closing
/// end-of-transmission — and the transfer completes with the script consumed.
pub proof fn lemma_sender_completes_under_acks(
    data: Seq<u8>,
    i: nat,
    id: u8,
    buf: Seq<u8>,
    sent: Seq<u8>,
)
    requires
        i <= num_chunks(data.len()),
    ensures
        match send_blocks_model(
            data,
            i,
            id,
            buf,
            Seq::new((num_chunks(data.len()) - i + 1) as nat, |j: int| ACK),
            sent,
        ) {
            Some(t) => {
                &&& t.sent == sent + sender_wire(data, i, id, buf)
                &&& t.remaining == Seq::<u8>::empty()
                &&& t.outcome is Completed
            },
            None => false,
        },
    decreases num_chunks(data.len()) - i,
{
    let script = Seq::new((num_chunks(data.len()) - i + 1) as nat, |j: int| ACK);
    if i >= num_chunks(data.len()) {
        assert(script.len() == 1 && script[0] == ACK);
        assert(script.skip(1) =~= Seq::<u8>::empty());
        assert(sent.push(END_OF_TRANSMISSION) =~= sent + sender_wire(data, i, id, buf));
    } else {
        let buf2 = load_chunk(buf, chunk_at(data, i as int));
        let frame = frame_bytes(id, buf2);
        assert(script[0] == ACK);
        assert(script.skip(1) =~= Seq::new(
            (num_chunks(data.len()) - (i + 1) + 1) as nat,
            |j: int| ACK,
        ));
        lemma_sender_completes_under_acks(data, i + 1, wrap_inc(id), buf2, sent + frame);
        assert((sent + frame) + sender_wire(data, i + 1, wrap_inc(id), buf2) =~= sent + (frame
            + sender_wire(data, i + 1, wrap_inc(id), buf2)));
    }
}

/// The receiver accepts a sender's wire stream whole: every frame passes its
/// integrity checks and its id stays in step, so each block is delivered in
/// order, and the close is acknowledged twice.
pub proof fn lemma_receiver_accepts_sender_wire(
    data: Seq<u8>,
    i: nat,
    id: u8,
    buf: Seq<u8>,
    prev: Option<u8>,
    sent: Seq<u8>,
    delivered: Seq<Seq<u8>>,
)
    requires
        i <= num_chunks(data.len()),
        buf.len() == 128,
        match prev {
            Some(p) => id_in_step(p, id),
            None => true,
        },
    ensures
        match recv_loop_model(
            prev,
            sender_wire(data, i, id, buf) + seq![END_OF_TRANSMISSION_BLOCK],
            sent,
            delivered,
        ) {
            Some(t) => {
                &&& t.sent == sent.push(ACK).push(ACK)
                &&& t.remaining == Seq::<u8>::empty()
                &&& t.delivered == delivered + loaded_blocks(data, i, buf)
                &&& t.outcome is Completed
            },
            None => false,
        },
    decreases num_chunks(data.len()) - i,
{
    let script = sender_wire(data, i, id, buf) + seq![END_OF_TRANSMISSION_BLOCK];
    if i >= num_chunks(data.len()) {
        assert(script =~= seq![END_OF_TRANSMISSION, END_OF_TRANSMISSION_BLOCK]);
        assert(script.skip(1) =~= seq![END_OF_TRANSMISSION_BLOCK]);
        assert(script.skip(1).skip(1) =~= Seq::<u8>::empty());
        assert(delivered + loaded_blocks(data, i, buf) =~= delivered);
    } else {
        lemma_chunk_index(data.len(), i);
        let buf2 = load_chunk(buf, chunk_at(data, i as int));
        assert(buf2.len() == 128);
        let frame = frame_bytes(id, buf2);
        let c = crc16(buf2);
        let rest = sender_wire(data, i + 1, wrap_inc(id), buf2) + seq![END_OF_TRANSMISSION_BLOCK];
        assert(script =~= frame + rest);
        assert(frame.len() == 133);
        assert(frame[1] == id && frame[2] == !id);
        assert(frame.subrange(3, 131) =~= buf2);
        assert(frame[131] == crc_hi(c) && frame[132] == crc_lo(c));
        assert(((((c >> 8) as u8) as u16) << 8) | (((c & 0xff) as u8) as u16) == c)
            by (bit_vector);
        assert(crc_combine(crc_hi(c), crc_lo(c)) == c);
        let i2 = id;
        assert(i2 == !(!i2)) by (bit_vector);
        assert(frame_ok(frame[1], frame[2], frame.subrange(3, 131), frame[131], frame[132]));
        lemma_receiver_accepts_valid(prev, frame, rest, sent, delivered);
        lemma_receiver_accepts_sender_wire(
            data,
            i + 1,
            wrap_inc(id),
            buf2,
            Some(id),
            sent,
            delivered.push(buf2),
        );
        assert(delivered.push(buf2) + loaded_blocks(data, i + 1, buf2) =~= delivered + (seq![buf2]
            + loaded_blocks(data, i + 1, buf2)));
    }
}

/// The end-to-end round trip, for every payload: against a peer that
/// requests the transfer and acknowledges every block, the sender completes,
/// emitting one frame per chunk and the closing byte; and that same wire
/// stream, closed with end-of-transmission-block, is accepted whole by the
/// receiver, which delivers exactly the framed blocks, in order.
pub proof fn lemma_transfer_round_trip(data: Seq<u8>, buf: Seq<u8>)
    requires
        buf.len() == 128,
    ensures
        match send_model(
            data,
            buf,
            seq![CHECKSUM_REQUEST] + Seq::new((num_chunks(data.len()) + 1) as nat, |j: int| ACK),
        ) {
            Some(t) => {
                &&& t.sent == sender_wire(data, 0, 1, buf)
                &&& t.remaining == Seq::<u8>::empty()
                &&& t.outcome is Completed
            },
            None => false,
        },
        match recv_model(sender_wire(data, 0, 1, buf).push(END_OF_TRANSMISSION_BLOCK)) {
            Some(t) => {
                &&& t.sent == seq![CHECKSUM_REQUEST, ACK, ACK]
                &&& t.remaining == Seq::<u8>::empty()
                &&& t.delivered == loaded_blocks(data, 0, buf)
                &&& t.outcome is Completed
            },
            None => false,
        },
{
    let acks = Seq::new((num_chunks(data.len()) + 1) as nat, |j: int| ACK);
    let script = seq![CHECKSUM_REQUEST] + acks;
    assert(script[0] == CHECKSUM_REQUEST);
    assert(script.skip(1) =~= acks);
    lemma_sender_completes_under_acks(data, 0, 1, buf, Seq::empty());
    assert(Seq::empty() + sender_wire(data, 0, 1, buf) =~= sender_wire(data, 0, 1, buf));

    assert(sender_wire(data, 0, 1, buf).push(END_OF_TRANSMISSION_BLOCK) =~= sender_wire(
        data,
        0,
        1,
        buf,
    ) + seq![END_OF_TRANSMISSION_BLOCK]);
    lemma_receiver_accepts_sender_wire(data, 0, 1, buf, None, seq![CHECKSUM_REQUEST], Seq::empty());
    assert(seq![CHECKSUM_REQUEST].push(ACK).push(ACK) =~= seq![CHECKSUM_REQUEST, ACK, ACK]);
    assert(Seq::<Seq<u8>>::empty() + loaded_blocks(data, 0, buf) =~= loaded_blocks(data, 0, buf));
}

/// How a chunk index sits inside the data: chunk `i` starts before the end of
/// the data, and whether the next index is past the last chunk is decided by
/// where the next chunk boundary falls.
pub proof fn lemma_chunk_index(len: nat, i: nat)
    requires
        i < num_chunks(len),
    ensures
        128 * i < len,
        128 * (i + 1) >= len ==> i + 1 == num_chunks(len),
        128 * (i + 1) < len ==> i + 1 < num_chunks(len),
{
    let l: int = len as int;
    assert(l > 0);
    assert(i <= (l - 1) / 128);
    assert(128 * i <= l - 1) by (nonlinear_arith)
        requires
            i <= (l - 1) / 128,
            l > 0,
    ;
    if 128 * (i + 1) >= len {
        assert((l - 1) / 128 <= i) by (nonlinear_arith)
            requires
                128 * (i + 1) >= l,
                l > 0,
        ;
    }
    if 128 * (i + 1) < len {
        assert((l - 1) / 128 >= i + 1) by (nonlinear_arith)
            requires
                128 * (i + 1) <= l - 1,
        ;
    }
}

} // verus!
