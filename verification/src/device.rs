//! The byte transport capability: a duplex serial channel read and written one
//! byte at a time, each operation fallible with a transport-specific error.
//!
//! A device is modelled by two ghost byte sequences: `incoming`, the bytes the
//! device will deliver to `read` in order, and `sent`, the bytes written so
//! far. A failed operation leaves both sequences unchanged, so the engine's
//! contracts can speak of the transcript exactly. A device may also declare
//! itself `reliable` — failure-free — and on such a device the engine owes
//! the whole modelled exchange: a transport error can then never occur.

use vstd::prelude::*;

verus! {

/// A duplex byte channel: one blocking read of a single byte and one write of
/// a single byte, each fallible with a transport-specific error.
pub trait SerialDevice: Sized {
    type Error;

    /// The bytes this device has yet to deliver, in delivery order. An
    /// implementation outside the verified world may leave the default, which
    /// models a device that never delivers; a verified implementation
    /// overrides it, or its `read` could never return a byte.
    open spec fn incoming(&self) -> Seq<u8> {
        Seq::empty()
    }

    /// The bytes written to this device so far, in order. The default models
    /// a device that accepts nothing, as for `incoming`.
    open spec fn sent(&self) -> Seq<u8> {
        Seq::empty()
    }

    /// Whether this device is failure-free: a reliable device accepts every
    /// write and fails a read only when it has nothing left to deliver. On a
    /// reliable device, a transfer's outcome is decided by the bytes alone.
    /// The default promises nothing; a verified implementation that cannot
    /// fail overrides it.
    open spec fn reliable(&self) -> bool {
        false
    }

    /// Reads one byte. A successful read delivers the next incoming byte;
    /// a failed read leaves the device unchanged. A reliable device fails a
    /// read exactly when its incoming sequence is empty.
    fn read(&mut self) -> (r: Result<u8, Self::Error>)
        ensures
            final(self).sent() == old(self).sent(),
            final(self).reliable() == old(self).reliable(),
            match r {
                Ok(b) => old(self).incoming().len() > 0 && b == old(self).incoming()[0]
                    && final(self).incoming() == old(self).incoming().skip(1),
                Err(_) => final(self).incoming() == old(self).incoming(),
            },
            old(self).reliable() ==> (r is Ok <==> old(self).incoming().len() > 0),
    ;

    /// Writes one byte. A successful write appends it to the sent transcript;
    /// a failed write leaves the device unchanged. A reliable device accepts
    /// every write.
    fn write(&mut self, byte: u8) -> (r: Result<(), Self::Error>)
        ensures
            final(self).incoming() == old(self).incoming(),
            final(self).reliable() == old(self).reliable(),
            match r {
                Ok(_) => final(self).sent() == old(self).sent().push(byte),
                Err(_) => final(self).sent() == old(self).sent(),
            },
            old(self).reliable() ==> r is Ok,
    ;
}

/// The error of a `ScriptedTransport` whose script has run out: a real link
/// would block forever, a scripted one fails the read instead.
#[derive(Debug, Clone, Copy, PartialEq, Eq, Structural)]
pub struct ScriptExhausted;

/// An in-memory transport that delivers a fixed script of bytes and records
/// everything written to it. It stands in for the peer end of a transfer.
pub struct ScriptedTransport {
    script: Vec<u8>,
    written: Vec<u8>,
}

impl ScriptedTransport {
    /// A transport that will deliver exactly `script`, with nothing written yet.
    pub fn new(script: Vec<u8>) -> (r: ScriptedTransport)
        ensures
            r.incoming() == script@,
            r.sent() == Seq::<u8>::empty(),
            r.reliable(),
    {
        ScriptedTransport { script, written: Vec::new() }
    }

    /// The bytes written to this transport so far.
    pub fn written(&self) -> (r: &Vec<u8>)
        ensures
            r@ == self.sent(),
    {
        &self.written
    }

    /// The bytes this transport has yet to deliver.
    pub fn undelivered(&self) -> (r: &Vec<u8>)
        ensures
            r@ == self.incoming(),
    {
        &self.script
    }
}

impl SerialDevice for ScriptedTransport {
    type Error = ScriptExhausted;

    closed spec fn incoming(&self) -> Seq<u8> {
        self.script@
    }

    closed spec fn sent(&self) -> Seq<u8> {
        self.written@
    }

    /// A scripted transport never fails on its own: a read fails exactly on
    /// script exhaustion and every write is accepted.
    closed spec fn reliable(&self) -> bool {
        true
    }

    fn read(&mut self) -> (r: Result<u8, ScriptExhausted>)
        ensures
            final(self).sent() == old(self).sent(),
            final(self).reliable() == old(self).reliable(),
            r is Ok <==> old(self).incoming().len() > 0,
            match r {
                Ok(b) => old(self).incoming().len() > 0 && b == old(self).incoming()[0]
                    && final(self).incoming() == old(self).incoming().skip(1),
                Err(_) => final(self).incoming() == old(self).incoming(),
            },
    {
        if self.script.len() > 0 {
            let b = self.script.remove(0);
            proof {
                assert(old(self).script@.remove(0) =~= old(self).script@.skip(1));
            }
            Ok(b)
        } else {
            Err(ScriptExhausted)
        }
    }

    fn write(&mut self, byte: u8) -> (r: Result<(), ScriptExhausted>)
        ensures
            final(self).incoming() == old(self).incoming(),
            final(self).reliable() == old(self).reliable(),
            r is Ok,
            final(self).sent() == old(self).sent().push(byte),
    {
        self.written.push(byte);
        Ok(())
    }
}

} // verus!
