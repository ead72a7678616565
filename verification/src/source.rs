//! The pull-based byte source that feeds the decoder.

use vstd::prelude::*;

verus! {

/// A failure surfaced by a pull on a byte source.
#[derive(Debug, Clone, Copy, PartialEq, Eq)]
pub enum ReadError {
    /// The underlying byte source could not produce a byte.
    Source,
    /// The collected line was not valid UTF-8.
    InvalidUtf8,
}

/// The contents of an optional carried-over byte, as a byte sequence.
pub open spec fn opt_seq(o: Option<u8>) -> Seq<u8> {
    match o {
        Some(b) => seq![b],
        None => Seq::empty(),
    }
}

/// A capability that produces bytes, fallibly, on demand.
///
/// The decoder is polymorphic over this capability rather than tied to a
/// concrete I/O type, so tests and callers can drive it from in-memory
/// buffers. A source is a queue of bytes still to come (`remaining`); a
/// pull either hands out the front byte, reports the end of the stream,
/// or fails. A source whose `infallible` spec holds never fails.
pub trait ByteSource {
    /// The bytes this source will still produce, in order.
    spec fn remaining(&self) -> Seq<u8>;

    /// Whether every future pull on this source is guaranteed to succeed.
    spec fn infallible(&self) -> bool;

    /// Pulls the next byte: `Ok(Some(_))` hands out the front of
    /// `remaining`, `Ok(None)` reports the end of the stream, and `Err`
    /// surfaces a failure of the source without consuming anything.
    fn read_byte(&mut self) -> (r: Result<Option<u8>, ReadError>)
        ensures
            final(self).infallible() == old(self).infallible(),
            match r {
                Ok(Some(b)) => old(self).remaining().len() > 0
                    && b == old(self).remaining()[0]
                    && final(self).remaining() == old(self).remaining().skip(1),
                Ok(None) => old(self).remaining().len() == 0
                    && final(self).remaining() == old(self).remaining(),
                Err(_) => !old(self).infallible()
                    && final(self).remaining() == old(self).remaining(),
            },
    ;
}

/// An owned byte buffer is the canonical in-memory source: it produces
/// its bytes front to back and never fails.
impl ByteSource for Vec<u8> {
    open spec fn remaining(&self) -> Seq<u8> {
        self@
    }

    open spec fn infallible(&self) -> bool {
        true
    }

    fn read_byte(&mut self) -> (r: Result<Option<u8>, ReadError>) {
        if self.len() > 0 {
            let b = self.remove(0);
            proof {
                assert(self@ =~= old(self)@.skip(1));
            }
            Ok(Some(b))
        } else {
            Ok(None)
        }
    }
}

/// The bytes still pending in front of a source: a carried-over byte, if
/// any, followed by everything the source will produce.
pub open spec fn pending_of<R: ByteSource>(extra: Option<u8>, source: R) -> Seq<u8> {
    opt_seq(extra) + source.remaining()
}

} // verus!
