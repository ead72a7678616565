//! The streaming disambiguator: iterators that pull decoded events, with
//! or without their raw byte captures, from an owned byte source.

use vstd::prelude::*;
use crate::decode::parse_event;
use crate::event::Event;
use crate::event::EventView;
use crate::event::event_step;
use crate::event::lemma_event_step_bounds;
use crate::keys::Key;
use crate::source::ByteSource;
use crate::source::ReadError;
use crate::source::opt_seq;
use crate::source::pending_of;

verus! {

/// An iterator over input events and the bytes that define them.
///
/// It owns the underlying byte source together with the one carried-over
/// byte that disambiguation may leave behind, and that is all the state
/// a pull needs: each call to [`EventsAndRaw::next`] consumes an exact
/// prefix of the pending bytes and hands it back as the raw capture.
pub struct EventsAndRaw<R> {
    /// The underlying byte source.
    pub source: R,
    /// A byte read speculatively during disambiguation but not yet
    /// consumed by a decode, kept for the next pull.
    pub leftover: Option<u8>,
}

/// An iterator over input events.
pub struct Events<R> {
    /// The raw-pairing iterator this one delegates to.
    pub inner: EventsAndRaw<R>,
}

impl<R: ByteSource> EventsAndRaw<R> {
    /// The bytes still to be decoded: the carried-over byte, if any,
    /// followed by everything the source will produce.
    pub open spec fn pending(&self) -> Seq<u8> {
        opt_seq(self.leftover) + self.source.remaining()
    }

    /// Whether the underlying source is guaranteed never to fail.
    pub open spec fn infallible(&self) -> bool {
        self.source.infallible()
    }

    /// Pulls the next event together with the exact raw bytes consumed
    /// to produce it: one decode step of the pending input. `None` is
    /// the end of the stream; an error of the underlying source is
    /// surfaced immediately. Appending the raw capture to the bytes
    /// still pending reconstructs the pending input exactly.
    pub fn next(&mut self) -> (r: Option<Result<(Event, Vec<u8>), ReadError>>)
        ensures
            final(self).infallible() == old(self).infallible(),
            match r {
                None => old(self).pending().len() == 0 && final(self).pending() == old(
                    self,
                ).pending(),
                Some(Ok((ev, raw))) => ({
                    let step = event_step(old(self).pending());
                    old(self).pending().len() > 0 && ev@ == step.0 && raw@ == old(
                        self,
                    ).pending().take(step.1) && final(self).pending() == old(self).pending().skip(
                        step.1,
                    ) && raw@ + final(self).pending() == old(self).pending()
                }),
                Some(Err(_)) => !old(self).infallible(),
            },
    {
        let ghost pend0 = self.pending();
        let cur = self.leftover;
        match cur {
            Some(c) => {
                self.leftover = None;
                proof {
                    assert(seq![c] + pending_of(self.leftover, self.source) =~= pend0);
                }
                let r = parse_event(c, &mut self.leftover, &mut self.source);
                proof {
                    if r is Ok {
                        lemma_event_step_bounds(pend0);
                        let n = event_step(pend0).1;
                        assert(pend0.take(n) + pend0.skip(n) =~= pend0);
                    }
                }
                Some(r)
            },
            None => {
                match self.source.read_byte() {
                    Err(e) => Some(Err(e)),
                    Ok(None) => {
                        proof {
                            assert(pend0.len() == 0);
                            assert(self.pending() =~= pend0);
                        }
                        None
                    },
                    Ok(Some(b0)) => {
                        proof {
                            assert(pend0 =~= seq![b0] + self.source.remaining());
                        }
                        match self.source.read_byte() {
                            Err(e) => Some(Err(e)),
                            Ok(None) => {
                                if b0 == 0x1b {
                                    let mut raw: Vec<u8> = Vec::new();
                                    raw.push(0x1b);
                                    proof {
                                        assert(pend0 =~= seq![0x1bu8]);
                                        assert(raw@ =~= pend0.take(1));
                                        assert(self.pending() =~= pend0.skip(1));
                                        assert(raw@ + self.pending() =~= pend0);
                                    }
                                    Some(Ok((Event::Key(Key::Esc), raw)))
                                } else {
                                    proof {
                                        assert(seq![b0] + pending_of(
                                            self.leftover,
                                            self.source,
                                        ) =~= pend0);
                                    }
                                    let r = parse_event(b0, &mut self.leftover, &mut self.source);
                                    proof {
                                        if r is Ok {
                                            lemma_event_step_bounds(pend0);
                                            let n = event_step(pend0).1;
                                            assert(pend0.take(n) + pend0.skip(n) =~= pend0);
                                        }
                                    }
                                    Some(r)
                                }
                            },
                            Ok(Some(b1)) => {
                                self.leftover = Some(b1);
                                proof {
                                    assert(seq![b0] + pending_of(
                                        self.leftover,
                                        self.source,
                                    ) =~= pend0);
                                }
                                let r = parse_event(b0, &mut self.leftover, &mut self.source);
                                proof {
                                    if r is Ok {
                                        lemma_event_step_bounds(pend0);
                                        let n = event_step(pend0).1;
                                        assert(pend0.take(n) + pend0.skip(n) =~= pend0);
                                    }
                                }
                                Some(r)
                            },
                        }
                    },
                }
            },
        }
    }
}

impl<R: ByteSource> Events<R> {
    /// The bytes still to be decoded.
    pub open spec fn pending(&self) -> Seq<u8> {
        self.inner.pending()
    }

    /// Whether the underlying source is guaranteed never to fail.
    pub open spec fn infallible(&self) -> bool {
        self.inner.infallible()
    }

    /// Pulls the next event: one decode step of the pending input, with
    /// the raw capture discarded.
    pub fn next(&mut self) -> (r: Option<Result<Event, ReadError>>)
        ensures
            final(self).infallible() == old(self).infallible(),
            match r {
                None => old(self).pending().len() == 0 && final(self).pending() == old(
                    self,
                ).pending(),
                Some(Ok(ev)) => ({
                    let step = event_step(old(self).pending());
                    old(self).pending().len() > 0 && ev@ == step.0 && final(self).pending() == old(
                        self,
                    ).pending().skip(step.1)
                }),
                Some(Err(_)) => !old(self).infallible(),
            },
    {
        match self.inner.next() {
            None => None,
            Some(Ok((ev, _))) => Some(Ok(ev)),
            Some(Err(e)) => Some(Err(e)),
        }
    }
}

/// The full event stream that a byte sequence decodes to: each event
/// paired with the raw bytes consumed to produce it, decode step after
/// decode step until the input is exhausted.
pub open spec fn stream_events(s: Seq<u8>) -> Seq<(EventView, Seq<u8>)>
    decreases s.len(),
{
    if s.len() == 0 {
        Seq::empty()
    } else {
        let step = event_step(s);
        if 1 <= step.1 <= s.len() {
            seq![(step.0, s.take(step.1))] + stream_events(s.skip(step.1))
        } else {
            Seq::empty()
        }
    }
}

/// The concatenation of the raw captures of an event stream.
pub open spec fn concat_raws(evs: Seq<(EventView, Seq<u8>)>) -> Seq<u8>
    decreases evs.len(),
{
    if evs.len() == 0 {
        Seq::empty()
    } else {
        evs[0].1 + concat_raws(evs.skip(1))
    }
}

/// Decoding is a pure function of the pending bytes: the event and raw
/// capture that one pull yields, as [`EventsAndRaw::next`] promises them,
/// are exactly the head of `stream_events` of the pending input, and the
/// bytes left behind decode to its tail. Decoding a fixed buffer twice
/// from fresh decoders therefore produces an identical event sequence.
pub proof fn lemma_stream_head(s: Seq<u8>)
    requires
        s.len() > 0,
    ensures
        ({
            let step = event_step(s);
            stream_events(s).len() >= 1 && stream_events(s)[0] == (step.0, s.take(step.1))
                && stream_events(s).skip(1) == stream_events(s.skip(step.1))
        }),
{
    lemma_event_step_bounds(s);
    let step = event_step(s);
    assert((seq![(step.0, s.take(step.1))] + stream_events(s.skip(step.1))).skip(1)
        =~= stream_events(s.skip(step.1)));
}

/// Byte-exactness: for any input byte sequence, concatenating the raw
/// captures of every event it decodes to reconstructs the input exactly,
/// with no gaps, no duplication and no reordering.
pub proof fn lemma_byte_exactness(s: Seq<u8>)
    ensures
        concat_raws(stream_events(s)) == s,
    decreases s.len(),
{
    if s.len() == 0 {
        assert(concat_raws(stream_events(s)) =~= s);
    } else {
        lemma_event_step_bounds(s);
        let step = event_step(s);
        let n = step.1;
        lemma_byte_exactness(s.skip(n));
        assert((seq![(step.0, s.take(n))] + stream_events(s.skip(n))).skip(1) =~= stream_events(
            s.skip(n),
        ));
        assert(concat_raws(stream_events(s)) == s.take(n) + concat_raws(stream_events(s.skip(n))));
        assert(s.take(n) + s.skip(n) =~= s);
    }
}

} // verus!
