//! User input: the key-only projection of the event stream, and the
//! line-reading extensions of a byte source.

use vstd::prelude::*;
use vstd::utf8::decode_first_scalar;
use vstd::utf8::decode_utf8;
use vstd::utf8::length_of_first_scalar;
use vstd::utf8::pop_first_scalar;
use vstd::utf8::valid_first_scalar;
use vstd::utf8::valid_utf8;
use crate::event::Event;
use crate::event::EventView;
use crate::event::event_step;
use crate::event::lemma_event_step_bounds;
use crate::events::Events;
use crate::events::EventsAndRaw;
use crate::keys::Key;
use crate::source::ByteSource;
use crate::source::ReadError;

verus! {

/// The first key in the pending input, with the total number of bytes
/// consumed up to and including it: decode steps are taken one after the
/// other and non-key events are discarded.
pub open spec fn keys_step(s: Seq<u8>) -> Option<(Key, int)>
    decreases s.len(),
{
    if s.len() == 0 {
        None
    } else {
        let step = event_step(s);
        if 1 <= step.1 <= s.len() {
            match step.0 {
                EventView::Key(k) => Some((k, step.1)),
                _ => match keys_step(s.skip(step.1)) {
                    None => None,
                    Some((k2, m)) => Some((k2, step.1 + m)),
                },
            }
        } else {
            None
        }
    }
}

/// A found key always lies within the pending input, at least one byte
/// into it.
pub proof fn lemma_keys_step_pos(s: Seq<u8>)
    ensures
        match keys_step(s) {
            Some((k, m)) => 1 <= m <= s.len(),
            None => true,
        },
    decreases s.len(),
{
    if s.len() == 0 {
    } else {
        let step = event_step(s);
        if 1 <= step.1 <= s.len() {
            match step.0 {
                EventView::Key(k) => {
                },
                _ => {
                    lemma_keys_step_pos(s.skip(step.1));
                },
            }
        }
    }
}

/// An iterator over input keys: the event stream with mouse and
/// unsupported events discarded.
pub struct Keys<R> {
    iter: Events<R>,
}

impl<R: ByteSource> Keys<R> {
    /// The bytes still to be decoded.
    pub closed spec fn pending(&self) -> Seq<u8> {
        self.iter.pending()
    }

    /// Whether the underlying source is guaranteed never to fail.
    pub closed spec fn infallible(&self) -> bool {
        self.iter.infallible()
    }

    /// Wraps an event iterator.
    pub fn new(iter: Events<R>) -> (r: Keys<R>)
        ensures
            r.pending() == iter.pending(),
            r.infallible() == iter.infallible(),
    {
        Keys { iter }
    }

    /// Pulls the next key event, discarding any mouse or unsupported
    /// events before it; `None` when no key event remains. An error of
    /// the underlying source is surfaced immediately.
    #[verifier::loop_isolation(false)]
    pub fn next(&mut self) -> (r: Option<Result<Key, ReadError>>)
        ensures
            final(self).infallible() == old(self).infallible(),
            match r {
                None => keys_step(old(self).pending()) == None::<(Key, int)>,
                Some(Ok(k)) => match keys_step(old(self).pending()) {
                    Some((k0, m)) => k == k0 && final(self).pending() == old(self).pending().skip(
                        m,
                    ),
                    None => false,
                },
                Some(Err(_)) => !old(self).infallible(),
            },
    {
        let ghost pend0 = self.pending();
        let ghost mut off: int = 0;
        proof {
            assert(pend0.skip(0) =~= pend0);
            lemma_keys_step_pos(pend0);
        }
        loop
            invariant
                0 <= off <= pend0.len(),
                self.pending() == pend0.skip(off),
                self.infallible() == old(self).infallible(),
                match keys_step(pend0) {
                    None => keys_step(pend0.skip(off)) == None::<(Key, int)>,
                    Some((k, m)) => off <= m && keys_step(pend0.skip(off)) == Some((k, m - off)),
                },
            decreases pend0.len() - off,
        {
            let ghost pend_here = self.pending();
            match self.iter.next() {
                None => {
                    return None;
                },
                Some(Err(e)) => {
                    return Some(Err(e));
                },
                Some(Ok(ev)) => {
                    let ghost step = event_step(pend_here);
                    proof {
                        lemma_event_step_bounds(pend_here);
                        assert(pend_here.skip(step.1) =~= pend0.skip(off + step.1));
                    }
                    match ev {
                        Event::Key(k) => {
                            return Some(Ok(k));
                        },
                        _ => {
                            proof {
                                lemma_keys_step_pos(pend_here.skip(step.1));
                                off = off + step.1;
                            }
                        },
                    }
                },
            }
        }
    }
}

/// Extension to a byte source: event iteration and line reading.
///
/// Raw-mode control of the terminal device is an external collaborator's
/// concern; these methods only consume bytes the source already holds.
pub trait TermRead: ByteSource + Sized {
    /// An iterator over input events.
    fn events(self) -> (r: Events<Self>)
        ensures
            r.inner.source == self,
            r.inner.leftover == None::<u8>,
    ;

    /// An iterator over key inputs.
    fn keys(self) -> (r: Keys<Self>)
        ensures
            r.pending() == self.remaining(),
            r.infallible() == self.infallible(),
    ;

    /// Reads a line.
    ///
    /// EOT and ETX abort the prompt, yielding `Ok(None)`. Newline or
    /// carriage return complete the input; Backspace removes the byte
    /// before it. A line that is not valid UTF-8 is an `InvalidUtf8`
    /// error.
    fn read_line(&mut self) -> (r: Result<Option<String>, ReadError>)
        ensures
            final(self).infallible() == old(self).infallible(),
            ({
                let t = line_bytes(old(self).remaining(), Seq::empty());
                match r {
                    Ok(opt) => final(self).remaining() == old(self).remaining().skip(t.1) && match (
                        opt,
                        t.0,
                    ) {
                        (Some(line), Some(bytes)) => valid_utf8(bytes) && line@ == decode_utf8(
                            bytes,
                        ),
                        (None, None) => true,
                        _ => false,
                    },
                    Err(e) => !old(self).infallible() || (e == ReadError::InvalidUtf8
                        && final(self).remaining() == old(self).remaining().skip(t.1)
                        && (t.0 matches Some(bytes) && !valid_utf8(bytes))),
                }
            }),
    ;

    /// Reads a password: the same as [`TermRead::read_line`]. Putting the
    /// terminal into raw mode so that the input is not echoed is the
    /// caller's collaborator's concern, as all terminal-mode control is.
    fn read_passwd(&mut self) -> (r: Result<Option<String>, ReadError>)
        ensures
            final(self).infallible() == old(self).infallible(),
            ({
                let t = line_bytes(old(self).remaining(), Seq::empty());
                match r {
                    Ok(opt) => final(self).remaining() == old(self).remaining().skip(t.1) && match (
                        opt,
                        t.0,
                    ) {
                        (Some(line), Some(bytes)) => valid_utf8(bytes) && line@ == decode_utf8(
                            bytes,
                        ),
                        (None, None) => true,
                        _ => false,
                    },
                    Err(e) => !old(self).infallible() || (e == ReadError::InvalidUtf8
                        && final(self).remaining() == old(self).remaining().skip(t.1)
                        && (t.0 matches Some(bytes) && !valid_utf8(bytes))),
                }
            }),
    ;
}

/// Extension to [`TermRead`]: event iteration paired with the raw bytes.
/// A separate trait in order to maintain backwards compatibility.
pub trait TermReadEventsAndRaw: ByteSource + Sized {
    /// An iterator over input events and the bytes that define them.
    fn events_and_raw(self) -> (r: EventsAndRaw<Self>)
        ensures
            r.source == self,
            r.leftover == None::<u8>,
    ;
}

/// The line-reading automaton over the pending bytes, starting from the
/// collected bytes `acc`: the collected line (`None` when aborted by
/// NUL, ETX or EOT) and the number of bytes consumed. Backspace removes
/// the collected byte before it; newline, carriage return or the end of
/// the stream complete the line.
pub open spec fn line_bytes(s: Seq<u8>, acc: Seq<u8>) -> (Option<Seq<u8>>, int)
    decreases s.len(),
{
    if s.len() == 0 {
        (Some(acc), 0)
    } else {
        let b = s[0];
        if b == 0 || b == 3 || b == 4 {
            (None, 1)
        } else if b == 0x0a || b == 0x0d {
            (Some(acc), 1)
        } else {
            let acc2 = if b == 0x7f {
                if acc.len() > 0 {
                    acc.drop_last()
                } else {
                    acc
                }
            } else {
                acc.push(b)
            };
            let t = line_bytes(s.skip(1), acc2);
            (t.0, 1 + t.1)
        }
    }
}

/// Relies on `String::push` of std: it appends the given character to
/// the end of the string.
#[verifier::external_body]
fn push_char(s: &mut String, c: char)
    ensures
        final(s)@ == old(s)@.push(c),
{
    s.push(c);
}

/// Decodes the UTF-8 scalar starting at index `i` of `bytes`: the
/// character and its width on success, `None` when no well-formed
/// scalar encoding starts there.
fn decode_scalar_at(bytes: &Vec<u8>, i: usize) -> (r: Option<(char, usize)>)
    requires
        i < bytes@.len(),
    ensures
        ({
            let w = bytes@.skip(i as int);
            match r {
                Some((c, n)) => valid_first_scalar(w) && c as u32 == decode_first_scalar(w) && n
                    == length_of_first_scalar(w) && i + n <= bytes@.len(),
                None => !valid_first_scalar(w),
            }
        }),
{
    let ghost w = bytes@.skip(i as int);
    let lead = bytes[i];
    proof {
        assert(w[0] == lead);
    }
    if lead < 0x80 {
        proof {
            assert(lead & 0x7f == lead) by (bit_vector)
                requires
                    lead < 0x80,
            ;
            assert(valid_first_scalar(w));
        }
        return Some((lead as char, 1));
    }
    let width: usize = if 0xc0 <= lead && lead <= 0xdf {
        2
    } else if 0xe0 <= lead && lead <= 0xef {
        3
    } else if 0xf0 <= lead && lead <= 0xf7 {
        4
    } else {
        return None;
    };
    if bytes.len() - i < width {
        return None;
    }
    let b1 = bytes[i + 1];
    proof {
        assert(w[1] == b1);
    }
    if !(0x80 <= b1 && b1 <= 0xbf) {
        return None;
    }
    if width == 2 {
        let cp: u32 = (((lead & 0x1f) as u32) << 6u32) | ((b1 & 0x3f) as u32);
        proof {
            assert(cp == vstd::utf8::codepoint_width_2(lead, b1));
        }
        proof {
            assert(cp <= 0x7ff) by (bit_vector)
                requires
                    cp == (((lead & 0x1f) as u32) << 6u32) | ((b1 & 0x3f) as u32),
            ;
        }
        if cp < 0x80 {
            return None;
        }
        let c = crate::decode::char_from_u32(cp);
        let ch = c.unwrap();
        proof {
            vstd::utf8::char_u32_cast(ch, cp);
            assert(valid_first_scalar(w));
        }
        return Some((ch, 2));
    }
    let b2 = bytes[i + 2];
    proof {
        assert(w[2] == b2);
    }
    if !(0x80 <= b2 && b2 <= 0xbf) {
        return None;
    }
    if width == 3 {
        let cp: u32 = (((lead & 0x0f) as u32) << 12u32) | (((b1 & 0x3f) as u32) << 6u32) | ((b2
            & 0x3f) as u32);
        proof {
            assert(cp == vstd::utf8::codepoint_width_3(lead, b1, b2));
        }
        proof {
            assert(cp <= 0xffff) by (bit_vector)
                requires
                    cp == (((lead & 0x0f) as u32) << 12u32) | (((b1 & 0x3f) as u32) << 6u32) | ((b2
                        & 0x3f) as u32),
            ;
        }
        if cp < 0x800 || (0xd800 <= cp && cp <= 0xdfff) {
            return None;
        }
        let c = crate::decode::char_from_u32(cp);
        let ch = c.unwrap();
        proof {
            vstd::utf8::char_u32_cast(ch, cp);
            assert(valid_first_scalar(w));
        }
        return Some((ch, 3));
    }
    let b3 = bytes[i + 3];
    proof {
        assert(w[3] == b3);
    }
    if !(0x80 <= b3 && b3 <= 0xbf) {
        return None;
    }
    let cp: u32 = (((lead & 0x07) as u32) << 18u32) | (((b1 & 0x3f) as u32) << 12u32) | (((b2
        & 0x3f) as u32) << 6u32) | ((b3 & 0x3f) as u32);
    proof {
        assert(cp == vstd::utf8::codepoint_width_4(lead, b1, b2, b3));
    }
    if cp < 0x10000 || cp > 0x10ffff {
        return None;
    }
    let c = crate::decode::char_from_u32(cp);
    let ch = c.unwrap();
    proof {
        vstd::utf8::char_u32_cast(ch, cp);
        assert(valid_first_scalar(w));
    }
    Some((ch, 4))
}

/// Decodes a byte buffer as UTF-8, exactly when it is valid UTF-8.
#[verifier::loop_isolation(false)]
fn bytes_to_string(bytes: &Vec<u8>) -> (r: Option<String>)
    ensures
        match r {
            Some(s) => valid_utf8(bytes@) && s@ == decode_utf8(bytes@),
            None => !valid_utf8(bytes@),
        },
{
    let mut out = String::new();
    let mut i: usize = 0;
    proof {
        assert(bytes@.skip(0) =~= bytes@);
    }
    while i < bytes.len()
        invariant
            0 <= i <= bytes.len(),
            valid_utf8(bytes@) <==> valid_utf8(bytes@.skip(i as int)),
            valid_utf8(bytes@.skip(i as int)) ==> decode_utf8(bytes@) == out@ + decode_utf8(
                bytes@.skip(i as int),
            ),
        decreases bytes.len() - i,
    {
        let ghost w = bytes@.skip(i as int);
        match decode_scalar_at(bytes, i) {
            None => {
                proof {
                    assert(!valid_utf8(bytes@.skip(i as int)));
                }
                return None;
            },
            Some((c, n)) => {
                proof {
                    assert(pop_first_scalar(w) =~= bytes@.skip(i + n));
                    vstd::utf8::char_u32_cast(c, decode_first_scalar(w));
                    if valid_utf8(w) {
                        assert(decode_utf8(w) == seq![c] + decode_utf8(bytes@.skip(i + n)));
                        assert(out@ + decode_utf8(w) =~= out@.push(c) + decode_utf8(
                            bytes@.skip(i + n),
                        ));
                    }
                }
                push_char(&mut out, c);
                i = i + n;
            },
        }
    }
    proof {
        assert(bytes@.skip(bytes@.len() as int) =~= Seq::<u8>::empty());
        assert(decode_utf8(Seq::<u8>::empty()) =~= Seq::<char>::empty());
        assert(out@ + Seq::<char>::empty() =~= out@);
    }
    Some(out)
}

impl<R: ByteSource> TermRead for R {
    fn events(self) -> (r: Events<Self>) {
        Events { inner: EventsAndRaw { source: self, leftover: None } }
    }

    fn keys(self) -> (r: Keys<Self>) {
        let ghost rem = self.remaining();
        let ghost inf = self.infallible();
        let ev = self.events();
        proof {
            assert(ev.pending() =~= rem);
        }
        Keys::new(ev)
    }

    #[verifier::loop_isolation(false)]
    fn read_line(&mut self) -> (r: Result<Option<String>, ReadError>) {
        let ghost rem0 = old(self).remaining();
        let mut buf: Vec<u8> = Vec::new();
        let ghost mut off: int = 0;
        proof {
            assert(rem0.skip(0) =~= rem0);
            assert(buf@ =~= Seq::<u8>::empty());
        }
        loop
            invariant
                0 <= off <= rem0.len(),
                self.remaining() == rem0.skip(off),
                self.infallible() == old(self).infallible(),
                line_bytes(rem0, Seq::empty()).0 == line_bytes(rem0.skip(off), buf@).0,
                line_bytes(rem0, Seq::empty()).1 == off + line_bytes(rem0.skip(off), buf@).1,
            decreases rem0.len() - off,
        {
            let b = match self.read_byte() {
                Err(e) => return Err(e),
                Ok(None) => {
                    proof {
                        assert(rem0.skip(off).len() == 0);
                    }
                    break ;
                },
                Ok(Some(b)) => b,
            };
            proof {
                assert(rem0.skip(off)[0] == b);
                assert(rem0.skip(off).skip(1) =~= rem0.skip(off + 1));
            }
            if b == 0 || b == 3 || b == 4 {
                proof {
                    assert(line_bytes(rem0, Seq::empty()).0 == None::<Seq<u8>>);
                    assert(line_bytes(rem0, Seq::empty()).1 == off + 1);
                }
                return Ok(None);
            } else if b == 0x0a || b == 0x0d {
                proof {
                    assert(line_bytes(rem0, Seq::empty()).0 == Some(buf@));
                    assert(line_bytes(rem0, Seq::empty()).1 == off + 1);
                }
                proof {
                    off = off + 1;
                }
                break ;
            } else if b == 0x7f {
                if buf.len() > 0 {
                    buf.pop();
                }
                proof {
                    off = off + 1;
                }
            } else {
                buf.push(b);
                proof {
                    off = off + 1;
                }
            }
        }
        proof {
            assert(line_bytes(rem0, Seq::empty()).0 == Some(buf@));
            assert(line_bytes(rem0, Seq::empty()).1 == off);
        }
        match bytes_to_string(&buf) {
            Some(line) => Ok(Some(line)),
            None => Err(ReadError::InvalidUtf8),
        }
    }

    fn read_passwd(&mut self) -> (r: Result<Option<String>, ReadError>) {
        self.read_line()
    }
}

impl<R: ByteSource> TermReadEventsAndRaw for R {
    fn events_and_raw(self) -> (r: EventsAndRaw<Self>) {
        EventsAndRaw { source: self, leftover: None }
    }
}

} // verus!
