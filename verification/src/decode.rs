//! The executable sequence grammar decoder, verified against the spec
//! grammar of [`crate::event`].

use vstd::prelude::*;
use vstd::utf8::codepoint_width_2;
use vstd::utf8::codepoint_width_3;
use vstd::utf8::codepoint_width_4;
use vstd::utf8::decode_first_scalar;
use vstd::utf8::is_scalar;
use vstd::utf8::length_of_first_scalar;
use vstd::utf8::valid_first_scalar;
use crate::event::all_digits;
use crate::event::csi_tail;
use crate::event::dec_u16;
use crate::event::dec_val;
use crate::event::event_step;
use crate::event::is_digit;
use crate::event::is_final_byte;
use crate::event::final_stop;
use crate::event::sgr_stop;
use crate::event::is_sgr_end;
use crate::event::lemma_dec_val_grows;
use crate::event::lemma_scan_len_is;
use crate::event::lemma_semi_fields_len;
use crate::event::lemma_semi_fields_unfold;
use crate::event::lemma_sgr_tail_bounds;
use crate::event::lemma_num_tail_bounds;
use crate::event::num_tail;
use crate::event::prepend_first;
use crate::event::scan_len;
use crate::event::semi_fields;
use crate::event::sgr_tail;
use crate::event::utf8_tail;
use crate::event::utf8_consumed;
use crate::event::utf8_width;
use crate::event::x10_tail;
use crate::event::Event;
use crate::event::EventView;
use crate::keys::Key;
use crate::keys::MouseButton;
use crate::keys::MouseEvent;
use crate::source::ByteSource;
use crate::source::ReadError;
use crate::source::pending_of;

verus! {

/// Relies on `char::from_u32` of std: it returns `Some` exactly for
/// Unicode scalar values, and the returned character has the given value.
#[verifier::external_body]
pub(crate) fn char_from_u32(v: u32) -> (r: Option<char>)
    ensures
        r is Some <==> is_scalar(v),
        match r {
            Some(c) => c as u32 == v,
            None => true,
        },
{
    char::from_u32(v)
}

/// Pulls one byte from the pending input: the carried-over byte first,
/// then the live source. A pulled byte is appended to the raw capture.
pub(crate) fn pull<R: ByteSource>(
    extra: &mut Option<u8>,
    source: &mut R,
    buf: &mut Vec<u8>,
) -> (r: Result<Option<u8>, ReadError>)
    ensures
        final(source).infallible() == old(source).infallible(),
        match r {
            Ok(Some(b)) => pending_of(*old(extra), *old(source)).len() > 0
                && b == pending_of(*old(extra), *old(source))[0]
                && pending_of(*final(extra), *final(source)) == pending_of(
                *old(extra),
                *old(source),
            ).skip(1)
                && final(buf)@ == old(buf)@.push(b),
            Ok(None) => pending_of(*old(extra), *old(source)).len() == 0
                && pending_of(*final(extra), *final(source)) == pending_of(
                *old(extra),
                *old(source),
            )
                && final(buf)@ == old(buf)@,
            Err(_) => !old(source).infallible()
                && pending_of(*final(extra), *final(source)) == pending_of(
                *old(extra),
                *old(source),
            )
                && final(buf)@ == old(buf)@,
        },
{
    let cur = *extra;
    match cur {
        Some(b) => {
            *extra = None;
            buf.push(b);
            proof {
                assert(pending_of(None::<u8>, *source) =~= pending_of(Some(b), *old(source)).skip(
                    1,
                ));
            }
            Ok(Some(b))
        },
        None => {
            match source.read_byte() {
                Ok(Some(b)) => {
                    buf.push(b);
                    proof {
                        assert(pending_of(None::<u8>, *source) =~= pending_of(
                            None::<u8>,
                            *old(source),
                        ).skip(1));
                    }
                    Ok(Some(b))
                },
                Ok(None) => Ok(None),
                Err(e) => Err(e),
            }
        },
    }
}

/// Decodes one UTF-8 scalar whose lead byte has already been consumed,
/// pulling exactly the continuation bytes the lead announces; a malformed
/// or truncated encoding yields `Ok(None)` after consuming the bytes that
/// [`utf8_consumed`] names.
fn parse_utf8_char<R: ByteSource>(
    lead: u8,
    extra: &mut Option<u8>,
    source: &mut R,
    buf: &mut Vec<u8>,
) -> (r: Result<Option<char>, ReadError>)
    ensures
        final(source).infallible() == old(source).infallible(),
        ({
            let rem0 = pending_of(*old(extra), *old(source));
            let w = seq![lead] + rem0;
            let step = utf8_tail(w);
            match r {
                Ok(c) => c == step.0 && final(buf)@ == old(buf)@ + rem0.take(step.1 - 1) && pending_of(
                    *final(extra),
                    *final(source),
                ) == rem0.skip(step.1 - 1),
                Err(_) => !old(source).infallible(),
            }
        }),
{
    let ghost rem0 = pending_of(*old(extra), *old(source));
    let ghost w = seq![lead] + rem0;
    proof {
        assert(w[0] == lead);
        assert(w.skip(1) =~= rem0);
    }
    if lead < 0x80 {
        proof {
            assert(lead & 0x7f == lead) by (bit_vector)
                requires
                    lead < 0x80,
            ;
            assert(valid_first_scalar(w));
            assert(length_of_first_scalar(w) == 1);
            assert(rem0.take(0) =~= Seq::<u8>::empty());
            assert(rem0.skip(0) =~= rem0);
            assert(buf@ =~= buf@ + Seq::<u8>::empty());
        }
        return Ok(Some(lead as char));
    }
    let width: usize = if 0xc0 <= lead && lead <= 0xdf {
        2
    } else if 0xe0 <= lead && lead <= 0xef {
        3
    } else if 0xf0 <= lead && lead <= 0xf7 {
        4
    } else {
        0
    };
    if width == 0 {
        proof {
            assert(!valid_first_scalar(w));
            assert(utf8_consumed(w) == 1);
            assert(rem0.take(0) =~= Seq::<u8>::empty());
            assert(rem0.skip(0) =~= rem0);
            assert(buf@ =~= buf@ + Seq::<u8>::empty());
        }
        return Ok(None);
    }
    proof {
        assert(utf8_width(lead) == width);
    }
    // First continuation byte.
    let b1 = match pull(extra, source, buf) {
        Err(e) => return Err(e),
        Ok(None) => {
            proof {
                assert(w.len() == 1);
                assert(!valid_first_scalar(w));
                assert(utf8_consumed(w) == 1);
                assert(rem0.take(0) =~= Seq::<u8>::empty());
                assert(buf@ =~= buf@ + Seq::<u8>::empty());
            }
            return Ok(None);
        },
        Ok(Some(b)) => b,
    };
    proof {
        assert(w[1] == b1);
    }
    if !(0x80 <= b1 && b1 <= 0xbf) {
        proof {
            assert(!valid_first_scalar(w));
            assert(utf8_consumed(w) == 2);
            assert(rem0.take(1) =~= seq![b1]);
            assert(buf@ =~= old(buf)@ + rem0.take(1));
            assert(pending_of(*extra, *source) =~= rem0.skip(1));
        }
        return Ok(None);
    }
    if width == 2 {
        let cp: u32 = (((lead & 0x1f) as u32) << 6u32) | ((b1 & 0x3f) as u32);
        proof {
            assert(cp == codepoint_width_2(lead, b1));
            assert(cp <= 0x7ff) by (bit_vector)
                requires
                    cp == (((lead & 0x1f) as u32) << 6u32) | ((b1 & 0x3f) as u32),
            ;
        }
        if cp < 0x80 {
            proof {
                assert(!valid_first_scalar(w));
                assert(utf8_consumed(w) == 2);
                assert(rem0.take(1) =~= seq![b1]);
                assert(pending_of(*extra, *source) =~= rem0.skip(1));
            }
            return Ok(None);
        }
        let c = char_from_u32(cp);
        let ch = c.unwrap();
        proof {
            vstd::utf8::char_u32_cast(ch, cp);
            assert(valid_first_scalar(w));
            assert(decode_first_scalar(w) == cp);
            assert(length_of_first_scalar(w) == 2);
            assert(rem0.take(1) =~= seq![b1]);
            assert(pending_of(*extra, *source) =~= rem0.skip(1));
        }
        return Ok(Some(ch));
    }
    // Second continuation byte.
    let ghost rem1 = pending_of(*extra, *source);
    let b2 = match pull(extra, source, buf) {
        Err(e) => return Err(e),
        Ok(None) => {
            proof {
                assert(w.len() == 2);
                assert(!valid_first_scalar(w));
                assert(utf8_consumed(w) == 2);
                assert(rem0.take(1) =~= seq![b1]);
                assert(pending_of(*extra, *source) =~= rem0.skip(1));
            }
            return Ok(None);
        },
        Ok(Some(b)) => b,
    };
    proof {
        assert(rem1 =~= rem0.skip(1));
        assert(w[2] == rem0[1]);
        assert(w[2] == b2);
        assert(rem0.take(2) =~= seq![b1, b2]);
        assert(buf@ =~= old(buf)@ + rem0.take(2));
        assert(pending_of(*extra, *source) =~= rem0.skip(2));
    }
    if !(0x80 <= b2 && b2 <= 0xbf) {
        proof {
            assert(!valid_first_scalar(w));
            assert(utf8_consumed(w) == 3);
        }
        return Ok(None);
    }
    if width == 3 {
        let cp: u32 = (((lead & 0x0f) as u32) << 12u32) | (((b1 & 0x3f) as u32) << 6u32) | ((b2
            & 0x3f) as u32);
        proof {
            assert(cp == codepoint_width_3(lead, b1, b2));
            assert(cp <= 0xffff) by (bit_vector)
                requires
                    cp == (((lead & 0x0f) as u32) << 12u32) | (((b1 & 0x3f) as u32) << 6u32) | ((b2
                        & 0x3f) as u32),
            ;
        }
        if cp < 0x800 || (0xd800 <= cp && cp <= 0xdfff) {
            proof {
                assert(!valid_first_scalar(w));
                assert(utf8_consumed(w) == 3);
            }
            return Ok(None);
        }
        let c = char_from_u32(cp);
        let ch = c.unwrap();
        proof {
            vstd::utf8::char_u32_cast(ch, cp);
            assert(valid_first_scalar(w));
            assert(decode_first_scalar(w) == cp);
            assert(length_of_first_scalar(w) == 3);
        }
        return Ok(Some(ch));
    }
    // Third continuation byte.
    let ghost rem2 = pending_of(*extra, *source);
    let b3 = match pull(extra, source, buf) {
        Err(e) => return Err(e),
        Ok(None) => {
            proof {
                assert(w.len() == 3);
                assert(!valid_first_scalar(w));
                assert(utf8_consumed(w) == 3);
            }
            return Ok(None);
        },
        Ok(Some(b)) => b,
    };
    proof {
        assert(rem2 =~= rem0.skip(2));
        assert(w[3] == rem0[2]);
        assert(w[3] == b3);
        assert(rem0.take(3) =~= seq![b1, b2, b3]);
        assert(buf@ =~= old(buf)@ + rem0.take(3));
        assert(pending_of(*extra, *source) =~= rem0.skip(3));
    }
    if !(0x80 <= b3 && b3 <= 0xbf) {
        proof {
            assert(!valid_first_scalar(w));
            assert(utf8_consumed(w) == 4);
        }
        return Ok(None);
    }
    let cp: u32 = (((lead & 0x07) as u32) << 18u32) | (((b1 & 0x3f) as u32) << 12u32) | (((b2
        & 0x3f) as u32) << 6u32) | ((b3 & 0x3f) as u32);
    proof {
        assert(cp == codepoint_width_4(lead, b1, b2, b3));
        assert(cp <= 0x1fffff) by (bit_vector)
            requires
                cp == (((lead & 0x07) as u32) << 18u32) | (((b1 & 0x3f) as u32) << 12u32) | (((b2
                    & 0x3f) as u32) << 6u32) | ((b3 & 0x3f) as u32),
        ;
    }
    if cp < 0x10000 || cp > 0x10ffff {
        proof {
            assert(!valid_first_scalar(w));
            assert(utf8_consumed(w) == 4);
        }
        return Ok(None);
    }
    let c = char_from_u32(cp);
    let ch = c.unwrap();
    proof {
        vstd::utf8::char_u32_cast(ch, cp);
        assert(valid_first_scalar(w));
        assert(decode_first_scalar(w) == cp);
        assert(length_of_first_scalar(w) == 4);
    }
    Ok(Some(ch))
}

/// Splits a parameter byte run at every semicolon, exactly as
/// [`semi_fields`] describes.
#[verifier::loop_isolation(false)]
fn split_fields(p: &Vec<u8>) -> (r: Vec<Vec<u8>>)
    ensures
        r@.len() == semi_fields(p@).len(),
        forall|i: int| 0 <= i < r@.len() ==> #[trigger] r@[i]@ == semi_fields(p@)[i],
{
    let mut done: Vec<Vec<u8>> = Vec::new();
    let mut cur: Vec<u8> = Vec::new();
    let mut i: usize = 0;
    let ghost mut gdone: Seq<Seq<u8>> = Seq::empty();
    proof {
        assert(p@.skip(0) =~= p@);
        assert(Seq::<u8>::empty() + semi_fields(p@)[0] =~= semi_fields(p@)[0]);
        lemma_semi_fields_len(p@);
        assert(prepend_first(Seq::<u8>::empty(), semi_fields(p@)) =~= semi_fields(p@));
    }
    while i < p.len()
        invariant
            i <= p.len(),
            gdone.len() == done@.len(),
            forall|j: int| 0 <= j < done@.len() ==> #[trigger] done@[j]@ == gdone[j],
            semi_fields(p@) == gdone + prepend_first(cur@, semi_fields(p@.skip(i as int))),
        decreases p.len() - i,
    {
        let b = p[i];
        proof {
            assert(p@.skip(i as int)[0] == p@[i as int]);
            assert(p@.skip(i as int).skip(1) =~= p@.skip(i as int + 1));
            lemma_semi_fields_unfold(p@.skip(i as int));
            lemma_semi_fields_len(p@.skip(i as int + 1));
        }
        if b == 0x3b {
            proof {
                let fs = semi_fields(p@.skip(i as int + 1));
                assert(cur@ + (seq![Seq::<u8>::empty()] + fs)[0] =~= cur@);
                assert((seq![Seq::<u8>::empty()] + fs).skip(1) =~= fs);
                assert(prepend_first(cur@, seq![Seq::<u8>::empty()] + fs) =~= seq![cur@] + prepend_first(Seq::<u8>::empty(), fs));
                assert(Seq::<u8>::empty() + fs[0] =~= fs[0]);
                assert(prepend_first(Seq::<u8>::empty(), fs) =~= fs);
                assert(gdone + (seq![cur@] + prepend_first(Seq::<u8>::empty(), fs)) =~= (
                gdone.push(cur@)) + prepend_first(Seq::<u8>::empty(), fs));
            }
            proof {
                gdone = gdone.push(cur@);
            }
            done.push(cur);
            cur = Vec::new();
        } else {
            proof {
                let fs = semi_fields(p@.skip(i as int + 1));
                assert(cur@ + (prepend_first(seq![b], fs))[0] =~= cur@.push(b) + fs[0]);
                assert((prepend_first(seq![b], fs)).skip(1) =~= fs.skip(1));
                assert(prepend_first(cur@, prepend_first(seq![b], fs)) =~= prepend_first(
                    cur@.push(b),
                    fs,
                ));
            }
            cur.push(b);
        }
        i = i + 1;
    }
    proof {
        assert(p@.skip(p@.len() as int) =~= Seq::<u8>::empty());
        let fs = semi_fields(Seq::<u8>::empty());
        assert(fs =~= seq![Seq::<u8>::empty()]);
        assert(cur@ + Seq::<u8>::empty() =~= cur@);
        assert(prepend_first(cur@, fs) =~= seq![cur@]);
    }
    done.push(cur);
    done
}

/// Parses one parameter field as a decimal `u16`, exactly as [`dec_u16`]
/// describes: a non-empty all-digit run whose value fits.
#[verifier::loop_isolation(false)]
fn field_u16(f: &Vec<u8>) -> (r: Option<u16>)
    ensures
        r == dec_u16(f@),
{
    if f.len() == 0 {
        return None;
    }
    let mut acc: u32 = 0;
    let mut i: usize = 0;
    proof {
        assert(f@.take(0) =~= Seq::<u8>::empty());
    }
    while i < f.len()
        invariant
            i <= f.len(),
            acc <= 0xffff,
            acc == dec_val(f@.take(i as int)),
            forall|j: int| 0 <= j < i ==> is_digit(#[trigger] f@[j]),
        decreases f.len() - i,
    {
        let b = f[i];
        if !(0x30 <= b && b <= 0x39) {
            assert(!all_digits(f@));
            return None;
        }
        proof {
            assert(f@.take(i as int + 1).drop_last() =~= f@.take(i as int));
            assert(f@.take(i as int + 1).last() == f@[i as int]);
        }
        let next: u32 = acc * 10 + ((b - 0x30) as u32);
        if next > 0xffff {
            proof {
                if all_digits(f@) {
                    lemma_dec_val_grows(f@, i as int + 1);
                }
            }
            return None;
        }
        acc = next;
        i = i + 1;
    }
    proof {
        assert(f@.take(f@.len() as int) =~= f@);
        assert(all_digits(f@));
    }
    Some(acc as u16)
}

/// Decodes the three raw bytes of the legacy mouse encoding, after
/// `ESC [ M` has been consumed.
fn parse_x10<R: ByteSource>(
    extra: &mut Option<u8>,
    source: &mut R,
    buf: &mut Vec<u8>,
) -> (r: Result<Option<Event>, ReadError>)
    ensures
        final(source).infallible() == old(source).infallible(),
        ({
            let v0 = pending_of(*old(extra), *old(source));
            let step = x10_tail(v0);
            match r {
                Ok(opt) => final(buf)@ == old(buf)@ + v0.take(step.1) && pending_of(
                    *final(extra),
                    *final(source),
                ) == v0.skip(step.1) && match opt {
                    Some(ev) => step.0 == Some(ev@),
                    None => step.0 == None::<EventView>,
                },
                Err(_) => !old(source).infallible(),
            }
        }),
{
    let ghost v0 = pending_of(*old(extra), *old(source));
    let c1 = match pull(extra, source, buf) {
        Err(e) => return Err(e),
        Ok(None) => {
            proof {
                assert(v0.take(0) =~= Seq::<u8>::empty());
                assert(buf@ =~= buf@ + Seq::<u8>::empty());
            }
            return Ok(None);
        },
        Ok(Some(b)) => b,
    };
    let c2 = match pull(extra, source, buf) {
        Err(e) => return Err(e),
        Ok(None) => {
            proof {
                assert(v0.take(1) =~= seq![c1]);
                assert(buf@ =~= old(buf)@ + v0.take(1));
                assert(pending_of(*extra, *source) =~= v0.skip(1));
            }
            return Ok(None);
        },
        Ok(Some(b)) => b,
    };
    proof {
        assert(v0[1] == c2);
        assert(pending_of(*extra, *source) =~= v0.skip(2));
    }
    let c3 = match pull(extra, source, buf) {
        Err(e) => return Err(e),
        Ok(None) => {
            proof {
                assert(v0.take(2) =~= seq![c1, c2]);
                assert(buf@ =~= old(buf)@ + v0.take(2));
            }
            return Ok(None);
        },
        Ok(Some(b)) => b,
    };
    proof {
        assert(v0[2] == c3);
        assert(v0.take(3) =~= seq![c1, c2, c3]);
        assert(buf@ =~= old(buf)@ + v0.take(3));
        assert(pending_of(*extra, *source) =~= v0.skip(3));
    }
    let cb = if c1 >= 32 {
        c1 - 32
    } else {
        c1 + 224
    };
    let cx: u16 = if c2 >= 32 {
        (c2 - 32) as u16
    } else {
        0
    };
    let cy: u16 = if c3 >= 32 {
        (c3 - 32) as u16
    } else {
        0
    };
    let low = cb & 3;
    let ev = if low == 0 {
        MouseEvent::Press(
            if cb & 0x40 != 0 {
                MouseButton::WheelUp
            } else {
                MouseButton::Left
            },
            cx,
            cy,
        )
    } else if low == 1 {
        MouseEvent::Press(
            if cb & 0x40 != 0 {
                MouseButton::WheelDown
            } else {
                MouseButton::Middle
            },
            cx,
            cy,
        )
    } else if low == 2 {
        MouseEvent::Press(MouseButton::Right, cx, cy)
    } else {
        MouseEvent::Release(cx, cy)
    };
    Ok(Some(Event::Mouse(ev)))
}

/// Builds the mouse event that an SGR button code and terminator name,
/// exactly as [`crate::event::sgr_event`] describes.
fn sgr_build(cb: u16, term: u8, cx: u16, cy: u16) -> (r: Option<MouseEvent>)
    ensures
        r == crate::event::sgr_event(cb, term, cx, cy),
{
    if cb == 0 || cb == 1 || cb == 2 || cb == 64 || cb == 65 {
        let button = if cb == 0 {
            MouseButton::Left
        } else if cb == 1 {
            MouseButton::Middle
        } else if cb == 2 {
            MouseButton::Right
        } else if cb == 64 {
            MouseButton::WheelUp
        } else {
            MouseButton::WheelDown
        };
        if term == 0x4d {
            Some(MouseEvent::Press(button, cx, cy))
        } else {
            Some(MouseEvent::Release(cx, cy))
        }
    } else if cb == 32 {
        Some(MouseEvent::Hold(cx, cy))
    } else if cb == 3 {
        Some(MouseEvent::Release(cx, cy))
    } else {
        None
    }
}

/// Decodes the extended (SGR) mouse encoding, after `ESC [ <` has been
/// consumed: parameters up to the `m`/`M` terminator.
#[verifier::loop_isolation(false)]
fn parse_sgr<R: ByteSource>(
    extra: &mut Option<u8>,
    source: &mut R,
    buf: &mut Vec<u8>,
) -> (r: Result<Option<Event>, ReadError>)
    ensures
        final(source).infallible() == old(source).infallible(),
        ({
            let v0 = pending_of(*old(extra), *old(source));
            let step = sgr_tail(v0);
            match r {
                Ok(opt) => final(buf)@ == old(buf)@ + v0.take(step.1) && pending_of(
                    *final(extra),
                    *final(source),
                ) == v0.skip(step.1) && match opt {
                    Some(ev) => step.0 == Some(ev@),
                    None => step.0 == None::<EventView>,
                },
                Err(_) => !old(source).infallible(),
            }
        }),
{
    let ghost v0 = pending_of(*old(extra), *old(source));
    let mut params: Vec<u8> = Vec::new();
    proof {
        assert(v0.take(0) =~= Seq::<u8>::empty());
        assert(buf@ =~= buf@ + Seq::<u8>::empty());
    }
    loop
        invariant
            params@.len() <= v0.len(),
            params@ == v0.take(params@.len() as int),
            pending_of(*extra, *source) == v0.skip(params@.len() as int),
            buf@ == old(buf)@ + v0.take(params@.len() as int),
            source.infallible() == old(source).infallible(),
            forall|j: int| 0 <= j < params@.len() ==> !is_sgr_end(#[trigger] v0[j]),
        decreases v0.len() - params@.len(),
    {
        let ghost k = params@.len() as int;
        let b = match pull(extra, source, buf) {
            Err(e) => return Err(e),
            Ok(None) => {
                proof {
                    assert(v0.len() - k == 0);
                    lemma_scan_len_is(v0, sgr_stop(), v0.len() as int);
                    assert(v0.take(v0.len() as int) =~= v0);
                }
                return Ok(None);
            },
            Ok(Some(b)) => b,
        };
        proof {
            assert(v0[k] == b);
            assert(v0.take(k + 1) =~= v0.take(k).push(b));
            assert(pending_of(*extra, *source) =~= v0.skip(k + 1));
        }
        if b == 0x6d || b == 0x4d {
            proof {
                lemma_scan_len_is(v0, sgr_stop(), k);
            }
            let fields = split_fields(&params);
            if fields.len() >= 3 {
                let c0 = field_u16(&fields[0]);
                let c1 = field_u16(&fields[1]);
                let c2 = field_u16(&fields[2]);
                match (c0, c1, c2) {
                    (Some(cb), Some(cx), Some(cy)) => {
                        match sgr_build(cb, b, cx, cy) {
                            Some(m) => {
                                return Ok(Some(Event::Mouse(m)));
                            },
                            None => {
                                return Ok(None);
                            },
                        }
                    },
                    _ => {
                        return Ok(None);
                    },
                }
            } else {
                return Ok(None);
            }
        }
        params.push(b);
    }
}

/// Builds the event that the rxvt mouse code names, exactly as
/// [`crate::event::rxvt_event`] describes over the already-split fields.
fn rxvt_build(fields: &Vec<Vec<u8>>) -> (r: Option<Event>)
    ensures
        match r {
            Some(ev) => crate::event::rxvt_event(views_of(fields@)) == Some(ev@),
            None => crate::event::rxvt_event(views_of(fields@)) == None::<EventView>,
        },
{
    if fields.len() >= 3 {
        let c0 = field_u16(&fields[0]);
        let c1 = field_u16(&fields[1]);
        let c2 = field_u16(&fields[2]);
        proof {
            assert(views_of(fields@)[0] == fields@[0]@);
            assert(views_of(fields@)[1] == fields@[1]@);
            assert(views_of(fields@)[2] == fields@[2]@);
        }
        match (c0, c1, c2) {
            (Some(cb), Some(cx), Some(cy)) => {
                if cb == 32 {
                    Some(Event::Mouse(MouseEvent::Press(MouseButton::Left, cx, cy)))
                } else if cb == 33 {
                    Some(Event::Mouse(MouseEvent::Press(MouseButton::Middle, cx, cy)))
                } else if cb == 34 {
                    Some(Event::Mouse(MouseEvent::Press(MouseButton::Right, cx, cy)))
                } else if cb == 35 {
                    Some(Event::Mouse(MouseEvent::Release(cx, cy)))
                } else if cb == 64 {
                    Some(Event::Mouse(MouseEvent::Hold(cx, cy)))
                } else if cb == 96 {
                    Some(Event::Mouse(MouseEvent::Press(MouseButton::WheelUp, cx, cy)))
                } else if cb == 97 {
                    Some(Event::Mouse(MouseEvent::Press(MouseButton::WheelDown, cx, cy)))
                } else {
                    None
                }
            },
            _ => None,
        }
    } else {
        None
    }
}

/// The views of a vector of byte fields.
pub open spec fn views_of(fields: Seq<Vec<u8>>) -> Seq<Seq<u8>> {
    fields.map_values(|f: Vec<u8>| f@)
}

/// Builds the key that a tilde sequence names, exactly as
/// [`crate::event::tilde_event`] describes over the already-split fields.
fn tilde_build(fields: &Vec<Vec<u8>>) -> (r: Option<Event>)
    ensures
        match r {
            Some(ev) => crate::event::tilde_event(views_of(fields@)) == Some(ev@),
            None => crate::event::tilde_event(views_of(fields@)) == None::<EventView>,
        },
{
    if fields.len() == 1 {
        proof {
            assert(views_of(fields@)[0] == fields@[0]@);
        }
        let v = match field_u16(&fields[0]) {
            Some(v) => v,
            None => {
                return None;
            },
        };
        if v == 1 || v == 7 {
            Some(Event::Key(Key::Home))
        } else if v == 2 {
            Some(Event::Key(Key::Insert))
        } else if v == 3 {
            Some(Event::Key(Key::Delete))
        } else if v == 4 || v == 8 {
            Some(Event::Key(Key::End))
        } else if v == 5 {
            Some(Event::Key(Key::PageUp))
        } else if v == 6 {
            Some(Event::Key(Key::PageDown))
        } else if 11 <= v && v <= 15 {
            Some(Event::Key(Key::F((v - 10) as u8)))
        } else if 17 <= v && v <= 21 {
            Some(Event::Key(Key::F((v - 11) as u8)))
        } else if v == 23 || v == 24 {
            Some(Event::Key(Key::F((v - 12) as u8)))
        } else {
            None
        }
    } else {
        None
    }
}

/// Decodes a numbered sequence after `ESC [`, whose leading digit has
/// already been consumed: parameter bytes run to the first final byte,
/// which picks the rxvt mouse encoding, a special key, or nothing.
#[verifier::loop_isolation(false)]
fn parse_num<R: ByteSource>(
    digit: u8,
    extra: &mut Option<u8>,
    source: &mut R,
    buf: &mut Vec<u8>,
) -> (r: Result<Option<Event>, ReadError>)
    ensures
        final(source).infallible() == old(source).infallible(),
        ({
            let rem0 = pending_of(*old(extra), *old(source));
            let u = seq![digit] + rem0;
            let step = num_tail(u);
            match r {
                Ok(opt) => final(buf)@ == old(buf)@ + rem0.take(step.1 - 1) && pending_of(
                    *final(extra),
                    *final(source),
                ) == rem0.skip(step.1 - 1) && match opt {
                    Some(ev) => step.0 == Some(ev@),
                    None => step.0 == None::<EventView>,
                },
                Err(_) => !old(source).infallible(),
            }
        }),
{
    let ghost rem0 = pending_of(*old(extra), *old(source));
    let ghost u = seq![digit] + rem0;
    proof {
        assert(u.skip(1) =~= rem0);
        assert(rem0.take(0) =~= Seq::<u8>::empty());
        assert(buf@ =~= buf@ + Seq::<u8>::empty());
    }
    let mut params: Vec<u8> = Vec::new();
    params.push(digit);
    loop
        invariant
            params@.len() >= 1,
            params@.len() - 1 <= rem0.len(),
            params@ == u.take(params@.len() as int),
            pending_of(*extra, *source) == rem0.skip(params@.len() - 1),
            buf@ == old(buf)@ + rem0.take(params@.len() - 1),
            source.infallible() == old(source).infallible(),
            forall|j: int| 0 <= j < params@.len() - 1 ==> !is_final_byte(#[trigger] rem0[j]),
        decreases rem0.len() + 1 - params@.len(),
    {
        let ghost k = params@.len() - 1;
        let b = match pull(extra, source, buf) {
            Err(e) => return Err(e),
            Ok(None) => {
                proof {
                    assert(rem0.len() - k == 0);
                    lemma_scan_len_is(rem0, final_stop(), rem0.len() as int);
                    assert(rem0.take(rem0.len() as int) =~= rem0);
                    assert(1 + scan_len(u.skip(1), final_stop()) >= u.len());
                }
                return Ok(None);
            },
            Ok(Some(b)) => b,
        };
        proof {
            assert(rem0[k] == b);
            assert(u[k + 1] == b);
            assert(rem0.take(k + 1) =~= rem0.take(k).push(b));
            assert(u.take(k + 2) =~= u.take(k + 1).push(b));
            assert(pending_of(*extra, *source) =~= rem0.skip(k + 1));
        }
        if 64 <= b && b <= 126 {
            proof {
                lemma_scan_len_is(rem0, final_stop(), k);
                assert(u.take(k + 1) == params@);
            }
            if b == 0x4d {
                let fields = split_fields(&params);
                proof {
                    assert(views_of(fields@) =~= semi_fields(params@));
                }
                match rxvt_build(&fields) {
                    Some(ev) => {
                        return Ok(Some(ev));
                    },
                    None => {
                        return Ok(None);
                    },
                }
            } else if b == 0x7e {
                let fields = split_fields(&params);
                proof {
                    assert(views_of(fields@) =~= semi_fields(params@));
                }
                match tilde_build(&fields) {
                    Some(ev) => {
                        return Ok(Some(ev));
                    },
                    None => {
                        return Ok(None);
                    },
                }
            } else {
                return Ok(None);
            }
        }
        params.push(b);
    }
}

/// Decodes a control sequence after `ESC [` has been consumed.
fn parse_csi<R: ByteSource>(
    extra: &mut Option<u8>,
    source: &mut R,
    buf: &mut Vec<u8>,
) -> (r: Result<Option<Event>, ReadError>)
    ensures
        final(source).infallible() == old(source).infallible(),
        ({
            let u0 = pending_of(*old(extra), *old(source));
            let step = csi_tail(u0);
            match r {
                Ok(opt) => final(buf)@ == old(buf)@ + u0.take(step.1) && pending_of(
                    *final(extra),
                    *final(source),
                ) == u0.skip(step.1) && match opt {
                    Some(ev) => step.0 == Some(ev@),
                    None => step.0 == None::<EventView>,
                },
                Err(_) => !old(source).infallible(),
            }
        }),
{
    let ghost u0 = pending_of(*old(extra), *old(source));
    let b = match pull(extra, source, buf) {
        Err(e) => return Err(e),
        Ok(None) => {
            proof {
                assert(u0.take(0) =~= Seq::<u8>::empty());
                assert(buf@ =~= buf@ + Seq::<u8>::empty());
            }
            return Ok(None);
        },
        Ok(Some(b)) => b,
    };
    proof {
        assert(u0[0] == b);
        assert(u0.take(1) =~= seq![b]);
        assert(buf@ =~= old(buf)@ + u0.take(1));
        assert(pending_of(*extra, *source) =~= u0.skip(1));
    }
    if b == 0x5b {
        let c = match pull(extra, source, buf) {
            Err(e) => return Err(e),
            Ok(None) => {
                return Ok(None);
            },
            Ok(Some(c)) => c,
        };
        proof {
            assert(u0[1] == c);
            assert(u0.take(2) =~= seq![b, c]);
            assert(buf@ =~= old(buf)@ + u0.take(2));
            assert(pending_of(*extra, *source) =~= u0.skip(2));
        }
        if 0x41 <= c && c <= 0x45 {
            Ok(Some(Event::Key(Key::F((c - 0x40) as u8))))
        } else {
            Ok(None)
        }
    } else if b == 0x44 {
        Ok(Some(Event::Key(Key::Left)))
    } else if b == 0x43 {
        Ok(Some(Event::Key(Key::Right)))
    } else if b == 0x41 {
        Ok(Some(Event::Key(Key::Up)))
    } else if b == 0x42 {
        Ok(Some(Event::Key(Key::Down)))
    } else if b == 0x48 {
        Ok(Some(Event::Key(Key::Home)))
    } else if b == 0x46 {
        Ok(Some(Event::Key(Key::End)))
    } else if b == 0x4d {
        let ghost v0 = pending_of(*extra, *source);
        let r = parse_x10(extra, source, buf);
        proof {
            if r is Ok {
                let n = x10_tail(v0).1;
                assert(0 <= n <= v0.len());
                assert(v0 == u0.skip(1));
                assert(u0.len() == 1 + v0.len());
                assert forall|i: int| 0 <= i < v0.len() implies #[trigger] v0[i] == u0[i + 1] by {
                    assert(v0[i] == u0.skip(1)[i]);
                }
                assert(u0.take(1 + n) =~= seq![b] + v0.take(n));
                assert(u0.skip(1 + n) =~= v0.skip(n));
            }
        }
        r
    } else if b == 0x3c {
        let ghost v0 = pending_of(*extra, *source);
        let r = parse_sgr(extra, source, buf);
        proof {
            if r is Ok {
                let n = sgr_tail(v0).1;
                lemma_sgr_tail_bounds(v0);
                assert(v0 == u0.skip(1));
                assert(u0.len() == 1 + v0.len());
                assert forall|i: int| 0 <= i < v0.len() implies #[trigger] v0[i] == u0[i + 1] by {
                    assert(v0[i] == u0.skip(1)[i]);
                }
                assert(u0.take(1 + n) =~= seq![b] + v0.take(n));
                assert(u0.skip(1 + n) =~= v0.skip(n));
            }
        }
        r
    } else if 0x30 <= b && b <= 0x39 {
        let ghost v0 = pending_of(*extra, *source);
        let r = parse_num(b, extra, source, buf);
        proof {
            assert(seq![b] + v0 =~= u0);
            if r is Ok {
                let n = num_tail(u0).1;
                lemma_num_tail_bounds(u0);
                assert(v0 == u0.skip(1));
                assert(u0.len() == 1 + v0.len());
                assert forall|i: int| 0 <= i < v0.len() implies #[trigger] v0[i] == u0[i + 1] by {
                    assert(v0[i] == u0.skip(1)[i]);
                }
                assert(u0.take(n) =~= seq![b] + v0.take(n - 1));
                assert(u0.skip(n) =~= v0.skip(n - 1));
            }
        }
        r
    } else {
        Ok(None)
    }
}

/// Decodes one event whose leading byte `item` has already been read:
/// the event produced and the exact raw bytes consumed, including
/// `item` itself. Any grammar failure folds into `Event::Unsupported`
/// carrying those bytes; only a failure of the byte source is an error.
pub fn parse_event<R: ByteSource>(
    item: u8,
    extra: &mut Option<u8>,
    source: &mut R,
) -> (r: Result<(Event, Vec<u8>), ReadError>)
    ensures
        final(source).infallible() == old(source).infallible(),
        old(source).infallible() ==> r is Ok,
        ({
            let s = seq![item] + pending_of(*old(extra), *old(source));
            let step = event_step(s);
            match r {
                Ok((ev, raw)) => ev@ == step.0 && raw@ == s.take(step.1) && pending_of(
                    *final(extra),
                    *final(source),
                ) == s.skip(step.1),
                Err(_) => !old(source).infallible(),
            }
        }),
{
    let ghost rem0 = pending_of(*old(extra), *old(source));
    let ghost s = seq![item] + rem0;
    let mut buf: Vec<u8> = Vec::new();
    buf.push(item);
    proof {
        assert(s[0] == item);
        assert(s.skip(1) =~= rem0);
        assert(buf@ =~= seq![item]);
        assert(s.take(1) =~= seq![item]);
    }
    if item == 0x1b {
        let b1 = match pull(extra, source, &mut buf) {
            Err(e) => return Err(e),
            Ok(None) => {
                return Ok((Event::Key(Key::Esc), buf));
            },
            Ok(Some(b)) => b,
        };
        proof {
            assert(s[1] == b1);
            assert(s.take(2) =~= seq![item, b1]);
            assert(buf@ =~= s.take(2));
            assert(pending_of(*extra, *source) =~= rem0.skip(1));
            assert(s.skip(2) =~= rem0.skip(1));
        }
        if b1 == 0x4f {
            let v = match pull(extra, source, &mut buf) {
                Err(e) => return Err(e),
                Ok(None) => {
                    return unsupported(buf);
                },
                Ok(Some(v)) => v,
            };
            proof {
                assert(s[2] == v);
                assert(s.take(3) =~= seq![item, b1, v]);
                assert(buf@ =~= s.take(3));
                assert(pending_of(*extra, *source) =~= s.skip(3));
            }
            if 0x50 <= v && v <= 0x53 {
                Ok((Event::Key(Key::F((v - 0x4f) as u8)), buf))
            } else {
                unsupported(buf)
            }
        } else if b1 == 0x5b {
            let ghost u0 = pending_of(*extra, *source);
            proof {
                assert(u0 =~= s.skip(2));
            }
            match parse_csi(extra, source, &mut buf) {
                Err(e) => Err(e),
                Ok(opt) => {
                    proof {
                        let n = csi_tail(u0).1;
                        crate::event::lemma_csi_tail_bounds(u0);
                        assert(u0 == s.skip(2));
                        assert(s.len() == 2 + u0.len());
                        assert forall|i: int| 0 <= i < u0.len() implies #[trigger] u0[i] == s[i + 2] by {
                            assert(u0[i] == s.skip(2)[i]);
                        }
                        assert(s.take(2 + n) =~= seq![item, b1] + u0.take(n));
                        assert(s.skip(2 + n) =~= u0.skip(n));
                    }
                    match opt {
                        Some(ev) => Ok((ev, buf)),
                        None => unsupported(buf),
                    }
                },
            }
        } else {
            let ghost rem1 = pending_of(*extra, *source);
            proof {
                assert(seq![b1] + rem1 =~= s.skip(1));
            }
            match parse_utf8_char(b1, extra, source, &mut buf) {
                Err(e) => Err(e),
                Ok(copt) => {
                    proof {
                        let n = utf8_tail(s.skip(1)).1;
                        assert(s.take(1 + n) =~= seq![item, b1] + rem1.take(n - 1));
                        assert(s.skip(1 + n) =~= rem1.skip(n - 1));
                    }
                    match copt {
                        Some(c) => Ok((Event::Key(Key::Alt(c)), buf)),
                        None => unsupported(buf),
                    }
                },
            }
        }
    } else if item == 0x0a || item == 0x0d {
        Ok((Event::Key(Key::Char('\n')), buf))
    } else if item == 0x09 {
        Ok((Event::Key(Key::Char('\t')), buf))
    } else if item == 0x7f {
        Ok((Event::Key(Key::Backspace), buf))
    } else if 1 <= item && item <= 0x1a {
        Ok((Event::Key(Key::Ctrl((item + 0x60) as char)), buf))
    } else if 0x1c <= item && item <= 0x1f {
        Ok((Event::Key(Key::Ctrl((item + 0x18) as char)), buf))
    } else if item == 0 {
        Ok((Event::Key(Key::Null), buf))
    } else {
        match parse_utf8_char(item, extra, source, &mut buf) {
            Err(e) => Err(e),
            Ok(copt) => {
                proof {
                    let n = utf8_tail(s).1;
                    assert(s.take(n) =~= seq![item] + rem0.take(n - 1));
                    assert(s.skip(n) =~= rem0.skip(n - 1));
                }
                match copt {
                    Some(c) => Ok((Event::Key(Key::Char(c)), buf)),
                    None => unsupported(buf),
                }
            },
        }
    }
}

/// Folds the raw bytes consumed so far into an `Unsupported` event that
/// carries exactly those bytes.
fn unsupported(buf: Vec<u8>) -> (r: Result<(Event, Vec<u8>), ReadError>)
    ensures
        match r {
            Ok((ev, raw)) => ev@ == EventView::Unsupported(buf@) && raw@ == buf@,
            Err(_) => false,
        },
{
    let raw = buf.clone();
    proof {
        assert(raw@ =~= buf@);
    }
    Ok((Event::Unsupported(buf), raw))
}

} // verus!
