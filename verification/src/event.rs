//! The event model and the escape-sequence grammar, stated as spec
//! functions over the pending byte sequence.
//!
//! `event_step` is the single mathematical description of one decode: for
//! a non-empty sequence of pending input bytes it names the event produced
//! and the number of bytes consumed. Every executable decoding function is
//! proved against it. The grammar is prefix-driven and greedy: once an
//! introducer is recognised the sequence must complete, or the bytes read
//! so far are folded into an `Unsupported` event; there is no backtracking.

use vstd::prelude::*;
use vstd::utf8::decode_first_scalar;
use vstd::utf8::is_continuation_byte;
use vstd::utf8::length_of_first_scalar;
use vstd::utf8::valid_first_scalar;
use crate::keys::Key;
use crate::keys::MouseButton;
use crate::keys::MouseEvent;

verus! {

/// An event reported by the terminal.
#[derive(Debug, Clone, PartialEq, Eq, Hash)]
pub enum Event {
    /// A key press.
    Key(Key),
    /// A mouse button press, release or wheel use at specific coordinates.
    Mouse(MouseEvent),
    /// An event that cannot currently be evaluated, carrying the exact
    /// bytes consumed while trying.
    Unsupported(Vec<u8>),
}

/// The mathematical value of an [`Event`]: the same variants with the
/// raw bytes of `Unsupported` as a sequence.
pub enum EventView {
    /// A key press.
    Key(Key),
    /// A mouse event.
    Mouse(MouseEvent),
    /// An unrecognised sequence, as the bytes consumed.
    Unsupported(Seq<u8>),
}

impl View for Event {
    type V = EventView;

    open spec fn view(&self) -> EventView {
        match self {
            Event::Key(k) => EventView::Key(*k),
            Event::Mouse(m) => EventView::Mouse(*m),
            Event::Unsupported(b) => EventView::Unsupported(b@),
        }
    }
}

/// A final byte of a control sequence, ending its parameter bytes.
pub open spec fn is_final_byte(b: u8) -> bool {
    64 <= b && b <= 126
}

/// A terminator of the extended mouse encoding: `m` or `M`.
pub open spec fn is_sgr_end(b: u8) -> bool {
    b == 0x6d || b == 0x4d
}

/// The parameter separator `;`.
pub open spec fn is_semi(b: u8) -> bool {
    b == 0x3b
}

/// An ASCII decimal digit.
pub open spec fn is_digit(b: u8) -> bool {
    0x30 <= b && b <= 0x39
}

/// The stop predicate for parameter scans that end at a final byte.
pub open spec fn final_stop() -> spec_fn(u8) -> bool {
    |b: u8| is_final_byte(b)
}

/// The stop predicate for the extended mouse encoding's terminator.
pub open spec fn sgr_stop() -> spec_fn(u8) -> bool {
    |b: u8| is_sgr_end(b)
}

/// The stop predicate for the parameter separator.
pub open spec fn semi_stop() -> spec_fn(u8) -> bool {
    |b: u8| is_semi(b)
}

/// The number of leading bytes of `u` before the first byte satisfying
/// `stop`; `u.len()` when no byte does.
pub open spec fn scan_len(u: Seq<u8>, stop: spec_fn(u8) -> bool) -> int
    decreases u.len(),
{
    if u.len() == 0 {
        0
    } else if stop(u[0]) {
        0
    } else {
        1 + scan_len(u.skip(1), stop)
    }
}

/// `scan_len` stays within `u`, nothing before it satisfies `stop`, and
/// the byte at it (when inside `u`) does.
pub proof fn lemma_scan_len_bounds(u: Seq<u8>, stop: spec_fn(u8) -> bool)
    ensures
        0 <= scan_len(u, stop) <= u.len(),
        forall|i: int| 0 <= i < scan_len(u, stop) ==> !stop(#[trigger] u[i]),
        scan_len(u, stop) < u.len() ==> stop(u[scan_len(u, stop)]),
    decreases u.len(),
{
    if u.len() == 0 {
    } else if stop(u[0]) {
    } else {
        let k = scan_len(u, stop);
        lemma_scan_len_bounds(u.skip(1), stop);
        assert forall|i: int| 0 <= i < k implies !stop(#[trigger] u[i]) by {
            if i >= 1 {
                assert(u[i] == u.skip(1)[i - 1]);
            }
        }
        if k < u.len() {
            assert(u[k] == u.skip(1)[k - 1]);
        }
    }
}

/// Any cut of `u` with no stop byte before it and a stop byte (or the
/// end) at it is exactly `scan_len`.
pub proof fn lemma_scan_len_is(u: Seq<u8>, stop: spec_fn(u8) -> bool, k: int)
    requires
        0 <= k <= u.len(),
        forall|i: int| 0 <= i < k ==> !stop(#[trigger] u[i]),
        k < u.len() ==> stop(u[k]),
    ensures
        scan_len(u, stop) == k,
    decreases u.len(),
{
    if u.len() == 0 {
    } else if stop(u[0]) {
        assert(k == 0);
    } else {
        assert(k >= 1);
        assert forall|i: int| 0 <= i < k - 1 implies !stop(#[trigger] u.skip(1)[i]) by {
            assert(u.skip(1)[i] == u[i + 1]);
        }
        if k - 1 < u.skip(1).len() {
            assert(u.skip(1)[k - 1] == u[k]);
        }
        lemma_scan_len_is(u.skip(1), stop, k - 1);
    }
}

/// Whether every byte of `d` is a decimal digit.
pub open spec fn all_digits(d: Seq<u8>) -> bool {
    forall|i: int| 0 <= i < d.len() ==> is_digit(#[trigger] d[i])
}

/// The value of `d` read as a decimal numeral.
pub open spec fn dec_val(d: Seq<u8>) -> int
    decreases d.len(),
{
    if d.len() == 0 {
        0
    } else {
        dec_val(d.drop_last()) * 10 + (d.last() - 0x30)
    }
}

/// The value of `d` as a `u16`, exactly when `d` is a non-empty run of
/// digits whose value fits; the behaviour of a strict decimal parse.
pub open spec fn dec_u16(d: Seq<u8>) -> Option<u16> {
    if d.len() > 0 && all_digits(d) && dec_val(d) <= 0xffff {
        Some(dec_val(d) as u16)
    } else {
        None
    }
}

/// The semicolon-separated fields of a parameter byte run. Splitting is
/// total: a run without separators is one field, and a trailing
/// separator yields a trailing empty field.
pub open spec fn semi_fields(p: Seq<u8>) -> Seq<Seq<u8>>
    decreases p.len(),
{
    let k = scan_len(p, semi_stop());
    if 0 <= k && k < p.len() {
        seq![p.take(k)] + semi_fields(p.skip(k + 1))
    } else {
        seq![p]
    }
}

/// `fs` with `x` prefixed to its first field.
pub open spec fn prepend_first(x: Seq<u8>, fs: Seq<Seq<u8>>) -> Seq<Seq<u8>>
    recommends
        fs.len() >= 1,
{
    seq![x + fs[0]] + fs.skip(1)
}

/// Splitting always yields at least one field.
pub proof fn lemma_semi_fields_len(p: Seq<u8>)
    ensures
        semi_fields(p).len() >= 1,
    decreases p.len(),
{
    let k = scan_len(p, semi_stop());
    if 0 <= k && k < p.len() {
        lemma_semi_fields_len(p.skip(k + 1));
    }
}

/// How one leading byte moves through the splitter: a separator opens a
/// fresh empty field, any other byte extends the first field.
pub proof fn lemma_semi_fields_unfold(p: Seq<u8>)
    requires
        p.len() > 0,
    ensures
        is_semi(p[0]) ==> semi_fields(p) == seq![Seq::<u8>::empty()] + semi_fields(p.skip(1)),
        !is_semi(p[0]) ==> semi_fields(p) == prepend_first(seq![p[0]], semi_fields(p.skip(1))),
{
    let stop = semi_stop();
    let k = scan_len(p, stop);
    let q = p.skip(1);
    if is_semi(p[0]) {
        assert(k == 0);
        assert(p.take(0) =~= Seq::<u8>::empty());
        assert(semi_fields(p) =~= seq![Seq::<u8>::empty()] + semi_fields(p.skip(1)));
    } else {
        let k2 = scan_len(q, stop);
        assert(k == 1 + k2);
        lemma_scan_len_bounds(q, stop);
        lemma_semi_fields_len(q.skip(k2 + 1));
        if k2 < q.len() {
            assert(p.take(k) =~= seq![p[0]] + q.take(k2));
            assert(p.skip(k + 1) =~= q.skip(k2 + 1));
            assert(semi_fields(p) =~= prepend_first(seq![p[0]], semi_fields(q)));
        } else {
            assert(p.take(1 + k2) =~= seq![p[0]] + q.take(k2));
            assert(q.take(k2) =~= q);
            assert(p =~= seq![p[0]] + q);
            assert(semi_fields(p) =~= prepend_first(seq![p[0]], semi_fields(q)));
        }
    }
}

/// A prefix of an all-digit numeral whose value already exceeds the
/// `u16` range keeps the whole numeral out of range.
pub proof fn lemma_dec_val_grows(d: Seq<u8>, j: int)
    requires
        0 <= j <= d.len(),
        all_digits(d),
        dec_val(d.take(j)) > 0xffff,
    ensures
        dec_val(d) > 0xffff,
    decreases d.len() - j,
{
    if j == d.len() {
        assert(d.take(j) =~= d);
    } else {
        assert(d.take(j + 1).drop_last() =~= d.take(j));
        assert(d.take(j + 1).last() == d[j]);
        assert(is_digit(d[j]));
        lemma_dec_val_grows(d, j + 1);
    }
}

/// The width in bytes that a UTF-8 lead byte announces; 0 when the byte
/// cannot lead a scalar encoding.
pub open spec fn utf8_width(b: u8) -> int {
    if b <= 0x7f {
        1
    } else if 0xc0 <= b && b <= 0xdf {
        2
    } else if 0xe0 <= b && b <= 0xef {
        3
    } else if 0xf0 <= b && b <= 0xf7 {
        4
    } else {
        0
    }
}

/// How many bytes a failed UTF-8 decode at the front of `w` consumes:
/// the offending byte is consumed together with what preceded it, and a
/// truncated encoding consumes everything that was available.
pub open spec fn utf8_consumed(w: Seq<u8>) -> int
    recommends
        w.len() >= 1,
{
    let n = utf8_width(w[0]);
    if n == 0 {
        1
    } else if n >= 2 && w.len() >= 2 && !is_continuation_byte(w[1]) {
        2
    } else if n >= 3 && w.len() >= 3 && !is_continuation_byte(w[2]) {
        3
    } else if n >= 4 && w.len() >= 4 && !is_continuation_byte(w[3]) {
        4
    } else if w.len() < n {
        w.len() as int
    } else {
        n
    }
}

/// One UTF-8 scalar decoded at the front of `w`: the character and the
/// bytes consumed on success, or `None` and the bytes consumed by the
/// failed attempt.
pub open spec fn utf8_tail(w: Seq<u8>) -> (Option<char>, int)
    recommends
        w.len() >= 1,
{
    if valid_first_scalar(w) {
        (Some(decode_first_scalar(w) as char), length_of_first_scalar(w))
    } else {
        (None, utf8_consumed(w))
    }
}

/// The Ctrl character for a control byte in `0x01 ..= 0x1A`: offset from
/// the corresponding lowercase letter.
pub open spec fn ctrl_letter(b: u8) -> char
    recommends
        1 <= b <= 0x1a,
{
    ((b + 0x60) as u8) as char
}

/// The Ctrl character for a control byte in `0x1C ..= 0x1F`: offset from
/// the digit `'4'`.
pub open spec fn ctrl_digit(b: u8) -> char
    recommends
        0x1c <= b <= 0x1f,
{
    ((b + 0x18) as u8) as char
}

/// An SS3 sequence after `ESC O`: `P` through `S` name F1 through F4.
pub open spec fn ss3_tail(u: Seq<u8>) -> (Option<EventView>, int) {
    if u.len() == 0 {
        (None, 0)
    } else if 0x50 <= u[0] && u[0] <= 0x53 {
        (Some(EventView::Key(Key::F((u[0] - 0x4f) as u8))), 1)
    } else {
        (None, 1)
    }
}

/// The legacy mouse encoding after `ESC [ M`: three raw bytes holding
/// button state and 1-based coordinates, each offset by a bias of 32.
pub open spec fn x10_tail(v: Seq<u8>) -> (Option<EventView>, int) {
    if v.len() < 3 {
        (None, v.len() as int)
    } else {
        (
            Some(EventView::Mouse(x10_event(wrap_sub32(v[0]), sat_sub32(v[1]), sat_sub32(v[2])))),
            3,
        )
    }
}

/// The bias of 32 removed with wraparound, as the button byte is.
pub open spec fn wrap_sub32(b: u8) -> u8 {
    if b >= 32 {
        (b - 32) as u8
    } else {
        (b + 224) as u8
    }
}

/// The bias of 32 removed with saturation, as the coordinate bytes are.
pub open spec fn sat_sub32(b: u8) -> u16 {
    if b >= 32 {
        (b - 32) as u16
    } else {
        0
    }
}

/// The mouse event named by a legacy button byte: the low two bits pick
/// the button or a release, and bit `0x40` marks the wheel.
pub open spec fn x10_event(cb: u8, cx: u16, cy: u16) -> MouseEvent {
    let low = cb & 3;
    if low == 0 {
        MouseEvent::Press(
            if cb & 0x40 != 0 {
                MouseButton::WheelUp
            } else {
                MouseButton::Left
            },
            cx,
            cy,
        )
    } else if low == 1 {
        MouseEvent::Press(
            if cb & 0x40 != 0 {
                MouseButton::WheelDown
            } else {
                MouseButton::Middle
            },
            cx,
            cy,
        )
    } else if low == 2 {
        MouseEvent::Press(MouseButton::Right, cx, cy)
    } else {
        MouseEvent::Release(cx, cy)
    }
}

/// The extended (SGR) mouse encoding after `ESC [ <`: semicolon-separated
/// decimal parameters up to a terminator `M` (press) or `m` (release).
pub open spec fn sgr_tail(v: Seq<u8>) -> (Option<EventView>, int) {
    let k = scan_len(v, sgr_stop());
    if k >= v.len() {
        (None, v.len() as int)
    } else {
        let fields = semi_fields(v.take(k));
        let n = k + 1;
        if fields.len() >= 3 {
            match (dec_u16(fields[0]), dec_u16(fields[1]), dec_u16(fields[2])) {
                (Some(cb), Some(cx), Some(cy)) => match sgr_event(cb, v[k], cx, cy) {
                    Some(m) => (Some(EventView::Mouse(m)), n),
                    None => (None, n),
                },
                _ => (None, n),
            }
        } else {
            (None, n)
        }
    }
}

/// The mouse event named by an SGR button code and terminator.
pub open spec fn sgr_event(cb: u16, term: u8, cx: u16, cy: u16) -> Option<MouseEvent> {
    if cb == 0 || cb == 1 || cb == 2 || cb == 64 || cb == 65 {
        let button = if cb == 0 {
            MouseButton::Left
        } else if cb == 1 {
            MouseButton::Middle
        } else if cb == 2 {
            MouseButton::Right
        } else if cb == 64 {
            MouseButton::WheelUp
        } else {
            MouseButton::WheelDown
        };
        if term == 0x4d {
            Some(MouseEvent::Press(button, cx, cy))
        } else {
            Some(MouseEvent::Release(cx, cy))
        }
    } else if cb == 32 {
        Some(MouseEvent::Hold(cx, cy))
    } else if cb == 3 {
        Some(MouseEvent::Release(cx, cy))
    } else {
        None
    }
}

/// A numbered sequence after `ESC [`, beginning with a digit: parameter
/// bytes run to the first final byte, which picks the rxvt mouse
/// encoding (`M`), a special key (`~`), or nothing.
pub open spec fn num_tail(u: Seq<u8>) -> (Option<EventView>, int)
    recommends
        u.len() >= 1,
{
    let k = scan_len(u.skip(1), final_stop());
    if 1 + k >= u.len() {
        (None, u.len() as int)
    } else {
        let fields = semi_fields(u.take(1 + k));
        let fin = u[1 + k];
        let n = 1 + k + 1;
        if fin == 0x4d {
            (rxvt_event(fields), n)
        } else if fin == 0x7e {
            (tilde_event(fields), n)
        } else {
            (None, n)
        }
    }
}

/// The mouse event named by the rxvt encoding `ESC [ Cb ; Cx ; Cy M`.
pub open spec fn rxvt_event(fields: Seq<Seq<u8>>) -> Option<EventView> {
    if fields.len() >= 3 {
        match (dec_u16(fields[0]), dec_u16(fields[1]), dec_u16(fields[2])) {
            (Some(cb), Some(cx), Some(cy)) => {
                if cb == 32 {
                    Some(EventView::Mouse(MouseEvent::Press(MouseButton::Left, cx, cy)))
                } else if cb == 33 {
                    Some(EventView::Mouse(MouseEvent::Press(MouseButton::Middle, cx, cy)))
                } else if cb == 34 {
                    Some(EventView::Mouse(MouseEvent::Press(MouseButton::Right, cx, cy)))
                } else if cb == 35 {
                    Some(EventView::Mouse(MouseEvent::Release(cx, cy)))
                } else if cb == 64 {
                    Some(EventView::Mouse(MouseEvent::Hold(cx, cy)))
                } else if cb == 96 {
                    Some(EventView::Mouse(MouseEvent::Press(MouseButton::WheelUp, cx, cy)))
                } else if cb == 97 {
                    Some(EventView::Mouse(MouseEvent::Press(MouseButton::WheelDown, cx, cy)))
                } else {
                    None
                }
            },
            _ => None,
        }
    } else {
        None
    }
}

/// The key named by the tilde encoding `ESC [ code ~`, a single decimal
/// parameter; the function-key codes have documented gaps.
pub open spec fn tilde_event(fields: Seq<Seq<u8>>) -> Option<EventView> {
    if fields.len() == 1 {
        match dec_u16(fields[0]) {
            Some(v) => tilde_key(v),
            None => None,
        }
    } else {
        None
    }
}

/// The key for a tilde code: navigation keys at 1 through 8, and
/// F1 through F12 at 11 through 24 with gaps at 16 and 22.
pub open spec fn tilde_key(v: u16) -> Option<EventView> {
    if v == 1 || v == 7 {
        Some(EventView::Key(Key::Home))
    } else if v == 2 {
        Some(EventView::Key(Key::Insert))
    } else if v == 3 {
        Some(EventView::Key(Key::Delete))
    } else if v == 4 || v == 8 {
        Some(EventView::Key(Key::End))
    } else if v == 5 {
        Some(EventView::Key(Key::PageUp))
    } else if v == 6 {
        Some(EventView::Key(Key::PageDown))
    } else if 11 <= v && v <= 15 {
        Some(EventView::Key(Key::F((v - 10) as u8)))
    } else if 17 <= v && v <= 21 {
        Some(EventView::Key(Key::F((v - 11) as u8)))
    } else if v == 23 || v == 24 {
        Some(EventView::Key(Key::F((v - 12) as u8)))
    } else {
        None
    }
}

/// A control sequence after `ESC [`: arrows, Home and End, the old-style
/// function keys `ESC [ [ A..E`, the three mouse encodings, and the
/// numbered sequences.
pub open spec fn csi_tail(u: Seq<u8>) -> (Option<EventView>, int) {
    if u.len() == 0 {
        (None, 0)
    } else if u[0] == 0x5b {
        if u.len() >= 2 && 0x41 <= u[1] && u[1] <= 0x45 {
            (Some(EventView::Key(Key::F((u[1] - 0x40) as u8))), 2)
        } else if u.len() == 1 {
            (None, 1)
        } else {
            (None, 2)
        }
    } else if u[0] == 0x44 {
        (Some(EventView::Key(Key::Left)), 1)
    } else if u[0] == 0x43 {
        (Some(EventView::Key(Key::Right)), 1)
    } else if u[0] == 0x41 {
        (Some(EventView::Key(Key::Up)), 1)
    } else if u[0] == 0x42 {
        (Some(EventView::Key(Key::Down)), 1)
    } else if u[0] == 0x48 {
        (Some(EventView::Key(Key::Home)), 1)
    } else if u[0] == 0x46 {
        (Some(EventView::Key(Key::End)), 1)
    } else if u[0] == 0x4d {
        let (ev, n) = x10_tail(u.skip(1));
        (ev, 1 + n)
    } else if u[0] == 0x3c {
        let (ev, n) = sgr_tail(u.skip(1));
        (ev, 1 + n)
    } else if is_digit(u[0]) {
        num_tail(u)
    } else {
        (None, 1)
    }
}

/// One decode step: for non-empty pending input `s`, the event produced
/// and the exact number of bytes consumed. An unrecognised or truncated
/// sequence folds into `Unsupported` carrying precisely the consumed
/// bytes; nothing is consumed beyond them.
pub open spec fn event_step(s: Seq<u8>) -> (EventView, int)
    recommends
        s.len() >= 1,
{
    let b0 = s[0];
    if b0 == 0x1b {
        if s.len() == 1 {
            (EventView::Key(Key::Esc), 1)
        } else if s[1] == 0x4f {
            let (ev, n) = ss3_tail(s.skip(2));
            lift(s, ev, 2 + n)
        } else if s[1] == 0x5b {
            let (ev, n) = csi_tail(s.skip(2));
            lift(s, ev, 2 + n)
        } else {
            let (c, n) = utf8_tail(s.skip(1));
            match c {
                Some(ch) => (EventView::Key(Key::Alt(ch)), 1 + n),
                None => (EventView::Unsupported(s.take(1 + n)), 1 + n),
            }
        }
    } else if b0 == 0x0a || b0 == 0x0d {
        (EventView::Key(Key::Char('\n')), 1)
    } else if b0 == 0x09 {
        (EventView::Key(Key::Char('\t')), 1)
    } else if b0 == 0x7f {
        (EventView::Key(Key::Backspace), 1)
    } else if 1 <= b0 && b0 <= 0x1a {
        (EventView::Key(Key::Ctrl(ctrl_letter(b0))), 1)
    } else if 0x1c <= b0 && b0 <= 0x1f {
        (EventView::Key(Key::Ctrl(ctrl_digit(b0))), 1)
    } else if b0 == 0 {
        (EventView::Key(Key::Null), 1)
    } else {
        let (c, n) = utf8_tail(s);
        match c {
            Some(ch) => (EventView::Key(Key::Char(ch)), n),
            None => (EventView::Unsupported(s.take(n)), n),
        }
    }
}

/// A recognised sub-sequence keeps its event; a failed one folds into
/// `Unsupported` carrying the `n` bytes consumed from `s`.
pub open spec fn lift(s: Seq<u8>, ev: Option<EventView>, n: int) -> (EventView, int) {
    match ev {
        Some(e) => (e, n),
        None => (EventView::Unsupported(s.take(n)), n),
    }
}

/// Function-key aliasing: the SS3 encoding `ESC O P` through `ESC O S`
/// and the CSI tilde encoding `ESC [ 11~` through `ESC [ 24~` (with its
/// documented gaps at 16 and 22) both decode to the function keys
/// `F(1)` through `F(12)`, and to nothing else.
pub proof fn lemma_function_key_aliasing(v: u8, d1: u8, d2: u8)
    requires
        0x50 <= v <= 0x53,
        is_digit(d1),
        is_digit(d2),
        ({
            let code = (d1 - 0x30) * 10 + (d2 - 0x30);
            (11 <= code <= 15) || (17 <= code <= 21) || code == 23 || code == 24
        }),
    ensures
        event_step(seq![0x1bu8, 0x4fu8, v]) == (EventView::Key(Key::F((v - 0x4f) as u8)), 3int),
        ({
            let code = (d1 - 0x30) * 10 + (d2 - 0x30);
            let f = if code <= 15 {
                (code - 10) as u8
            } else if code <= 21 {
                (code - 11) as u8
            } else {
                (code - 12) as u8
            };
            event_step(seq![0x1bu8, 0x5bu8, d1, d2, 0x7eu8]) == (EventView::Key(Key::F(f)), 5int)
        }),
{
    let ss3 = seq![0x1bu8, 0x4fu8, v];
    assert(ss3.skip(2) =~= seq![v]);
    assert(event_step(ss3) == (EventView::Key(Key::F((v - 0x4f) as u8)), 3int));

    let s = seq![0x1bu8, 0x5bu8, d1, d2, 0x7eu8];
    let u = s.skip(2);
    assert(u =~= seq![d1, d2, 0x7eu8]);
    assert(u.skip(1) =~= seq![d2, 0x7eu8]);
    lemma_scan_len_is(u.skip(1), final_stop(), 1);
    let params = u.take(2);
    assert(params =~= seq![d1, d2]);
    lemma_scan_len_is(params, semi_stop(), 2);
    assert(semi_fields(params) == seq![params]);
    assert(params.drop_last() =~= seq![d1]);
    assert(seq![d1].drop_last() =~= Seq::<u8>::empty());
    assert(dec_val(Seq::<u8>::empty()) == 0);
    assert(dec_val(seq![d1]) == d1 - 0x30);
    assert(dec_val(params) == (d1 - 0x30) * 10 + (d2 - 0x30));
    assert(all_digits(params));
    let code = (d1 - 0x30) * 10 + (d2 - 0x30);
    assert(dec_u16(params) == Some(code as u16));
    assert(num_tail(u) == (tilde_event(semi_fields(params)), 5int - 2));
}

/// A decode step always consumes at least one byte and never more than
/// the pending input holds.
pub proof fn lemma_event_step_bounds(s: Seq<u8>)
    requires
        s.len() >= 1,
    ensures
        1 <= event_step(s).1 <= s.len(),
{
    let b0 = s[0];
    if b0 == 0x1b {
        if s.len() == 1 {
        } else if s[1] == 0x4f {
            // ss3_tail consumes at most one byte of s.skip(2)
        } else if s[1] == 0x5b {
            lemma_csi_tail_bounds(s.skip(2));
        } else {
            lemma_utf8_tail_bounds(s.skip(1));
        }
    } else {
        lemma_utf8_tail_bounds(s);
    }
}

/// `sgr_tail` stays within its input.
pub proof fn lemma_sgr_tail_bounds(v: Seq<u8>)
    ensures
        0 <= sgr_tail(v).1 <= v.len(),
{
    lemma_scan_len_bounds(v, sgr_stop());
}

/// `num_tail` stays within its input.
pub proof fn lemma_num_tail_bounds(u: Seq<u8>)
    requires
        u.len() >= 1,
    ensures
        1 <= num_tail(u).1 <= u.len(),
{
    lemma_scan_len_bounds(u.skip(1), final_stop());
}

/// `csi_tail` stays within its input.
pub proof fn lemma_csi_tail_bounds(u: Seq<u8>)
    ensures
        0 <= csi_tail(u).1 <= u.len(),
{
    if u.len() == 0 {
    } else if u[0] == 0x5b {
    } else if u[0] == 0x4d {
    } else if u[0] == 0x3c {
        lemma_scan_len_bounds(u.skip(1), sgr_stop());
    } else if is_digit(u[0]) {
        lemma_scan_len_bounds(u.skip(1), final_stop());
    } else {
    }
}

/// A UTF-8 decode attempt consumes at least the lead byte and stays
/// within its input.
pub proof fn lemma_utf8_tail_bounds(w: Seq<u8>)
    requires
        w.len() >= 1,
    ensures
        1 <= utf8_tail(w).1 <= w.len(),
{
    if valid_first_scalar(w) {
    }
}

} // verus!
