//! Further decoding checks: control bytes, UTF-8 characters, the mouse
//! encodings' variants, re-decoding, and line-reading error cases.

use term_input::Event;
use term_input::Key;
use term_input::MouseButton;
use term_input::MouseEvent;
use term_input::ReadError;
use term_input::TermRead;
use term_input::TermReadEventsAndRaw;
use term_input::parse_event;

#[test]
fn test_ctrl_and_control_bytes() {
    let mut i = b"\x03\x01\x1a\x1c\x1f\x00\n\r\t".to_vec().keys();
    assert_eq!(i.next().unwrap().unwrap(), Key::Ctrl('c'));
    assert_eq!(i.next().unwrap().unwrap(), Key::Ctrl('a'));
    assert_eq!(i.next().unwrap().unwrap(), Key::Ctrl('z'));
    assert_eq!(i.next().unwrap().unwrap(), Key::Ctrl('4'));
    assert_eq!(i.next().unwrap().unwrap(), Key::Ctrl('7'));
    assert_eq!(i.next().unwrap().unwrap(), Key::Null);
    assert_eq!(i.next().unwrap().unwrap(), Key::Char('\n'));
    assert_eq!(i.next().unwrap().unwrap(), Key::Char('\n'));
    assert_eq!(i.next().unwrap().unwrap(), Key::Char('\t'));
    assert!(i.next().is_none());
}

#[test]
fn test_utf8_chars() {
    // Two-, three- and four-byte encodings, plain and behind Alt.
    let mut bytes = Vec::new();
    bytes.extend_from_slice("é".as_bytes());
    bytes.extend_from_slice("€".as_bytes());
    bytes.extend_from_slice("😀".as_bytes());
    bytes.push(0x1B);
    bytes.extend_from_slice("é".as_bytes());
    let mut i = bytes.keys();
    assert_eq!(i.next().unwrap().unwrap(), Key::Char('é'));
    assert_eq!(i.next().unwrap().unwrap(), Key::Char('€'));
    assert_eq!(i.next().unwrap().unwrap(), Key::Char('😀'));
    assert_eq!(i.next().unwrap().unwrap(), Key::Alt('é'));
    assert!(i.next().is_none());
}

#[test]
fn test_invalid_utf8_is_unsupported() {
    // An impossible lead byte is folded into Unsupported on its own.
    let mut i = vec![0xFF, b'x'].events();
    assert_eq!(i.next().unwrap().unwrap(), Event::Unsupported(vec![0xFF]));
    assert_eq!(i.next().unwrap().unwrap(), Event::Key(Key::Char('x')));
    assert!(i.next().is_none());

    // A truncated encoding consumes what was available.
    let mut i = vec![0xC3].events();
    assert_eq!(i.next().unwrap().unwrap(), Event::Unsupported(vec![0xC3]));
    assert!(i.next().is_none());

    // A lead byte followed by a non-continuation byte.
    let mut i = vec![0xC3, b'a', b'b'].events();
    assert_eq!(
        i.next().unwrap().unwrap(),
        Event::Unsupported(vec![0xC3, b'a'])
    );
    assert_eq!(i.next().unwrap().unwrap(), Event::Key(Key::Char('b')));
    assert!(i.next().is_none());
}

#[test]
fn test_mouse_variants() {
    // Legacy: release (low bits 3), wheel down (low bits 1 with 0x40).
    let mut i = b"\x1B[M\x23\x25\x28\x1B[M\x61\x21\x21".to_vec().events();
    assert_eq!(
        i.next().unwrap().unwrap(),
        Event::Mouse(MouseEvent::Release(5, 8))
    );
    assert_eq!(
        i.next().unwrap().unwrap(),
        Event::Mouse(MouseEvent::Press(MouseButton::WheelDown, 1, 1))
    );

    // Extended: hold, wheel presses, and an explicit release code.
    let mut i = b"\x1B[<32;5;6M\x1B[<64;1;2M\x1B[<65;1;2M\x1B[<3;7;8M"
        .to_vec()
        .events();
    assert_eq!(
        i.next().unwrap().unwrap(),
        Event::Mouse(MouseEvent::Hold(5, 6))
    );
    assert_eq!(
        i.next().unwrap().unwrap(),
        Event::Mouse(MouseEvent::Press(MouseButton::WheelUp, 1, 2))
    );
    assert_eq!(
        i.next().unwrap().unwrap(),
        Event::Mouse(MouseEvent::Press(MouseButton::WheelDown, 1, 2))
    );
    assert_eq!(
        i.next().unwrap().unwrap(),
        Event::Mouse(MouseEvent::Release(7, 8))
    );

    // rxvt: middle and right presses, release, hold, both wheels.
    let mut i = b"\x1B[33;2;3M\x1B[34;2;3M\x1B[35;2;3M\x1B[64;2;3M\x1B[96;2;3M\x1B[97;2;3M"
        .to_vec()
        .events();
    assert_eq!(
        i.next().unwrap().unwrap(),
        Event::Mouse(MouseEvent::Press(MouseButton::Middle, 2, 3))
    );
    assert_eq!(
        i.next().unwrap().unwrap(),
        Event::Mouse(MouseEvent::Press(MouseButton::Right, 2, 3))
    );
    assert_eq!(
        i.next().unwrap().unwrap(),
        Event::Mouse(MouseEvent::Release(2, 3))
    );
    assert_eq!(
        i.next().unwrap().unwrap(),
        Event::Mouse(MouseEvent::Hold(2, 3))
    );
    assert_eq!(
        i.next().unwrap().unwrap(),
        Event::Mouse(MouseEvent::Press(MouseButton::WheelUp, 2, 3))
    );
    assert_eq!(
        i.next().unwrap().unwrap(),
        Event::Mouse(MouseEvent::Press(MouseButton::WheelDown, 2, 3))
    );
    assert!(i.next().is_none());
}

#[test]
fn test_unsupported_sequences() {
    // An out-of-range mouse code, an unknown tilde code, an unknown
    // final byte, and a bad decimal parameter all fold into Unsupported
    // carrying exactly the bytes consumed, and decoding resumes.
    let mut i = b"\x1B[<99;1;2Ma\x1B[99~b\x1B[5Xc\x1B[1;2~d".to_vec().events();
    assert_eq!(
        i.next().unwrap().unwrap(),
        Event::Unsupported(b"\x1B[<99;1;2M".to_vec())
    );
    assert_eq!(i.next().unwrap().unwrap(), Event::Key(Key::Char('a')));
    assert_eq!(
        i.next().unwrap().unwrap(),
        Event::Unsupported(b"\x1B[99~".to_vec())
    );
    assert_eq!(i.next().unwrap().unwrap(), Event::Key(Key::Char('b')));
    assert_eq!(
        i.next().unwrap().unwrap(),
        Event::Unsupported(b"\x1B[5X".to_vec())
    );
    assert_eq!(i.next().unwrap().unwrap(), Event::Key(Key::Char('c')));
    assert_eq!(
        i.next().unwrap().unwrap(),
        Event::Unsupported(b"\x1B[1;2~".to_vec())
    );
    assert_eq!(i.next().unwrap().unwrap(), Event::Key(Key::Char('d')));
    assert!(i.next().is_none());
}

#[test]
fn test_esc_at_end_of_stream() {
    // The escape byte surfacing through the carried-over slot is still a
    // standalone Escape key.
    let mut i = b"a\x1B".to_vec().keys();
    assert_eq!(i.next().unwrap().unwrap(), Key::Char('a'));
    assert_eq!(i.next().unwrap().unwrap(), Key::Esc);
    assert!(i.next().is_none());

    // An introducer with nothing after it is Unsupported.
    let mut i = b"\x1B[".to_vec().events();
    assert_eq!(
        i.next().unwrap().unwrap(),
        Event::Unsupported(vec![0x1B, b'['])
    );
    assert!(i.next().is_none());
}

#[test]
fn test_redecode_is_identical() {
    // Decoding the same fixed buffer twice from fresh decoders produces
    // an identical event sequence.
    let input = b"\x1Bayo\x7F\x1B[D\x1B[M\x00\x22\x24\x1B[\x00\x1BOP\xC3\xA9\x1B";
    let mut first = Vec::new();
    let mut i = input.to_vec().events();
    while let Some(res) = i.next() {
        first.push(res.unwrap());
    }
    let mut second = Vec::new();
    let mut i = input.to_vec().events();
    while let Some(res) = i.next() {
        second.push(res.unwrap());
    }
    assert_eq!(first, second);
    assert_eq!(first.len(), 10);
}

#[test]
fn test_parse_event_directly() {
    let mut extra = Some(b'[');
    let mut src: Vec<u8> = vec![b'D', b'x'];
    let (ev, raw) = parse_event(0x1B, &mut extra, &mut src).unwrap();
    assert_eq!(ev, Event::Key(Key::Left));
    assert_eq!(raw, vec![0x1B, b'[', b'D']);
    assert_eq!(extra, None);
    assert_eq!(src, vec![b'x']);

    // A carried-over byte that the decode does not consume stays put.
    let mut extra = Some(b'o');
    let mut src: Vec<u8> = Vec::new();
    let (ev, raw) = parse_event(b'y', &mut extra, &mut src).unwrap();
    assert_eq!(ev, Event::Key(Key::Char('y')));
    assert_eq!(raw, vec![b'y']);
    assert_eq!(extra, Some(b'o'));
}

#[test]
fn test_read_line_invalid_utf8() {
    let mut source = vec![0xFF, 0xFE, b'\n'];
    assert_eq!(source.read_line(), Err(ReadError::InvalidUtf8));

    // Backspace removes a single byte, which can split a character.
    let mut source = Vec::new();
    source.extend_from_slice("é".as_bytes());
    source.push(0x7F);
    source.push(b'\n');
    assert_eq!(source.read_line(), Err(ReadError::InvalidUtf8));

    // A multi-byte line survives intact.
    let mut source = Vec::new();
    source.extend_from_slice("héllo 😀".as_bytes());
    source.push(b'\n');
    assert_eq!(source.read_line(), Ok(Some(String::from("héllo 😀"))));
}

#[test]
fn test_empty_stream() {
    let mut i = Vec::new().events();
    assert!(i.next().is_none());
    let mut k = Vec::new().keys();
    assert!(k.next().is_none());
    let mut line_source: Vec<u8> = Vec::new();
    assert_eq!(line_source.read_line(), Ok(Some(String::new())));
}
