//! The original input-stream tests: keys, events, raw captures, function
//! and special keys, and line reading.

use term_input::Event;
use term_input::Key;
use term_input::MouseButton;
use term_input::MouseEvent;
use term_input::TermRead;
use term_input::TermReadEventsAndRaw;

#[test]
fn test_keys() {
    let mut i = b"\x1Bayo\x7F\x1B[D".to_vec().keys();

    assert_eq!(i.next().unwrap().unwrap(), Key::Alt('a'));
    assert_eq!(i.next().unwrap().unwrap(), Key::Char('y'));
    assert_eq!(i.next().unwrap().unwrap(), Key::Char('o'));
    assert_eq!(i.next().unwrap().unwrap(), Key::Backspace);
    assert_eq!(i.next().unwrap().unwrap(), Key::Left);
    assert!(i.next().is_none());
}

#[test]
fn test_events() {
    let mut i = b"\x1B[\x00bc\x7F\x1B[D\
                    \x1B[M\x00\x22\x24\x1B[<0;2;4;M\x1B[32;2;4M\x1B[<0;2;4;m\x1B[35;2;4Mb"
        .to_vec()
        .events();

    assert_eq!(
        i.next().unwrap().unwrap(),
        Event::Unsupported(vec![0x1B, b'[', 0x00])
    );
    assert_eq!(i.next().unwrap().unwrap(), Event::Key(Key::Char('b')));
    assert_eq!(i.next().unwrap().unwrap(), Event::Key(Key::Char('c')));
    assert_eq!(i.next().unwrap().unwrap(), Event::Key(Key::Backspace));
    assert_eq!(i.next().unwrap().unwrap(), Event::Key(Key::Left));
    assert_eq!(
        i.next().unwrap().unwrap(),
        Event::Mouse(MouseEvent::Press(MouseButton::WheelUp, 2, 4))
    );
    assert_eq!(
        i.next().unwrap().unwrap(),
        Event::Mouse(MouseEvent::Press(MouseButton::Left, 2, 4))
    );
    assert_eq!(
        i.next().unwrap().unwrap(),
        Event::Mouse(MouseEvent::Press(MouseButton::Left, 2, 4))
    );
    assert_eq!(
        i.next().unwrap().unwrap(),
        Event::Mouse(MouseEvent::Release(2, 4))
    );
    assert_eq!(
        i.next().unwrap().unwrap(),
        Event::Mouse(MouseEvent::Release(2, 4))
    );
    assert_eq!(i.next().unwrap().unwrap(), Event::Key(Key::Char('b')));
    assert!(i.next().is_none());
}

#[test]
fn test_events_and_raw() {
    let input = b"\x1B[\x00bc\x7F\x1B[D\
                    \x1B[M\x00\x22\x24\x1B[<0;2;4;M\x1B[32;2;4M\x1B[<0;2;4;m\x1B[35;2;4Mb";
    let expected = vec![
        Event::Unsupported(vec![0x1B, b'[', 0x00]),
        Event::Key(Key::Char('b')),
        Event::Key(Key::Char('c')),
        Event::Key(Key::Backspace),
        Event::Key(Key::Left),
        Event::Mouse(MouseEvent::Press(MouseButton::WheelUp, 2, 4)),
        Event::Mouse(MouseEvent::Press(MouseButton::Left, 2, 4)),
        Event::Mouse(MouseEvent::Press(MouseButton::Left, 2, 4)),
        Event::Mouse(MouseEvent::Release(2, 4)),
        Event::Mouse(MouseEvent::Release(2, 4)),
        Event::Key(Key::Char('b')),
    ];
    let mut output = Vec::<u8>::new();
    let mut events = Vec::<Event>::new();
    let mut i = input.to_vec().events_and_raw();
    while let Some(res) = i.next() {
        let (event, raw) = res.unwrap();
        output.extend(raw);
        events.push(event);
    }

    assert_eq!(events, expected);
    assert_eq!(input.iter().map(|b| *b).collect::<Vec<u8>>(), output)
}

#[test]
fn test_function_keys() {
    let mut st = b"\x1BOP\x1BOQ\x1BOR\x1BOS".to_vec().keys();
    for i in 1..5 {
        assert_eq!(st.next().unwrap().unwrap(), Key::F(i));
    }

    let mut st = b"\x1B[11~\x1B[12~\x1B[13~\x1B[14~\x1B[15~\
        \x1B[17~\x1B[18~\x1B[19~\x1B[20~\x1B[21~\x1B[23~\x1B[24~"
        .to_vec()
        .keys();
    for i in 1..13 {
        assert_eq!(st.next().unwrap().unwrap(), Key::F(i));
    }
}

#[test]
fn test_special_keys() {
    let mut st = b"\x1B[2~\x1B[H\x1B[7~\x1B[5~\x1B[3~\x1B[F\x1B[8~\x1B[6~"
        .to_vec()
        .keys();
    assert_eq!(st.next().unwrap().unwrap(), Key::Insert);
    assert_eq!(st.next().unwrap().unwrap(), Key::Home);
    assert_eq!(st.next().unwrap().unwrap(), Key::Home);
    assert_eq!(st.next().unwrap().unwrap(), Key::PageUp);
    assert_eq!(st.next().unwrap().unwrap(), Key::Delete);
    assert_eq!(st.next().unwrap().unwrap(), Key::End);
    assert_eq!(st.next().unwrap().unwrap(), Key::End);
    assert_eq!(st.next().unwrap().unwrap(), Key::PageDown);
    assert!(st.next().is_none());
}

#[test]
fn test_esc_key() {
    let mut st = b"\x1B".to_vec().keys();
    assert_eq!(st.next().unwrap().unwrap(), Key::Esc);
    assert!(st.next().is_none());
}

fn line_match(a: &str, b: Option<&str>) {
    let mut line_source = a.as_bytes().to_vec();
    let mut pass_source = a.as_bytes().to_vec();

    let line = line_source.read_line().unwrap();
    let pass = pass_source.read_passwd().unwrap();

    assert_eq!(line, pass);

    if let Some(l) = line {
        assert_eq!(Some(l.as_str()), b);
    } else {
        assert!(b.is_none());
    }
}

#[test]
fn test_read() {
    let test1 = "this is the first test";
    let test2 = "this is the second test";

    line_match(test1, Some(test1));
    line_match(test2, Some(test2));
}

#[test]
fn test_backspace() {
    line_match(
        "this is the\x7f first\x7f\x7f test",
        Some("this is th fir test"),
    );
    line_match(
        "this is the seco\x7fnd test\x7f",
        Some("this is the secnd tes"),
    );
}

#[test]
fn test_end() {
    line_match(
        "abc\nhttps://www.youtube.com/watch?v=dQw4w9WgXcQ",
        Some("abc"),
    );
    line_match(
        "hello\rhttps://www.youtube.com/watch?v=yPYZpwSpKmA",
        Some("hello"),
    );
}

#[test]
fn test_abort() {
    line_match("abc\x03https://www.youtube.com/watch?v=dQw4w9WgXcQ", None);
    line_match("hello\x04https://www.youtube.com/watch?v=yPYZpwSpKmA", None);
}
