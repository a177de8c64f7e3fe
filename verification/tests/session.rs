use tokio_workq::{Error, Session};

fn texts(items: &[&str]) -> Vec<String> {
    items.iter().map(|s| s.to_string()).collect()
}

#[test]
fn a_new_session_is_open_and_empty() {
    let mut s = Session::new();
    assert!(!s.is_closed());
    assert_eq!(s.transmit(), Vec::<u8>::new());
    let got = s.receive(b"");
    assert_eq!(got.messages, Vec::<String>::new());
    assert_eq!(got.fault, None);
}

#[test]
fn send_queues_frames_in_order() {
    let mut s = Session::new();
    assert_eq!(s.send("one".to_string()), Ok(()));
    assert_eq!(s.send("two".to_string()), Ok(()));
    assert_eq!(s.transmit(), b"one\ntwo\n");
    assert_eq!(s.transmit(), b"");
    assert_eq!(s.send("three".to_string()), Ok(()));
    assert_eq!(s.transmit(), b"three\n");
}

#[test]
fn one_read_may_bring_several_messages_or_none() {
    let mut s = Session::new();
    let got = s.receive(b"a\nb\nc");
    assert_eq!(got.messages, texts(&["a", "b"]));
    assert_eq!(got.fault, None);
    let got = s.receive(b"d");
    assert_eq!(got.messages, Vec::<String>::new());
    let got = s.receive(b"\n");
    assert_eq!(got.messages, texts(&["cd"]));
    assert_eq!(got.fault, None);
    assert!(!s.is_closed());
}

#[test]
fn byte_by_byte_brings_the_same_messages() {
    let wire = b"first\nsecond\n\nlast\ntail";
    let mut whole = Session::new();
    let at_once = whole.receive(wire).messages;
    assert_eq!(at_once, texts(&["first", "second", "", "last"]));

    let mut slow = Session::new();
    let mut seen = Vec::new();
    for byte in wire.iter() {
        let got = slow.receive(&[*byte]);
        assert_eq!(got.fault, None);
        if *byte != b'\n' {
            assert_eq!(got.messages.len(), 0);
        }
        seen.extend(got.messages);
    }
    assert_eq!(seen, at_once);
    assert_eq!(slow.receive(b"\n").messages, whole.receive(b"\n").messages);
}

#[test]
fn a_frame_that_is_not_text_tears_the_session_down() {
    let mut s = Session::new();
    let got = s.receive(&[b'o', b'k', b'\n', 0xff, b'\n', b'l', b'o', b's', b't', b'\n', b'x']);
    assert_eq!(got.messages, texts(&["ok"]));
    assert_eq!(got.fault, Some(Error::InvalidEncoding));
    assert!(s.is_closed());
    let got = s.receive(b"more\n");
    assert_eq!(got.messages, Vec::<String>::new());
    assert_eq!(got.fault, None);
    assert_eq!(s.send("late".to_string()), Err(Error::ConnectionFailed));
    assert_eq!(s.transmit(), b"");
}

#[test]
fn close_discards_what_was_held_back_and_keeps_what_waits() {
    let mut s = Session::new();
    assert_eq!(s.send("out".to_string()), Ok(()));
    assert_eq!(s.receive(b"half").messages.len(), 0);
    s.close();
    assert!(s.is_closed());
    assert_eq!(s.receive(b" done\n").messages, Vec::<String>::new());
    assert_eq!(s.send("no".to_string()), Err(Error::ConnectionFailed));
    assert_eq!(s.transmit(), b"out\n");
}
