use rmux::args::{parse, Command};
use rmux::attach::{
    attach_request, incoming, initial_size, input_request, list_request, listing_output,
    listing_text, resize_request, Incoming,
};
use rmux::clipboard::{copy_sequence, push_base64};
use rmux::protocol::{
    frame, C2S_ATTACH, C2S_INPUT, C2S_LIST, C2S_RESIZE, S2C_BYE, S2C_LIST, S2C_OUTPUT,
};

#[test]
fn the_size_falls_back() {
    assert_eq!(initial_size(Some((120, 40))), (120, 40));
    assert_eq!(initial_size(Some((0, 40))), (80, 24));
    assert_eq!(initial_size(Some((120, 0))), (80, 24));
    assert_eq!(initial_size(None), (80, 24));
}

#[test]
fn requests_are_framed() {
    assert_eq!(attach_request((300, 24), "wörk"), frame(C2S_ATTACH, b"\x2c\x01\x18\x00w\xc3\xb6rk"));
    assert_eq!(input_request(b"\x1b[A"), frame(C2S_INPUT, b"\x1b[A"));
    assert_eq!(list_request(), frame(C2S_LIST, b""));
}

#[test]
fn only_a_new_size_is_sent() {
    let mut size = (80, 24);
    assert_eq!(resize_request(&mut size, Some((80, 24))), None);
    assert_eq!(resize_request(&mut size, None), None);
    assert_eq!(resize_request(&mut size, Some((0, 30))), None);
    assert_eq!(resize_request(&mut size, Some((90, 0))), None);
    assert_eq!(size, (80, 24));
    assert_eq!(resize_request(&mut size, Some((90, 24))), Some(frame(C2S_RESIZE, &[90, 0, 24, 0])));
    assert_eq!(size, (90, 24));
}

#[test]
fn frames_from_the_server_are_dispatched() {
    match incoming(S2C_OUTPUT, b"\x1b[2J".to_vec()) {
        Incoming::Output(b) => assert_eq!(b, b"\x1b[2J"),
        _ => panic!("output"),
    }
    match incoming(S2C_BYE, b"bye\xff".to_vec()) {
        Incoming::Bye(r) => assert_eq!(r, "bye\u{fffd}"),
        _ => panic!("goodbye"),
    }
    assert!(matches!(incoming(S2C_LIST, Vec::new()), Incoming::Ignore));
}

#[test]
fn listings_are_plain_when_piped() {
    let payload = b"\x1b[2m\xe2\x97\x8b a\x1b[0m\n".to_vec();
    assert_eq!(
        listing_output(S2C_LIST, &payload, true),
        Some("\x1b[2m○ a\x1b[0m\n".to_string())
    );
    assert_eq!(listing_output(S2C_LIST, &payload, false), Some("○ a\n".to_string()));
    assert_eq!(listing_output(S2C_OUTPUT, &payload, false), None);
    assert_eq!(listing_text("\x1b[1mx".to_string(), false), "x");
}

fn args(words: &[&str]) -> Command {
    parse(&words.iter().map(|w| w.to_string()).collect())
}

#[test]
fn the_command_line_is_parsed() {
    assert!(matches!(args(&["server"]), Command::Server));
    assert!(matches!(args(&["a", "work"]), Command::Attach(n) if n == "work"));
    assert!(matches!(args(&["attach", "work", "x"]), Command::Attach(n) if n == "work"));
    assert!(matches!(args(&["a"]), Command::NoName));
    assert!(matches!(args(&["attach"]), Command::NoName));
    assert!(matches!(args(&["list"]), Command::List));
    assert!(matches!(args(&["ls"]), Command::List));
    assert!(matches!(args(&[]), Command::Usage));
    assert!(matches!(args(&["lsx"]), Command::Usage));
    assert!(matches!(args(&["serve"]), Command::Usage));
}

#[test]
fn base64_is_padded() {
    for (plain, coded) in [
        (&b""[..], &b""[..]),
        (b"f", b"Zg=="),
        (b"fo", b"Zm8="),
        (b"foo", b"Zm9v"),
        (b"foob", b"Zm9vYg=="),
        (b"foobar", b"Zm9vYmFy"),
        (b"\xfb\xff\xbf", b"+/+/"),
    ] {
        let mut out = b">".to_vec();
        push_base64(&mut out, plain);
        assert_eq!(&out[1..], coded);
    }
}

#[test]
fn copying_uses_osc_52() {
    assert_eq!(copy_sequence("foo"), b"\x1b]52;c;Zm9v\x07");
    assert_eq!(copy_sequence("ä"), b"\x1b]52;c;w6Q=\x07");
}
