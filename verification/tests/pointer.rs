use rmux::mouse::{extract_mouse, MouseEvent};

fn clean(buf: &[u8]) -> (Vec<u8>, usize) {
    let (bytes, events) = extract_mouse(buf);
    (bytes, events.len())
}

#[test]
fn keys_pass_untouched() {
    assert_eq!(clean(b"hello\x1b[A\x1bOP"), (b"hello\x1b[A\x1bOP".to_vec(), 0));
    assert_eq!(clean(b""), (Vec::new(), 0));
}

#[test]
fn a_press_is_taken_out() {
    let (bytes, events) = extract_mouse(b"a\x1b[<0;12;7Mb");
    assert_eq!(bytes, b"ab");
    match &events[..] {
        [MouseEvent::Press { left: true, x: 12, y: 7, raw }] => {
            assert_eq!(raw, b"\x1b[<0;12;7M");
        }
        _ => panic!("one left press"),
    }
    let (_, events) = extract_mouse(b"\x1b[<2;1;1M");
    assert!(matches!(events[..], [MouseEvent::Press { left: false, x: 1, y: 1, .. }]));
}

#[test]
fn drags_and_releases_are_told_apart() {
    let (bytes, events) = extract_mouse(b"\x1b[<32;3;4M\x1b[<0;5;6m\x1b[<34;3;4M");
    assert!(bytes.is_empty());
    assert!(matches!(
        events[..],
        [MouseEvent::Drag { x: 3, y: 4, .. }, MouseEvent::Release { x: 5, y: 6, .. }]
    ));
}

#[test]
fn wheels_and_pages_scroll() {
    let (bytes, events) =
        extract_mouse(b"\x1b[<64;1;1M\x1b[<65;1;1M\x1b[<66;1;1M\x1b[<68;1;1M\x1b[5~x\x1b[6~");
    assert_eq!(bytes, b"x");
    assert!(matches!(
        events[..],
        [
            MouseEvent::Wheel { up: true, .. },
            MouseEvent::Wheel { up: false, .. },
            MouseEvent::Wheel { up: true, .. },
            MouseEvent::Page { up: true },
            MouseEvent::Page { up: false }
        ]
    ));
}

#[test]
fn odd_parameters_are_tolerated() {
    let (_, events) = extract_mouse(b"\x1b[<0M");
    assert!(matches!(events[..], [MouseEvent::Press { left: true, x: 1, y: 1, .. }]));
    let (_, events) = extract_mouse(b"\x1b[<0;0;99999M");
    assert!(matches!(events[..], [MouseEvent::Press { x: 1, y: 65535, .. }]));
    let (_, events) = extract_mouse(b"\x1b[<0;;4294967296M");
    assert!(matches!(events[..], [MouseEvent::Press { x: 1, y: 1, .. }]));
}

#[test]
fn a_fragment_is_dropped() {
    assert_eq!(clean(b"ab\x1b[<0;12"), (b"ab".to_vec(), 0));
    assert_eq!(clean(b"ab\x1b[<"), (b"ab".to_vec(), 0));
}

#[test]
fn what_is_no_mouse_sequence_stays() {
    assert_eq!(clean(b"\x1b[<12x"), (b"\x1b[<12x".to_vec(), 0));
    assert_eq!(clean(b"\x1b[7~"), (b"\x1b[7~".to_vec(), 0));
}
