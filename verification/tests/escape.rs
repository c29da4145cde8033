use crossterm::style::force_color_output;
use rmux::ansi::{encode, strip_ansi, Attr, Cmd, Color};

fn one(c: Cmd) -> String {
    force_color_output(true);
    encode(&vec![c])
}

#[test]
fn each_command_has_its_sequence() {
    assert_eq!(one(Cmd::BeginSync), "\x1b[?2026h");
    assert_eq!(one(Cmd::EndSync), "\x1b[?2026l");
    assert_eq!(one(Cmd::Hide), "\x1b[?25l");
    assert_eq!(one(Cmd::Show), "\x1b[?25h");
    assert_eq!(one(Cmd::MoveTo(0, 0)), "\x1b[1;1H");
    assert_eq!(one(Cmd::MoveTo(9, 41)), "\x1b[42;10H");
    assert_eq!(one(Cmd::ClearAll), "\x1b[2J");
    assert_eq!(one(Cmd::ClearLine), "\x1b[K");
    assert_eq!(one(Cmd::Print("a\u{2502}b".to_string())), "a\u{2502}b");
}

#[test]
fn each_attribute_has_its_sequence() {
    assert_eq!(one(Cmd::Attr(Attr::Reset)), "\x1b[0m");
    assert_eq!(one(Cmd::Attr(Attr::Bold)), "\x1b[1m");
    assert_eq!(one(Cmd::Attr(Attr::Dim)), "\x1b[2m");
    assert_eq!(one(Cmd::Attr(Attr::Italic)), "\x1b[3m");
    assert_eq!(one(Cmd::Attr(Attr::Underlined)), "\x1b[4m");
    assert_eq!(one(Cmd::Attr(Attr::Reverse)), "\x1b[7m");
}

#[test]
fn colors_are_written_out() {
    let c = Color::Rgb { r: 0x7a, g: 0xa2, b: 0xf7 };
    assert_eq!(one(Cmd::Fg(c)), "\x1b[38;2;122;162;247m");
    assert_eq!(one(Cmd::Bg(c)), "\x1b[48;2;122;162;247m");
    assert_eq!(one(Cmd::Fg(Color::Reset)), "\x1b[39m");
    assert_eq!(one(Cmd::Bg(Color::Reset)), "\x1b[49m");
}

#[test]
fn commands_are_written_in_order() {
    force_color_output(true);
    let queue = vec![
        Cmd::MoveTo(1, 2),
        Cmd::Attr(Attr::Bold),
        Cmd::Print("hi".to_string()),
        Cmd::Attr(Attr::Reset),
    ];
    assert_eq!(encode(&queue), "\x1b[3;2H\x1b[1mhi\x1b[0m");
}

#[test]
fn stripping_drops_csi_sequences() {
    assert_eq!(strip_ansi("plain"), "plain");
    assert_eq!(strip_ansi("\x1b[1mbold\x1b[0m"), "bold");
    assert_eq!(strip_ansi("\x1b[38;2;1;2;3m● \x1b[39mx"), "● x");
    assert_eq!(strip_ansi("a\x1bb"), "ab");
    assert_eq!(strip_ansi("a\x1b"), "a");
    assert_eq!(strip_ansi("a\x1b[12"), "a");
    assert_eq!(strip_ansi("\x1b\x1b[1mz"), "z");
}

#[test]
fn stripping_an_encoded_queue_leaves_its_texts() {
    let queue = vec![
        Cmd::BeginSync,
        Cmd::Fg(Color::Rgb { r: 1, g: 22, b: 255 }),
        Cmd::Print("one ".to_string()),
        Cmd::MoveTo(100, 7),
        Cmd::Bg(Color::Reset),
        Cmd::Attr(Attr::Dim),
        Cmd::Print("two".to_string()),
        Cmd::ClearLine,
        Cmd::EndSync,
    ];
    let text = encode(&queue);
    assert_eq!(strip_ansi(&text), "one two");
    assert_eq!(strip_ansi(&strip_ansi(&text)), "one two");
}
