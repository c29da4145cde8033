use rmux::text::{
    fit, is_control, is_white_space, push_chars, push_decimal, push_repeated, starts_at, to_chars,
    trim,
};

#[test]
fn fit_cuts_with_an_ellipsis() {
    assert_eq!(fit("session", 10), "session");
    assert_eq!(fit("session", 7), "session");
    assert_eq!(fit("session", 6), "sessi…");
    assert_eq!(fit("session", 1), "…");
    assert_eq!(fit("session", 0), "");
    assert_eq!(fit("ab", 0), "");
    assert_eq!(fit("", 0), "");
    assert_eq!(fit("äöüß", 3), "äö…");
}

#[test]
fn trim_drops_outer_white_space() {
    for s in ["  a b ", "\t\nx\r", "", "   ", "\u{a0}y\u{3000}", "z"] {
        assert_eq!(trim(s), s.trim());
    }
}

#[test]
fn white_space_and_control_agree_with_char() {
    for n in 0..0x3100u32 {
        if let Some(c) = char::from_u32(n) {
            assert_eq!(is_white_space(c), c.is_whitespace(), "{n:x}");
            assert_eq!(is_control(c), c.is_control(), "{n:x}");
        }
    }
}

#[test]
fn decimal_numbers() {
    for n in [0u128, 7, 10, 99, 100, 65536, u64::MAX as u128, u128::MAX] {
        let mut s = String::from("n=");
        push_decimal(&mut s, n);
        assert_eq!(s, format!("n={n}"));
    }
}

#[test]
fn characters_and_repeats() {
    let chars = to_chars("aé❯z");
    assert_eq!(chars, vec!['a', 'é', '❯', 'z']);
    let mut s = String::new();
    push_chars(&mut s, &chars, 1, 3);
    push_repeated(&mut s, '─', 3);
    push_repeated(&mut s, 'x', 0);
    assert_eq!(s, "é❯───");
}

#[test]
fn patterns_in_bytes() {
    assert!(starts_at(b"abc", 1, b"bc"));
    assert!(starts_at(b"abc", 3, b""));
    assert!(!starts_at(b"abc", 2, b"cd"));
    assert!(!starts_at(b"abc", 0, b"b"));
}
