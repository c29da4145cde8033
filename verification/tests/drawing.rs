use crossterm::style::force_color_output;
use rmux::ansi::{encode, strip_ansi, Attr, Cmd, Color};
use rmux::config::BarPosition;
use rmux::dividers::{
    box_char, collect_dividers, draw_dividers, touches, B_DOWN, B_LEFT, B_RIGHT, B_UP,
};
use rmux::grid::{apply_pen, color, draw_at, Cell, Grid, Pen, Rgb, Style};
use rmux::layout::{Layout, Rect, SplitDir};
use rmux::model::{Fresh, Session};
use rmux::render::{
    content_size, draw_manager, draw_naming, draw_session, draw_tab_bar, rows_above, ListItem,
};
use std::collections::BTreeMap;

const ACCENT: Color = Color::Rgb { r: 1, g: 2, b: 3 };

// The characters on a screen after drawing, and where the cursor was left.
fn paint(cmds: &[Cmd], w: usize, h: usize) -> Vec<String> {
    let mut screen = vec![vec![' '; w]; h];
    let (mut x, mut y) = (0usize, 0usize);
    for c in cmds {
        match c {
            Cmd::MoveTo(a, b) => {
                x = *a as usize;
                y = *b as usize;
            }
            Cmd::Print(s) => {
                for ch in s.chars() {
                    if y < h && x < w {
                        screen[y][x] = ch;
                    }
                    x += 1;
                }
            }
            Cmd::ClearAll => screen = vec![vec![' '; w]; h],
            _ => {}
        }
    }
    screen.into_iter().map(|r| r.into_iter().collect::<String>()).collect()
}

#[test]
fn content_leaves_the_bar_row() {
    assert_eq!(content_size((80, 24)), (80, 23));
    assert_eq!(content_size((80, 2)), (80, 1));
    assert_eq!(content_size((80, 1)), (80, 1));
    assert_eq!(content_size((80, 0)), (80, 0));
}

#[test]
fn box_characters_join_their_lines() {
    assert_eq!(box_char(B_UP | B_DOWN | B_LEFT | B_RIGHT), '┼');
    assert_eq!(box_char(B_UP | B_DOWN | B_LEFT), '┤');
    assert_eq!(box_char(B_UP | B_DOWN | B_RIGHT), '├');
    assert_eq!(box_char(B_UP | B_LEFT | B_RIGHT), '┴');
    assert_eq!(box_char(B_DOWN | B_LEFT | B_RIGHT), '┬');
    assert_eq!(box_char(B_UP | B_DOWN), '│');
    assert_eq!(box_char(B_LEFT | B_RIGHT), '─');
    assert_eq!(box_char(B_UP), '─');
    assert_eq!(box_char(0), '─');
}

#[test]
fn the_ring_around_a_pane() {
    let f = Rect { x: 5, y: 5, w: 3, h: 2 };
    for (x, y, on) in [
        (4, 4, true),
        (8, 7, true),
        (4, 6, true),
        (6, 4, true),
        (5, 5, false),
        (3, 5, false),
        (9, 7, false),
        (6, 8, false),
    ] {
        assert_eq!(touches(f, x, y), on, "{x},{y}");
    }
    assert!(touches(Rect { x: 0, y: 0, w: 3, h: 3 }, 3, 0));
}

fn pair(dir: SplitDir, a: Layout, b: Layout) -> Layout {
    Layout::Split { dir, a: Box::new(a), b: Box::new(b) }
}

#[test]
fn dividers_meet_in_tees_and_crossings() {
    // Four panes: a vertical divider with a horizontal one on each side.
    let l = pair(
        SplitDir::Vertical,
        pair(SplitDir::Horizontal, Layout::Pane(1), Layout::Pane(2)),
        pair(SplitDir::Horizontal, Layout::Pane(3), Layout::Pane(4)),
    );
    let full = Rect { x: 0, y: 0, w: 7, h: 5 };
    let mut out = Vec::new();
    draw_dividers(&mut out, &l, full, None, ACCENT);
    assert_eq!(
        paint(&out, 7, 5),
        vec!["   │   ", "   │   ", "───┼───", "   │   ", "   │   "]
    );
    let l = pair(
        SplitDir::Horizontal,
        pair(SplitDir::Vertical, Layout::Pane(1), Layout::Pane(2)),
        Layout::Pane(3),
    );
    let mut out = Vec::new();
    draw_dividers(&mut out, &l, full, None, ACCENT);
    assert_eq!(
        paint(&out, 7, 5),
        vec!["   │   ", "   │   ", "───┴───", "       ", "       "]
    );
}

#[test]
fn dividers_around_the_focused_pane_are_in_accent() {
    let l = pair(
        SplitDir::Vertical,
        Layout::Pane(1),
        pair(SplitDir::Horizontal, Layout::Pane(2), Layout::Pane(3)),
    );
    let full = Rect { x: 0, y: 0, w: 7, h: 5 };
    let focus = Rect { x: 4, y: 3, w: 3, h: 2 };
    let mut out = Vec::new();
    draw_dividers(&mut out, &l, full, Some(focus), ACCENT);
    let at = out.iter().position(|c| matches!(c, Cmd::Fg(c) if *c == ACCENT));
    let at = at.expect("an accent pass");
    assert_eq!(paint(&out[..at], 7, 3), vec!["   │   ", "   │   ", "       "]);
    assert_eq!(
        paint(&out[at..], 7, 5),
        vec!["       ", "       ", "   ├───", "   │   ", "   │   "]
    );
    assert!(matches!(out.last(), Some(Cmd::Fg(Color::Reset))));
}

#[test]
fn one_pane_has_no_dividers() {
    let mut out = Vec::new();
    draw_dividers(&mut out, &Layout::Pane(1), Rect { x: 0, y: 0, w: 9, h: 9 }, None, ACCENT);
    assert!(out.is_empty());
    let mut cells = BTreeMap::new();
    let l = pair(SplitDir::Vertical, Layout::Pane(1), Layout::Pane(2));
    collect_dividers(&l, Rect { x: 0, y: 1, w: 3, h: 2 }, &mut cells);
    let got: Vec<(u32, (u8, bool))> = cells.into_iter().collect();
    assert_eq!(
        got,
        vec![
            (1, (B_DOWN, false)),
            (65536 + 1, (B_UP | B_DOWN, true)),
            (2 * 65536 + 1, (B_UP | B_DOWN, true)),
            (3 * 65536 + 1, (B_UP, false)),
        ]
    );
}

#[test]
fn dividers_join_what_is_there() {
    let mut cells = BTreeMap::from([(65536 + 1, (B_LEFT, false)), (7, (B_UP, true))]);
    let before = cells.clone();
    collect_dividers(&Layout::Pane(1), Rect { x: 0, y: 0, w: 9, h: 9 }, &mut cells);
    assert_eq!(cells, before);
    let l = pair(SplitDir::Vertical, Layout::Pane(1), Layout::Pane(2));
    collect_dividers(&l, Rect { x: 0, y: 1, w: 3, h: 1 }, &mut cells);
    let got: Vec<(u32, (u8, bool))> = cells.into_iter().collect();
    assert_eq!(
        got,
        vec![
            (1, (B_DOWN, false)),
            (7, (B_UP, true)),
            (65536 + 1, (B_UP | B_DOWN | B_LEFT, true)),
            (2 * 65536 + 1, (B_UP, false)),
        ]
    );
}

fn pen(fg: u8, bold: bool) -> Pen {
    Pen {
        fg: Color::Rgb { r: fg, g: 0, b: 0 },
        bg: Color::Reset,
        bold,
        italic: false,
        underline: false,
    }
}

#[test]
fn a_pen_change_sends_what_differs() {
    let mut at = pen(1, false);
    let mut out = Vec::new();
    apply_pen(&mut out, &mut at, pen(1, false));
    assert!(out.is_empty());
    apply_pen(&mut out, &mut at, pen(2, false));
    assert!(matches!(out[..], [Cmd::Fg(Color::Rgb { r: 2, .. })]));
    out.clear();
    apply_pen(&mut out, &mut at, pen(2, true));
    assert!(matches!(
        out[..],
        [
            Cmd::Attr(Attr::Reset),
            Cmd::Attr(Attr::Bold),
            Cmd::Fg(Color::Rgb { r: 2, .. }),
            Cmd::Bg(Color::Reset)
        ]
    ));
    out.clear();
    let all = Pen { italic: true, underline: true, ..pen(2, false) };
    apply_pen(&mut out, &mut at, all);
    assert!(at == all);
    assert!(matches!(
        out[..],
        [
            Cmd::Attr(Attr::Reset),
            Cmd::Attr(Attr::Italic),
            Cmd::Attr(Attr::Underlined),
            Cmd::Fg(_),
            Cmd::Bg(_)
        ]
    ));
}

const WHITE: Rgb = Rgb { r: 255, g: 255, b: 255 };
const BLACK: Rgb = Rgb { r: 0, g: 0, b: 0 };
const RED: Rgb = Rgb { r: 200, g: 0, b: 0 };

fn cell(text: &str) -> Cell {
    Cell { spacer: false, fg: None, bg: None, style: None, text: text.to_string() }
}

fn grid(rows: &[&str]) -> Grid {
    Grid {
        fg: WHITE,
        bg: BLACK,
        rows: rows.iter().map(|r| r.chars().map(|c| cell(&c.to_string())).collect()).collect(),
        cursor: None,
    }
}

#[test]
fn a_grid_is_drawn_cell_by_cell() {
    let mut g = grid(&["ab", "  "]);
    g.rows[1] = vec![
        cell("漢"),
        Cell { spacer: true, ..cell("x") },
        cell(""),
        Cell { fg: Some(RED), ..cell("r") },
        Cell {
            style: Some(Style { bold: true, italic: false, underline: false, inverse: true }),
            ..cell("i")
        },
    ];
    g.cursor = Some((1, 1));
    let mut out = Vec::new();
    let cursor = draw_at(&g, &mut out, Rect { x: 10, y: 5, w: 5, h: 2 });
    assert_eq!(cursor, Some((11, 6)));
    force_color_output(true);
    assert_eq!(
        encode(&out),
        "\x1b[0m\x1b[38;2;255;255;255m\x1b[48;2;0;0;0m\x1b[6;11Hab\x1b[7;11H漢 \
         \x1b[38;2;200;0;0mr\x1b[0m\x1b[1m\x1b[38;2;0;0;0m\x1b[48;2;255;255;255mi"
    );
    assert!(color(RED) == Color::Rgb { r: 200, g: 0, b: 0 });
}

fn session() -> Session {
    let mut f = Fresh { session: 1, pane: 1, now: 0 };
    let mut fx = Vec::new();
    let mut s = Session::new((21, 5), "main".to_string(), &mut f, &mut fx);
    s.tabs[0].split(SplitDir::Vertical, (21, 5), &mut f, &mut fx);
    s
}

#[test]
fn the_tab_bar_shows_what_fits() {
    let mut s = session();
    s.tabs[0].zoomed = true;
    let mut f = Fresh { session: 5, pane: 50, now: 0 };
    let mut fx = Vec::new();
    let other = Session::new((21, 5), "x".to_string(), &mut f, &mut fx);
    s.tabs.extend(other.tabs);
    s.tabs[1].name = "logs".to_string();
    let bar_at = |cols: u16, bar: BarPosition| {
        let mut out = Vec::new();
        draw_tab_bar(&mut out, &s, (cols, 6), ACCENT, bar);
        force_color_output(true);
        encode(&out)
    };
    let bar = |cols: u16| bar_at(cols, BarPosition::Bottom);
    assert_eq!(
        bar(40),
        "\x1b[6;1H\x1b[0m\x1b[38;2;1;2;3m\x1b[7m main \x1b[0m\x1b[38;2;1;2;3m\x1b[7m tab 1 [F] \
         \x1b[0m\x1b[2m logs \x1b[0m\x1b[K"
    );
    assert_eq!(strip_ansi(&bar(22)), " main  tab 1 [F] ");
    assert_eq!(strip_ansi(&bar(16)), " main ");
    assert_eq!(strip_ansi(&bar(5)), "");
    assert_eq!(bar_at(5, BarPosition::Top), "\x1b[1;1H\x1b[0m\x1b[K");
}

#[test]
fn a_session_is_drawn_with_panes_dividers_bar_and_cursor() {
    let s = session();
    let mut right = grid(&["right"]);
    right.cursor = Some((2, 0));
    let grids = vec![grid(&["left"]), right];
    let mut out = Vec::new();
    draw_session(&s, &grids, &mut out, (21, 6), ACCENT, BarPosition::Bottom);
    let screen = paint(&out, 21, 6);
    assert_eq!(screen[0], "left      │right     ");
    assert_eq!(screen[4], "          │          ");
    assert_eq!(screen[5], " main  tab 1         ");
    let n = out.len();
    assert!(matches!(out[n - 3..], [Cmd::MoveTo(13, 0), Cmd::Show, Cmd::EndSync]));
    assert!(matches!(out[..2], [Cmd::BeginSync, Cmd::Hide]));
}

#[test]
fn a_bar_on_top_moves_the_panes_down() {
    assert_eq!(rows_above(BarPosition::Top, (21, 2)), 1);
    assert_eq!(rows_above(BarPosition::Top, (21, 1)), 0);
    assert_eq!(rows_above(BarPosition::Bottom, (21, 2)), 0);
    let s = session();
    let mut right = grid(&["right"]);
    right.cursor = Some((2, 0));
    let grids = vec![grid(&["left"]), right];
    let mut out = Vec::new();
    draw_session(&s, &grids, &mut out, (21, 6), ACCENT, BarPosition::Top);
    let screen = paint(&out, 21, 6);
    assert_eq!(screen[0], " main  tab 1         ");
    assert_eq!(screen[1], "left      │right     ");
    assert_eq!(screen[5], "          │          ");
    let n = out.len();
    assert!(matches!(out[n - 3..], [Cmd::MoveTo(13, 1), Cmd::Show, Cmd::EndSync]));
}

#[test]
fn a_bar_on_top_needs_a_second_row() {
    let mut s = session();
    s.tabs[0].zoomed = true;
    let mut out = Vec::new();
    draw_session(&s, &vec![grid(&["only"])], &mut out, (21, 1), ACCENT, BarPosition::Top);
    assert_eq!(paint(&out, 21, 1), vec!["only                 "]);
    let mut out = Vec::new();
    draw_session(&s, &vec![grid(&["only"])], &mut out, (21, 3), ACCENT, BarPosition::Top);
    assert_eq!(paint(&out, 21, 3)[1], "only                 ");
}

#[test]
fn a_zoomed_session_shows_one_pane() {
    let mut s = session();
    s.tabs[0].zoomed = true;
    let mut out = Vec::new();
    draw_session(&s, &vec![grid(&["only"])], &mut out, (21, 1), ACCENT, BarPosition::Bottom);
    assert_eq!(paint(&out, 21, 1), vec!["only                 "]);
    assert!(matches!(out.last(), Some(Cmd::EndSync)));
}

fn item(label: &str, active: bool, dim: bool) -> ListItem {
    ListItem { label: label.to_string(), active, dim }
}

#[test]
fn a_very_long_label_fills_the_screen() {
    for n in [36usize, 60, 65531, 65540, 70000] {
        let items = vec![item(&"x".repeat(n), false, false)];
        let mut out = Vec::new();
        draw_manager(&mut out, "t", &items, 0, (40, 12), ACCENT, "");
        let screen = paint(&out, 40, 12);
        let wide: Vec<&String> = screen.iter().filter(|r| r.starts_with(" ╭")).collect();
        assert_eq!(wide.len(), 1, "{n}");
        assert!(wide[0].ends_with("╮ "));
    }
}

#[test]
fn a_manager_is_a_centered_panel() {
    let items = vec![item("one", true, false), item("two", false, true), item("three", false, false)];
    let mut out = Vec::new();
    draw_manager(&mut out, "sessions", &items, 2, (40, 12), ACCENT, "esc close");
    let screen = paint(&out, 40, 12);
    assert_eq!(screen[2], "        ╭─ sessions ───────────╮        ");
    assert_eq!(screen[3], "        │                      │        ");
    assert_eq!(screen[4], "        │   ● one              │        ");
    assert_eq!(screen[5], "        │     two              │        ");
    assert_eq!(screen[6], "        │ ❯   three            │        ");
    assert_eq!(screen[8], "        │ esc close            │        ");
    assert_eq!(screen[9], "        ╰──────────────────────╯        ");
}

#[test]
fn a_long_list_is_windowed() {
    let items: Vec<ListItem> =
        (0..20).map(|i| item(&format!("entry {i}"), false, false)).collect();
    let mut out = Vec::new();
    draw_manager(&mut out, "t", &items, 11, (30, 10), ACCENT, "f");
    let screen = paint(&out, 30, 10).join("\n");
    assert!(screen.contains("entry 8") && screen.contains("❯   entry 11"));
    assert!(!screen.contains("entry 7") && !screen.contains("entry 12"));
    let mut out = Vec::new();
    draw_manager(&mut out, "t", &Vec::new(), 0, (30, 10), ACCENT, "f");
    assert!(!paint(&out, 30, 10).join("\n").contains("❯"));
}

#[test]
fn long_labels_are_cut() {
    let items = vec![item(&"x".repeat(60), false, false)];
    let mut out = Vec::new();
    draw_manager(&mut out, &"t".repeat(60), &items, 0, (30, 10), ACCENT, "f");
    let screen = paint(&out, 30, 10);
    assert!(screen.iter().any(|r| r.contains(&format!("❯   {}…", "x".repeat(19)))));
    assert!(screen.iter().any(|r| r.contains(&format!("╭─ {}… ╮", "t".repeat(23)))));
}

#[test]
fn the_name_prompt_parks_the_cursor() {
    let mut out = Vec::new();
    draw_naming(&mut out, "new tab", "logs", (40, 12), ACCENT, "esc cancel");
    let screen = paint(&out, 40, 12);
    assert_eq!(screen[3], "        ╭─ new tab ────────────╮        ");
    assert_eq!(screen[5], "        │ ❯ logs               │        ");
    assert_eq!(screen[7], "        │ esc cancel           │        ");
    assert_eq!(screen[8], "        ╰──────────────────────╯        ");
    let n = out.len();
    assert!(matches!(out[n - 3..], [Cmd::MoveTo(16, 5), Cmd::Show, Cmd::EndSync]));
}
