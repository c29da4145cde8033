use rmux::ansi::Color;
use rmux::config::{BarPosition, Config, Overlay, Pin};
use rmux::effect::Effect;
use rmux::input::{handle_input, handle_search, list_names, Mode};
use rmux::model::{Fresh, Session, Tab};
use rmux::search::{find_rows, search_keys, SearchOutcome};
use rmux::select::SelectState;
use rmux::sessions::create_session;

const SIZE: (u16, u16) = (81, 23);
const SESSIONS: Overlay = Overlay::Sessions { agents: false };

fn names(words: &[&str]) -> Vec<String> {
    words.iter().map(|w| w.to_string()).collect()
}

#[test]
fn rows_hold_the_text() {
    let n = names(&["web", "database", "wa", ""]);
    assert_eq!(find_rows(&n, ""), vec![0, 1, 2, 3]);
    assert_eq!(find_rows(&n, "w"), vec![0, 2]);
    assert_eq!(find_rows(&n, "aba"), vec![1]);
    assert_eq!(find_rows(&n, "webs"), Vec::<usize>::new());
    assert_eq!(find_rows(&names(&["äöü", "öü"]), "öü"), vec![0, 1]);
}

fn search(keys: &str, text: &str, at: usize) -> (String, usize, SearchOutcome) {
    let (mut text, mut at) = (text.to_string(), at);
    let chars: Vec<char> = keys.chars().collect();
    let r = search_keys(&chars, &names(&["web", "database", "wa", "b"]), &mut text, &mut at);
    (text, at, r)
}

#[test]
fn typing_restricts_and_arrows_move() {
    assert!(search("b", "", 2) == ("b".to_string(), 0, SearchOutcome::Pending));
    assert!(search("\u{1b}[B\u{1b}[B\u{1b}[B", "b", 0) == ("b".to_string(), 2, SearchOutcome::Pending));
    assert!(search("\u{1b}[A", "b", 0) == ("b".to_string(), 0, SearchOutcome::Pending));
    assert!(search("\u{1b}[B", "zz", 4) == ("zz".to_string(), 0, SearchOutcome::Pending));
    assert!(search("\u{7f}", "b", 1) == (String::new(), 0, SearchOutcome::Pending));
    assert!(search("\u{7}", "b", 1) == ("b".to_string(), 1, SearchOutcome::Pending));
    assert!(search("a\rb", "b", 0) == ("ba".to_string(), 0, SearchOutcome::Accept));
    assert!(search("\u{1b}", "b", 1) == ("b".to_string(), 1, SearchOutcome::Cancel));
    assert_eq!(search(&"x".repeat(50), "", 0).0.len(), 40);
}

struct World {
    config: Config,
    sessions: Vec<Session>,
    active: usize,
    mode: Mode,
    select: SelectState,
    fresh: Fresh,
    fx: Vec<Effect>,
}

impl World {
    fn new(running: &[&str]) -> World {
        let mut w = World {
            config: Config {
                accent: Color::Reset,
                bar_position: BarPosition::Bottom,
                select_copy: true,
                pins: vec![Pin { name: "pinned".to_string() }],
                bindings: Vec::new(),
            },
            sessions: Vec::new(),
            active: 0,
            mode: Mode::Manager { overlay: SESSIONS, selected: 0 },
            select: SelectState::default(),
            fresh: Fresh { session: 1, pane: 1, now: 0 },
            fx: Vec::new(),
        };
        for n in running {
            create_session(
                &mut w.sessions,
                &w.config,
                SIZE,
                n.to_string(),
                &mut w.fresh,
                &mut w.fx,
            );
        }
        w
    }

    fn keys(&mut self, keys: &[u8]) {
        handle_input(
            keys,
            &mut self.mode,
            &mut self.sessions,
            &mut self.active,
            SIZE,
            &self.config,
            &mut self.select,
            &mut self.fresh,
            &mut self.fx,
        );
    }
}

#[test]
fn a_search_switches_to_what_it_found() {
    let mut w = World::new(&["alpha", "beta", "gamma"]);
    assert_eq!(
        list_names(SESSIONS, &w.sessions, 0, &w.config),
        names(&["pinned", "alpha", "beta", "gamma"])
    );
    w.keys(b"j/");
    assert!(matches!(&w.mode, Mode::Search { text, selected: 1, .. } if text.is_empty()));
    w.keys(b"mm");
    assert!(matches!(&w.mode, Mode::Search { text, selected: 0, .. } if text == "mm"));
    w.keys(b"\r");
    assert!(matches!(w.mode, Mode::Running));
    assert_eq!(w.active, 2);
}

#[test]
fn escape_leaves_the_search_on_its_row() {
    let mut w = World::new(&["alpha", "beta", "gamma"]);
    w.keys(b"/");
    w.keys(b"a\x1b[B");
    w.keys(b"\x1b");
    // The rows with an "a" are alpha, beta and gamma; the second is row two.
    assert!(matches!(w.mode, Mode::Manager { overlay: SESSIONS, selected: 2 }));
    assert_eq!((w.active, w.sessions.len()), (0, 3));
}

#[test]
fn a_stopped_pin_is_found_and_started() {
    let mut w = World::new(&["alpha"]);
    w.keys(b"/");
    w.keys(b"inn\r");
    assert_eq!(w.sessions[w.active].name, "pinned");
    assert_eq!(w.sessions.len(), 2);
}

#[test]
fn nothing_found_is_nothing_done() {
    let mut w = World::new(&["alpha"]);
    w.keys(b"/");
    w.keys(b"zz\r");
    assert!(matches!(&w.mode, Mode::Search { text, .. } if text == "zz"));
    assert_eq!((w.active, w.sessions.len()), (0, 1));
    w.keys(b"\x1b");
    assert!(matches!(w.mode, Mode::Manager { selected: 0, .. }));
}

#[test]
fn tabs_are_searched_too() {
    let mut w = World::new(&["alpha"]);
    for n in ["logs", "shell"] {
        let t = Tab::new(SIZE, n.to_string(), &mut w.fresh, &mut w.fx);
        w.sessions[0].tabs.push(t);
    }
    let (mut text, mut at) = (String::new(), 0);
    let next = handle_search(
        &"she\r".chars().collect(),
        Overlay::Tabs,
        &mut text,
        &mut at,
        &mut w.sessions,
        &mut w.active,
        SIZE,
        &w.config,
        &mut w.fresh,
        &mut w.fx,
    );
    assert!(matches!(next, Some(Mode::Running)));
    assert_eq!(w.sessions[0].active_tab, 2);
}
