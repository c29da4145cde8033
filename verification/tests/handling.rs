use rmux::ansi::Color;
use rmux::config::{BarPosition, Binding, BindingAction, Config, InputAction, Overlay, Pin};
use rmux::effect::Effect;
use rmux::input::{
    handle_input, handle_prompt, mouse_input, run_manager, split_input, Mode, RenameTarget,
};
use rmux::keys::MgrAction;
use rmux::layout::NavDir;
use rmux::model::{Fresh, Session};
use rmux::mouse::MouseEvent;
use rmux::select::{PaneInfo, SelectState, SelectStep};
use rmux::sessions::create_session;
use rmux::starts::{look, start_failed, Seen};

const SIZE: (u16, u16) = (81, 23);

fn bind(seq: &[u8], a: InputAction) -> Binding {
    Binding { seq: seq.to_vec(), action: BindingAction::Control(a) }
}

fn config() -> Config {
    Config {
        accent: Color::Reset,
        bar_position: BarPosition::Bottom,
        select_copy: true,
        pins: vec![Pin { name: "pin".to_string() }],
        bindings: vec![
            bind(b"\x1bOP", InputAction::OpenSession(0)),
            bind(b"\x1bOQ", InputAction::OpenSession(7)),
            bind(b"\x0f", InputAction::Manager(Overlay::Sessions { agents: false })),
            bind(b"\x0e", InputAction::Manager(Overlay::Tabs)),
            bind(b"\x17", InputAction::SplitH),
            bind(b"\x11", InputAction::SplitV),
            bind(b"\x14", InputAction::FocusNext),
            bind(b"\x08", InputAction::FocusDir(NavDir::Left)),
            bind(b"\x0c", InputAction::FocusDir(NavDir::Right)),
            bind(b"\x0b", InputAction::FocusDir(NavDir::Up)),
            bind(b"\x07", InputAction::Detach),
            bind(b"\x06", InputAction::Fullscreen),
        ],
    }
}

struct World {
    config: Config,
    sessions: Vec<Session>,
    active: usize,
    mode: Mode,
    select: SelectState,
    fresh: Fresh,
    fx: Vec<Effect>,
}

impl World {
    fn new(names: &[&str]) -> World {
        let mut w = World {
            config: config(),
            sessions: Vec::new(),
            active: 0,
            mode: Mode::default(),
            select: SelectState::default(),
            fresh: Fresh { session: 1, pane: 1, now: 9 },
            fx: Vec::new(),
        };
        for n in names {
            create_session(
                &mut w.sessions,
                &w.config,
                SIZE,
                n.to_string(),
                &mut w.fresh,
                &mut w.fx,
            );
        }
        w.fx.clear();
        w
    }

    fn keys(&mut self, keys: &[u8]) -> bool {
        handle_input(
            keys,
            &mut self.mode,
            &mut self.sessions,
            &mut self.active,
            SIZE,
            &self.config,
            &mut self.select,
            &mut self.fresh,
            &mut self.fx,
        )
    }

    fn names(&self) -> Vec<&str> {
        self.sessions.iter().map(|s| s.name.as_str()).collect()
    }

    fn viewed(&self) -> &str {
        self.sessions[self.active].name.as_str()
    }
}

#[test]
fn typing_reaches_the_focused_pane() {
    let mut w = World::new(&["main"]);
    w.select.selected_pane = Some(1);
    w.select.gesture = Some(1);
    assert!(!w.keys(b"ls\r"));
    assert!(matches!(
        &w.fx[..],
        [
            Effect::ClearSelection { pane: 1 },
            Effect::ScrollBottom { pane: 1 },
            Effect::Write { pane: 1, bytes }
        ] if bytes == b"ls\r"
    ));
    assert_eq!(w.select.gesture, None);
    w.fx.clear();
    assert!(!w.keys(b""));
    assert!(w.fx.is_empty());
}

#[test]
fn detaching_stops_handling() {
    let mut w = World::new(&["main"]);
    assert!(w.keys(b"x\x07\x11"));
    assert_eq!(w.sessions[0].tabs[0].layout.panes(), vec![1]);
}

#[test]
fn splits_focus_and_type_in_one_chunk() {
    let mut w = World::new(&["main"]);
    assert!(!w.keys(b"\x11a\x17b"));
    let tab = &w.sessions[0].tabs[0];
    assert_eq!(tab.layout.panes(), vec![1, 2, 3]);
    assert_eq!(tab.focused, 3);
    let typed: Vec<(u64, Vec<u8>)> = w
        .fx
        .iter()
        .filter_map(|e| match e {
            Effect::Write { pane, bytes } => Some((*pane, bytes.clone())),
            _ => None,
        })
        .collect();
    assert_eq!(typed, vec![(2, b"a".to_vec()), (3, b"b".to_vec())]);
    assert!(!w.keys(b"\x14"));
    assert_eq!(w.sessions[0].tabs[0].focused, 1);
    assert!(!w.keys(b"\x0c"));
    assert_eq!(w.sessions[0].tabs[0].focused, 2);
}

#[test]
fn fullscreen_toggles() {
    let mut w = World::new(&["main"]);
    w.keys(b"\x11\x06");
    assert!(w.sessions[0].tabs[0].zoomed);
    w.keys(b"\x06");
    assert!(!w.sessions[0].tabs[0].zoomed);
    w.keys(b"\x06\x11");
    assert!(!w.sessions[0].tabs[0].zoomed);
    assert_eq!(w.sessions[0].tabs[0].layout.panes(), vec![1, 2, 3]);
}

#[test]
fn focus_crosses_tabs_in_a_strip() {
    let mut w = World::new(&["main"]);
    w.keys(b"\x0en");
    w.keys(b"two\r");
    w.keys(b"\x0en");
    w.keys(b"\r");
    assert_eq!(w.sessions[0].tabs.len(), 3);
    assert_eq!(w.sessions[0].tabs[2].name, "tab 3");
    assert_eq!(w.sessions[0].active_tab, 2);
    w.keys(b"\x0c");
    assert_eq!(w.sessions[0].active_tab, 0);
    w.keys(b"\x08");
    assert_eq!(w.sessions[0].active_tab, 2);
    w.keys(b"\x08");
    assert_eq!(w.sessions[0].active_tab, 1);
    w.keys(b"\x0b");
    assert_eq!(w.sessions[0].active_tab, 1);
    // The pane nearest the edge that was crossed gets the focus.
    w.keys(b"\x11\x0c");
    assert_eq!(w.sessions[0].active_tab, 2);
    w.keys(b"\x08");
    let tab = &w.sessions[0].tabs[1];
    assert_eq!(tab.focused, tab.layout.panes()[1]);
}

#[test]
fn chords_step_along_the_strip() {
    let mut w = World::new(&["main", "other"]);
    for _ in 0..2 {
        w.keys(b"\x0en");
        w.keys(b"\r");
    }
    w.sessions[0].active_tab = 1;
    assert!(!w.keys(b"\x0c\x0c\x0c\x0c\x0c"));
    assert_eq!(w.sessions[0].active_tab, (1 + 5) % 3);
    assert!(!w.keys(b"\x08\x08\x08\x08\x08"));
    assert_eq!(w.sessions[0].active_tab, 1);
    assert!(!w.keys(b"\x08\x08\x08\x08"));
    assert_eq!(w.sessions[0].active_tab, (1 + 3 * 4 - 4) % 3);
    assert!(matches!(w.mode, Mode::Running));
    assert_eq!((w.active, w.sessions[1].tabs.len()), (0, 1));
}

#[test]
fn the_name_prompt_needs_no_session() {
    let mut w = World::new(&[]);
    let overlay = Overlay::Sessions { agents: false };
    w.mode = Mode::Naming { overlay, name: "x".to_string(), rename: None };
    let (keys, events) = split_input(b"\x1b[<0;5;7Ma\x1b[5~b", &w.mode);
    assert!(events.is_empty());
    assert!(!w.keys(&keys));
    assert!(matches!(&w.mode, Mode::Naming { name, rename: None, .. } if name == "xab"));
    assert!(w.sessions.is_empty() && w.active == 0);
    w.keys(b"\x1b");
    assert!(matches!(w.mode, Mode::Manager { selected: 0, .. }));
    w.keys(b"jjx");
    assert!(matches!(w.mode, Mode::Manager { selected: 0, .. }));
    w.keys(b"n");
    w.keys(b"new\r");
    assert_eq!(w.names(), vec!["new"]);
    assert!(matches!(w.mode, Mode::Running));
}

#[test]
fn a_pin_key_opens_its_session() {
    let mut w = World::new(&["main"]);
    w.keys(b"\x1bOPhi");
    assert_eq!(w.names(), vec!["pin", "main"]);
    assert_eq!(w.viewed(), "pin");
    assert!(matches!(w.fx.last(), Some(Effect::Write { pane: 2, bytes }) if bytes == b"hi"));
    w.active = 1;
    w.keys(b"\x1bOP");
    assert_eq!((w.active, w.sessions.len()), (0, 2));
    w.keys(b"\x1bOQ");
    assert_eq!((w.active, w.sessions.len()), (0, 2));
}

#[test]
fn bytes_behind_the_manager_chord_are_manager_input() {
    let mut w = World::new(&["a", "b", "c"]);
    w.keys(b"\x0fj");
    assert!(matches!(
        w.mode,
        Mode::Manager { overlay: Overlay::Sessions { agents: false }, selected: 1 }
    ));
    // The list starts with the stopped pin.
    w.keys(b"j\r");
    assert!(matches!(w.mode, Mode::Running));
    assert_eq!(w.viewed(), "b");
    w.keys(b"\x0f\x0f");
    assert!(matches!(w.mode, Mode::Running));
}

#[test]
fn selecting_a_stopped_pin_starts_it() {
    let mut w = World::new(&["a"]);
    w.keys(b"\x0f\r");
    assert_eq!(w.names(), vec!["pin", "a"]);
    assert_eq!(w.viewed(), "pin");
}

#[test]
fn sessions_are_created_and_renamed_by_prompt() {
    let mut w = World::new(&["a"]);
    w.keys(b"\x0fn");
    assert!(matches!(&w.mode, Mode::Naming { rename: None, .. }));
    w.keys(b"  new one ");
    assert!(matches!(&w.mode, Mode::Naming { name, .. } if name == "  new one "));
    w.keys(b"\r");
    assert_eq!(w.names(), vec!["a", "new one"]);
    assert_eq!(w.viewed(), "new one");
    w.keys(b"\x0fn");
    w.keys(b"\r");
    assert_eq!(w.viewed(), "session 3");
    // Rename the second entry (the first is the stopped pin).
    w.mode = Mode::Manager { overlay: Overlay::Sessions { agents: false }, selected: 1 };
    w.keys(b"r");
    match &w.mode {
        Mode::Naming { name, rename: Some(RenameTarget::Session(1)), .. } => {
            assert_eq!(name, "a");
        }
        _ => panic!("a rename prompt"),
    }
    w.keys(b"\x7fzed\r");
    assert_eq!(w.names(), vec!["zed", "new one", "session 3"]);
    assert!(matches!(w.mode, Mode::Manager { selected: 2, .. }));
    w.keys(b"\x1b");
    assert!(matches!(w.mode, Mode::Running));
}

#[test]
fn an_empty_rename_changes_nothing() {
    let mut w = World::new(&["a"]);
    w.keys(b"\x0er");
    assert!(matches!(&w.mode, Mode::Naming { rename: Some(RenameTarget::Tab(0)), .. }));
    w.keys(b"\x7f\x7f\x7f\x7f\x7f \r");
    assert_eq!(w.sessions[0].tabs[0].name, "tab 1");
    assert!(matches!(w.mode, Mode::Manager { overlay: Overlay::Tabs, selected: 0 }));
    w.keys(b"r");
    w.keys(b"\x7f2\r");
    assert_eq!(w.sessions[0].tabs[0].name, "tab 2");
    w.keys(b"r");
    w.keys(b"\x1b");
    assert!(matches!(w.mode, Mode::Manager { overlay: Overlay::Tabs, selected: 0 }));
}

#[test]
fn a_stopped_pin_cannot_be_renamed() {
    let mut w = World::new(&["a"]);
    w.keys(b"\x0fr");
    assert!(matches!(w.mode, Mode::Manager { selected: 0, .. }));
}

#[test]
fn agent_sessions_are_made_in_the_agent_view() {
    let mut w = World::new(&["a"]);
    w.keys(b"\x0fa");
    assert!(matches!(
        w.mode,
        Mode::Manager { overlay: Overlay::Sessions { agents: true }, selected: 0 }
    ));
    w.keys(b"n");
    w.keys(b"bot\r");
    assert_eq!(w.viewed(), "bot");
    assert!(w.sessions[w.active].agent);
    w.keys(b"\x0faa");
    assert!(matches!(
        w.mode,
        Mode::Manager { overlay: Overlay::Sessions { agents: true }, selected: 0 }
    ));
    w.keys(b"\x1b\x0e");
    assert!(matches!(w.mode, Mode::Running));
    w.keys(b"\x0ea");
    assert!(matches!(w.mode, Mode::Manager { overlay: Overlay::Tabs, .. }));
}

#[test]
fn killing_another_session_keeps_the_view() {
    let mut w = World::new(&["a", "b", "c"]);
    w.active = 2;
    w.mode = Mode::Manager { overlay: Overlay::Sessions { agents: false }, selected: 1 };
    w.keys(b"x");
    assert_eq!(w.names(), vec!["b", "c"]);
    assert_eq!(w.viewed(), "c");
    assert!(matches!(w.mode, Mode::Manager { selected: 1, .. }));
    w.mode = Mode::Manager { overlay: Overlay::Sessions { agents: false }, selected: 2 };
    w.keys(b"x");
    assert_eq!(w.names(), vec!["b"]);
    assert_eq!(w.active, 0);
    assert!(matches!(w.mode, Mode::Manager { selected: 1, .. }));
    w.keys(b"x");
    assert!(w.sessions.is_empty());
}

#[test]
fn killing_tabs_keeps_the_open_one() {
    let mut w = World::new(&["a"]);
    for _ in 0..2 {
        w.keys(b"\x0en");
        w.keys(b"\r");
    }
    w.mode = Mode::Manager { overlay: Overlay::Tabs, selected: 0 };
    w.keys(b"x");
    assert_eq!(w.sessions[0].tabs.len(), 2);
    assert_eq!(w.sessions[0].active_tab, 1);
    assert_eq!(w.sessions[0].tabs[1].name, "tab 3");
    w.mode = Mode::Manager { overlay: Overlay::Tabs, selected: 1 };
    w.keys(b"x");
    assert_eq!(w.sessions[0].active_tab, 0);
    assert!(matches!(w.mode, Mode::Manager { selected: 0, .. }));
    w.keys(b"x");
    assert!(w.sessions.is_empty());
    assert!(matches!(w.mode, Mode::Running));
}

#[test]
fn switching_tabs_in_the_manager() {
    let mut w = World::new(&["a"]);
    w.keys(b"\x0en");
    w.keys(b"\r");
    w.keys(b"\x0ek\r");
    assert_eq!(w.sessions[0].active_tab, 0);
}

#[test]
fn run_manager_says_what_comes_next() {
    let mut w = World::new(&["a"]);
    let mut at = 0;
    let next = run_manager(
        &vec![MgrAction::Down, MgrAction::Select],
        Overlay::Sessions { agents: false },
        &mut at,
        &mut w.sessions,
        &mut w.active,
        SIZE,
        &w.config,
        &mut w.fresh,
        &mut w.fx,
    );
    assert!(matches!(next, Some(Mode::Running)));
    assert_eq!((at, w.active), (1, 0));
    let next = run_manager(
        &vec![],
        Overlay::Tabs,
        &mut at,
        &mut w.sessions,
        &mut w.active,
        SIZE,
        &w.config,
        &mut w.fresh,
        &mut w.fx,
    );
    assert!(next.is_none());
}

#[test]
fn the_prompt_takes_characters() {
    let mut w = World::new(&["a"]);
    let mut name = String::from("x");
    let keys: Vec<char> = "yz\r".chars().collect();
    let next = handle_prompt(
        &keys,
        Overlay::Tabs,
        &mut name,
        None,
        &mut w.sessions,
        &mut w.active,
        SIZE,
        &w.config,
        &mut w.fresh,
        &mut w.fx,
    );
    assert!(matches!(next, Some(Mode::Running)));
    assert_eq!(w.sessions[0].tabs[1].name, "xyz");
    assert!(matches!(w.fx[..], [Effect::Spawn { pane: 2, w: 81, h: 23 }]));
}

#[test]
fn input_is_split_by_mode() {
    let buf = b"a\x1b[<64;1;1M\x1b[6~b\x1b[<0;1;1M";
    let (keys, events) = split_input(buf, &Mode::Running);
    assert_eq!((keys.as_slice(), events.len()), (&b"ab"[..], 3));
    let manager = Mode::Manager { overlay: Overlay::Tabs, selected: 0 };
    let (keys, events) = split_input(buf, &manager);
    assert_eq!((keys.as_slice(), events.len()), (&b"kjab"[..], 0));
    let search = Mode::Search { overlay: Overlay::Tabs, text: String::new(), selected: 0 };
    let (keys, events) = split_input(buf, &search);
    assert_eq!((keys.as_slice(), events.len()), (&b"\x1b[A\x1b[Bab"[..], 0));
    let naming = Mode::Naming { overlay: Overlay::Tabs, name: String::new(), rename: None };
    let (keys, events) = split_input(buf, &naming);
    assert_eq!((keys.as_slice(), events.len()), (&b"ab"[..], 0));
}

#[test]
fn mouse_events_scroll_or_select() {
    let mut w = World::new(&["a"]);
    let infos: Vec<PaneInfo> = Vec::new();
    let step = mouse_input(
        &MouseEvent::Wheel { up: true, raw: Vec::new() },
        &mut w.select,
        &mut w.sessions,
        0,
        SIZE,
        0,
        true,
        &infos,
        &mut w.fx,
    );
    assert!(matches!(step, SelectStep::Idle));
    assert!(matches!(w.fx[..], [Effect::Scroll { pane: 1, delta: -3 }]));
    let step = mouse_input(
        &MouseEvent::Press { left: true, x: 1, y: 1, raw: Vec::new() },
        &mut w.select,
        &mut w.sessions,
        0,
        SIZE,
        0,
        true,
        &infos,
        &mut w.fx,
    );
    assert!(matches!(step, SelectStep::Press { pane: 1, x: 0, y: 0, fresh: true }));
}

impl World {
    // A button event on a screen with the tab bar on top.
    fn below_bar(&mut self, event: MouseEvent) -> SelectStep {
        mouse_input(
            &event,
            &mut self.select,
            &mut self.sessions,
            0,
            SIZE,
            1,
            true,
            &Vec::new(),
            &mut self.fx,
        )
    }

    fn shape(&self) -> Vec<(String, usize, Vec<(String, Vec<u64>, u64, bool)>)> {
        let tab = |t: &rmux::model::Tab| (t.name.clone(), t.layout.panes(), t.focused, t.zoomed);
        self.sessions
            .iter()
            .map(|s| (s.name.clone(), s.active_tab, s.tabs.iter().map(tab).collect()))
            .collect()
    }
}

fn press(x: u16, y: u16) -> MouseEvent {
    MouseEvent::Press { left: true, x, y, raw: Vec::new() }
}

#[test]
fn clicks_below_a_bar_on_top_reach_their_pane() {
    let mut w = World::new(&["a"]);
    w.keys(b"\x17");
    assert_eq!(w.sessions[0].tabs[0].focused, 2);
    // The first pane has the rows 0 to 10 of the pane area.
    assert!(matches!(w.below_bar(press(3, 12)), SelectStep::Press { pane: 1, x: 2, y: 10, .. }));
    assert_eq!(w.sessions[0].tabs[0].focused, 1);
    // The divider, and the first row of the second pane.
    assert!(matches!(w.below_bar(press(3, 13)), SelectStep::Idle));
    assert_eq!(w.sessions[0].tabs[0].focused, 1);
    assert!(matches!(w.below_bar(press(3, 14)), SelectStep::Press { pane: 2, x: 2, y: 0, .. }));
    assert_eq!(w.sessions[0].tabs[0].focused, 2);
}

#[test]
fn the_bar_row_belongs_to_no_pane() {
    let mut w = World::new(&["a"]);
    for y in [0, 1] {
        assert!(matches!(w.below_bar(press(3, y)), SelectStep::Idle));
        let drag = MouseEvent::Drag { x: 3, y, raw: Vec::new() };
        assert!(matches!(w.below_bar(drag), SelectStep::Idle));
        let release = MouseEvent::Release { x: 3, y, raw: Vec::new() };
        assert!(matches!(w.below_bar(release), SelectStep::Idle));
    }
    assert!(w.fx.is_empty());
    // A drag that leaves its pane over the bar stays on its first row.
    w.select.gesture = Some(1);
    w.select.anchor = Some((4, 4));
    let drag = MouseEvent::Drag { x: 3, y: 1, raw: Vec::new() };
    assert!(matches!(w.below_bar(drag), SelectStep::Drag { pane: 1, x: 2, y: 0, .. }));
    let release = MouseEvent::Release { x: 3, y: 1, raw: Vec::new() };
    assert!(matches!(w.below_bar(release), SelectStep::Release { pane: 1, x: 2, y: 0 }));
    assert!(matches!(w.below_bar(press(3, 1)), SelectStep::Idle));
}

#[test]
fn what_is_viewed_is_noted() {
    let mut w = World::new(&["a", "b"]);
    w.keys(b"\x17");
    assert!(look(&w.sessions, 0) == Seen { active: 0, tab: 0, focused: 3 });
    assert!(look(&w.sessions, 1) == Seen { active: 1, tab: 0, focused: 2 });
    assert!(look(&w.sessions, 9) == Seen { active: 9, tab: 0, focused: 0 });
}

// Type something that starts a shell, which fails.
fn undone(keys: &[u8], mode: Mode) {
    let mut w = World::new(&["a", "b"]);
    w.active = 1;
    w.keys(b"\x11");
    w.fx.clear();
    let (before, shape) = (look(&w.sessions, w.active), w.shape());
    w.mode = mode;
    w.keys(keys);
    let pane = match w.fx.iter().find(|e| matches!(e, Effect::Spawn { .. })) {
        Some(Effect::Spawn { pane, .. }) => *pane,
        _ => panic!("nothing was started"),
    };
    assert!(w.shape() != shape);
    start_failed(pane, before, &mut w.sessions, &mut w.active);
    assert_eq!(w.shape(), shape);
    assert_eq!(w.active, 1);
    // A pane that nobody has changes nothing.
    start_failed(99, before, &mut w.sessions, &mut w.active);
    assert_eq!((w.shape(), w.active), (shape, 1));
}

#[test]
fn a_split_that_fails_is_undone() {
    undone(b"\x11", Mode::Running);
    undone(b"\x17", Mode::Running);
}

#[test]
fn a_pin_that_fails_is_undone() {
    undone(b"\x1bOP", Mode::Running);
    undone(
        b"\r",
        Mode::Manager { overlay: Overlay::Sessions { agents: false }, selected: 0 },
    );
}

#[test]
fn a_creation_that_fails_is_undone() {
    let naming = |overlay| Mode::Naming { overlay, name: "new".to_string(), rename: None };
    undone(b"\r", naming(Overlay::Sessions { agents: false }));
    undone(b"\r", naming(Overlay::Tabs));
}
