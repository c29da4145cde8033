use rmux::effect::Effect;
use rmux::layout::SplitDir;
use rmux::model::{Fresh, Session};
use rmux::mouse::MouseEvent;
use rmux::select::{
    apply_scroll, apply_select, clear_only_selection, clear_selection, copied_text, drag_done,
    later_copy, nonempty, press_done, sessions_hold, worth_copying, PaneInfo, PressOutcome, SelectState,
    SelectStep,
};

const SIZE: (u16, u16) = (81, 23);

// One session with panes 1 (left) and 2 (right).
fn sessions() -> Vec<Session> {
    let mut f = Fresh { session: 1, pane: 1, now: 0 };
    let mut fx = Vec::new();
    let mut s = Session::new(SIZE, "main".to_string(), &mut f, &mut fx);
    s.tabs[0].split(SplitDir::Vertical, SIZE, &mut f, &mut fx);
    vec![s]
}

fn info(pane: u64) -> PaneInfo {
    PaneInfo { pane, tracking: None, alternate: None, app_cursor: None, rows: Some(23) }
}

fn scroll(event: &MouseEvent, infos: &Vec<PaneInfo>) -> Vec<Effect> {
    let mut fx = Vec::new();
    apply_scroll(event, &sessions(), 0, infos, &mut fx);
    fx
}

fn wheel(up: bool) -> MouseEvent {
    MouseEvent::Wheel { up, raw: b"raw".to_vec() }
}

#[test]
fn scrolling_moves_the_scrollback() {
    let up = scroll(&wheel(true), &vec![info(2)]);
    assert!(matches!(up[..], [Effect::Scroll { pane: 2, delta: -3 }]));
    let down = scroll(&wheel(false), &vec![info(2)]);
    assert!(matches!(down[..], [Effect::Scroll { pane: 2, delta: 3 }]));
    let page = scroll(&MouseEvent::Page { up: true }, &vec![info(2)]);
    assert!(matches!(page[..], [Effect::Scroll { pane: 2, delta: -21 }]));
    let blind = scroll(&MouseEvent::Page { up: false }, &Vec::new());
    assert!(matches!(blind[..], [Effect::Scroll { pane: 2, delta: 22 }]));
    let flat = PaneInfo { rows: Some(1), ..info(2) };
    let page = scroll(&MouseEvent::Page { up: false }, &vec![flat]);
    assert!(matches!(page[..], [Effect::Scroll { pane: 2, delta: 0 }]));
}

#[test]
fn programs_get_the_scroll_events() {
    let tracking = PaneInfo { tracking: Some(true), ..info(2) };
    let fx = scroll(&wheel(true), &vec![tracking]);
    assert!(matches!(&fx[..], [Effect::Write { pane: 2, bytes }] if bytes == b"raw"));
    let fx = scroll(&MouseEvent::Page { up: true }, &vec![tracking]);
    assert!(matches!(&fx[..], [Effect::Write { pane: 2, bytes }] if bytes == b"\x1b[5~"));
    let full = PaneInfo { alternate: Some(true), ..info(2) };
    let fx = scroll(&wheel(false), &vec![full]);
    assert_eq!(fx.len(), 3);
    assert!(matches!(&fx[2], Effect::Write { pane: 2, bytes } if bytes == b"\x1b[B"));
    let app = PaneInfo { app_cursor: Some(true), ..full };
    let fx = scroll(&wheel(true), &vec![app]);
    assert!(matches!(&fx[0], Effect::Write { pane: 2, bytes } if bytes == b"\x1bOA"));
    let fx = scroll(&MouseEvent::Page { up: false }, &vec![full]);
    assert!(matches!(&fx[..], [Effect::Write { pane: 2, bytes }] if bytes == b"\x1b[6~"));
}

fn press(left: bool, x: u16, y: u16) -> MouseEvent {
    MouseEvent::Press { left, x, y, raw: b"press".to_vec() }
}

fn drag(x: u16, y: u16) -> MouseEvent {
    MouseEvent::Drag { x, y, raw: b"drag".to_vec() }
}

fn release(x: u16, y: u16) -> MouseEvent {
    MouseEvent::Release { x, y, raw: b"release".to_vec() }
}

struct Scene {
    select: SelectState,
    sessions: Vec<Session>,
    infos: Vec<PaneInfo>,
    fx: Vec<Effect>,
    enabled: bool,
}

impl Scene {
    fn new() -> Scene {
        Scene {
            select: SelectState::default(),
            sessions: sessions(),
            infos: Vec::new(),
            fx: Vec::new(),
            enabled: true,
        }
    }

    fn mouse(&mut self, event: MouseEvent) -> SelectStep {
        apply_select(
            &event,
            &mut self.select,
            &mut self.sessions,
            0,
            SIZE,
            self.enabled,
            &self.infos,
            &mut self.fx,
        )
    }

    fn focused(&self) -> u64 {
        self.sessions[0].tabs[0].focused
    }
}

#[test]
fn a_press_focuses_and_anchors() {
    let mut s = Scene::new();
    assert_eq!(s.focused(), 2);
    let step = s.mouse(press(true, 5, 3));
    assert!(matches!(step, SelectStep::Press { pane: 1, x: 4, y: 2, fresh: true }));
    assert_eq!(s.focused(), 1);
    press_done(&mut s.select, 1, 4, 2, PressOutcome::Anchored { selected: false });
    assert_eq!(s.select.gesture, Some(1));
    assert_eq!(s.select.anchor, Some((4, 2)));
    assert_eq!(s.select.selected_pane, None);
    let step = s.mouse(press(true, 5, 3));
    assert!(matches!(step, SelectStep::Press { pane: 1, fresh: false, .. }));
    let step = s.mouse(press(true, 42, 1));
    assert!(matches!(step, SelectStep::Press { pane: 2, x: 0, y: 0, fresh: true }));
}

#[test]
fn other_buttons_only_focus() {
    let mut s = Scene::new();
    assert!(matches!(s.mouse(press(false, 1, 1)), SelectStep::Idle));
    assert_eq!(s.focused(), 1);
    s.enabled = false;
    assert!(matches!(s.mouse(press(true, 60, 1)), SelectStep::Idle));
    assert_eq!(s.focused(), 2);
}

#[test]
fn dividers_are_not_panes() {
    let mut s = Scene::new();
    assert!(matches!(s.mouse(press(true, 41, 5)), SelectStep::Idle));
    assert!(matches!(s.mouse(press(true, 5, 24)), SelectStep::Idle));
    assert_eq!(s.focused(), 2);
}

#[test]
fn panes_that_track_the_mouse_get_it() {
    let mut s = Scene::new();
    s.infos = vec![PaneInfo { tracking: Some(true), ..info(1) }];
    assert!(matches!(s.mouse(press(true, 5, 5)), SelectStep::Idle));
    assert!(matches!(&s.fx[..], [Effect::Write { pane: 1, bytes }] if bytes == b"press"));
    assert_eq!(s.focused(), 2);
}

#[test]
fn a_drag_extends_the_selection() {
    let mut s = Scene::new();
    assert!(matches!(s.mouse(drag(5, 5)), SelectStep::Idle));
    s.mouse(press(true, 10, 10));
    press_done(&mut s.select, 1, 9, 9, PressOutcome::Anchored { selected: false });
    match s.mouse(drag(20, 10)) {
        SelectStep::Drag {
            pane: 1,
            x: 19,
            y: 9,
            anchor: (9, 9),
            reanchor: false,
            backward: false,
            columns: 40,
            screen_height: 368,
        } => {}
        _ => panic!("a forward drag"),
    }
    drag_done(&mut s.select, 1, true);
    assert_eq!(s.select.selected_pane, Some(1));
    // Crossing the anchor turns the drag around.
    assert!(matches!(
        s.mouse(drag(30, 4)),
        SelectStep::Drag { reanchor: true, backward: true, .. }
    ));
    assert!(s.select.backward);
    assert!(matches!(
        s.mouse(drag(29, 4)),
        SelectStep::Drag { reanchor: false, backward: true, .. }
    ));
    // The drag sticks to its pane and is kept within it.
    assert!(matches!(
        s.mouse(drag(80, 200)),
        SelectStep::Drag { pane: 1, x: 39, y: 22, reanchor: true, .. }
    ));
}

#[test]
fn a_release_finishes_the_gesture() {
    let mut s = Scene::new();
    assert!(matches!(s.mouse(release(5, 5)), SelectStep::Idle));
    s.mouse(press(true, 10, 10));
    press_done(&mut s.select, 1, 9, 9, PressOutcome::Anchored { selected: true });
    assert_eq!(s.select.selected_pane, Some(1));
    assert!(matches!(
        s.mouse(release(70, 2)),
        SelectStep::Release { pane: 1, x: 39, y: 1 }
    ));
    // The next press removes the visible selection.
    s.mouse(press(true, 10, 10));
    assert!(matches!(s.fx[..], [Effect::ClearSelection { pane: 1 }]));
    assert_eq!(s.select.selected_pane, None);
    assert_eq!(s.select.gesture, Some(1));
}

#[test]
fn a_failed_gesture_is_forgotten() {
    let mut s = SelectState::default();
    s.gesture = Some(4);
    s.anchor = Some((1, 1));
    press_done(&mut s, 5, 2, 2, PressOutcome::NoGesture);
    assert_eq!(s.gesture, None);
    assert_eq!(s.anchor, Some((1, 1)));
}

#[test]
fn selections_are_cleared() {
    let s = sessions();
    assert!(sessions_hold(&s, 2) && !sessions_hold(&s, 3));
    let mut fx = Vec::new();
    let mut state = SelectState::default();
    state.gesture = Some(1);
    state.selected_pane = Some(2);
    clear_only_selection(&mut state, &s, &mut fx);
    assert_eq!((state.gesture, state.selected_pane), (Some(1), None));
    assert!(matches!(fx[..], [Effect::ClearSelection { pane: 2 }]));
    state.selected_pane = Some(9);
    clear_selection(&mut state, &s, &mut fx);
    assert_eq!((state.gesture, state.selected_pane), (None, None));
    assert_eq!(fx.len(), 1);
}

#[test]
fn only_drags_and_multi_clicks_are_copied() {
    assert!(worth_copying(Some(true), None));
    assert!(worth_copying(Some(false), Some(2)));
    assert!(!worth_copying(Some(false), Some(1)));
    assert!(!worth_copying(None, None));
    assert_eq!(copied_text(b"two words"), Some("two words".to_string()));
    assert_eq!(copied_text(b"\xff"), Some("\u{fffd}".to_string()));
    assert_eq!(copied_text(b""), None);
    assert_eq!(nonempty(String::new()), None);
    assert_eq!(nonempty("x".to_string()), Some("x".to_string()));
}

#[test]
fn the_last_copied_text_wins() {
    let (a, b) = (Some("a".to_string()), Some("b".to_string()));
    assert_eq!(later_copy(a.clone(), b.clone()), b);
    assert_eq!(later_copy(a.clone(), None), a);
    assert_eq!(later_copy(None, None), None);
}
