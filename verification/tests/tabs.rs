use rmux::effect::Effect;
use rmux::layout::{NavDir, Rect, SplitDir};
use rmux::model::{default_session_name, default_tab_name, find_entry, Fresh, Session, Tab};

fn fresh() -> Fresh {
    Fresh { session: 1, pane: 10, now: 1000 }
}

fn tab(fx: &mut Vec<Effect>, f: &mut Fresh) -> Tab {
    Tab::new((81, 23), "work".to_string(), f, fx)
}

#[test]
fn a_new_tab_asks_for_a_shell() {
    let (mut fx, mut f) = (Vec::new(), fresh());
    let t = tab(&mut fx, &mut f);
    assert_eq!(t.name, "work");
    assert_eq!((t.focused, t.zoomed, f.pane, f.session), (10, false, 11, 1));
    assert_eq!(t.layout.panes(), vec![10]);
    assert!(!t.is_empty());
    assert!(matches!(fx[..], [Effect::Spawn { pane: 10, w: 81, h: 23 }]));
}

#[test]
fn a_new_session_has_one_tab() {
    let (mut fx, mut f) = (Vec::new(), fresh());
    let s = Session::new((80, 24), "main".to_string(), &mut f, &mut fx);
    assert_eq!((s.id, s.name.as_str(), s.agent, s.last_active), (1, "main", false, 1000));
    assert_eq!((s.tabs.len(), s.active_tab), (1, 0));
    assert_eq!(s.tabs[0].name, "tab 1");
    assert_eq!((f.session, f.pane, f.now), (2, 11, 1000));
    assert!(matches!(fx[..], [Effect::Spawn { pane: 10, w: 80, h: 24 }]));
}

#[test]
fn names_without_a_choice_are_numbered() {
    assert_eq!(default_tab_name(3), "tab 3");
    assert_eq!(default_session_name(12), "session 12");
}

#[test]
fn splitting_a_tab_focuses_the_new_pane() {
    let (mut fx, mut f) = (Vec::new(), fresh());
    let mut t = tab(&mut fx, &mut f);
    fx.clear();
    t.split(SplitDir::Vertical, (81, 23), &mut f, &mut fx);
    assert_eq!(t.focused, 11);
    assert_eq!(t.layout.panes(), vec![10, 11]);
    assert!(matches!(
        fx[..],
        [
            Effect::Spawn { pane: 11, w: 40, h: 23 },
            Effect::Resize { pane: 10, w: 40, h: 23, required: true },
            Effect::Resize { pane: 11, w: 40, h: 23, required: true }
        ]
    ));
}

#[test]
fn zoom_gives_the_whole_area_and_back() {
    let (mut fx, mut f) = (Vec::new(), fresh());
    let mut t = tab(&mut fx, &mut f);
    t.split(SplitDir::Vertical, (81, 23), &mut f, &mut fx);
    fx.clear();
    t.set_zoom(true, (81, 23), true, &mut fx);
    let whole = Rect { x: 0, y: 0, w: 81, h: 23 };
    assert!(t.visible_rects((81, 23)) == vec![(11, whole)]);
    assert!(matches!(fx[..], [Effect::Resize { pane: 11, w: 81, h: 23, required: true }]));
    fx.clear();
    t.set_zoom(false, (81, 23), false, &mut fx);
    assert_eq!(fx.len(), 2);
    assert!(matches!(fx[1], Effect::Resize { pane: 11, w: 40, h: 23, required: false }));
}

fn grid_of_four() -> Tab {
    // 10 | 11
    // 13 | 12
    let (mut fx, mut f) = (Vec::new(), fresh());
    let mut t = tab(&mut fx, &mut f);
    t.split(SplitDir::Vertical, (81, 23), &mut f, &mut fx);
    t.split(SplitDir::Horizontal, (81, 23), &mut f, &mut fx);
    t.focused = 10;
    t.split(SplitDir::Horizontal, (81, 23), &mut f, &mut fx);
    t
}

#[test]
fn focus_moves_to_the_nearest_pane() {
    let mut t = grid_of_four();
    t.focused = 10;
    assert!(t.focus_dir(NavDir::Right, (81, 23)));
    assert_eq!(t.focused, 11);
    assert!(t.focus_dir(NavDir::Down, (81, 23)));
    assert_eq!(t.focused, 12);
    assert!(t.focus_dir(NavDir::Left, (81, 23)));
    assert_eq!(t.focused, 13);
    assert!(t.focus_dir(NavDir::Up, (81, 23)));
    assert_eq!(t.focused, 10);
    assert!(!t.focus_dir(NavDir::Up, (81, 23)));
    assert!(!t.focus_dir(NavDir::Left, (81, 23)));
    assert_eq!(t.focused, 10);
}

#[test]
fn a_pane_is_never_its_own_neighbor() {
    let (mut fx, mut f) = (Vec::new(), fresh());
    let mut t = tab(&mut fx, &mut f);
    for dir in [NavDir::Left, NavDir::Right, NavDir::Up, NavDir::Down] {
        assert!(!t.focus_dir(dir, (0, 23)));
        assert!(!t.focus_dir(dir, (80, 0)));
    }
    // Without columns to share, moving right still comes to an end.
    t.split(SplitDir::Vertical, (0, 23), &mut f, &mut fx);
    let mut moves = 0;
    while t.focus_dir(NavDir::Right, (0, 23)) {
        moves += 1;
        assert!(moves < 9);
    }
}

#[test]
fn focus_edge_takes_the_first_pane_at_the_edge() {
    let mut t = grid_of_four();
    t.focus_edge(NavDir::Right, (81, 23));
    assert_eq!(t.focused, 11);
    t.focus_edge(NavDir::Left, (81, 23));
    assert_eq!(t.focused, 10);
    t.focus_edge(NavDir::Down, (81, 23));
    assert_eq!(t.focused, 13);
}

#[test]
fn focus_next_comes_around() {
    let mut t = grid_of_four();
    t.focused = 10;
    let mut seen = Vec::new();
    for _ in 0..4 {
        seen.push(t.focused);
        t.focus_next();
    }
    assert_eq!(seen, vec![10, 13, 11, 12]);
    assert_eq!(t.focused, 10);
    t.focused = 77;
    t.focus_next();
    assert_eq!(t.focused, 10);
}

#[test]
fn an_exited_shell_leaves_the_tab() {
    let mut t = grid_of_four();
    t.focused = 12;
    t.zoomed = true;
    t.remove_pane(11);
    assert_eq!((t.focused, t.zoomed), (12, true));
    t.remove_pane(12);
    assert_eq!((t.focused, t.zoomed), (10, false));
    t.remove_pane(10);
    assert_eq!(t.focused, 13);
    t.remove_pane(13);
    assert!(t.is_empty());
}

#[test]
fn resizing_a_session_sizes_every_tab() {
    let (mut fx, mut f) = (Vec::new(), fresh());
    let mut s = Session::new((80, 24), "main".to_string(), &mut f, &mut fx);
    s.tabs.push(grid_of_four());
    fx.clear();
    s.resize((41, 11), &mut fx);
    assert_eq!(fx.len(), 5);
    assert!(matches!(fx[0], Effect::Resize { pane: 10, w: 41, h: 11, required: true }));
    assert!(matches!(fx[4], Effect::Resize { pane: 12, w: 20, h: 5, required: true }));
}

#[test]
fn entries_are_found_by_pane() {
    let r = Rect { x: 0, y: 0, w: 1, h: 1 };
    let rs = vec![(4, r), (9, r)];
    assert_eq!(find_entry(&rs, 9), Some(1));
    assert_eq!(find_entry(&rs, 5), None);
}
