//! Scrolling and mouse select-to-copy in the panes of the viewed tab.

use crate::effect::{effects, request, Effect, EffectView};
use crate::layout::Rect;
use crate::model::{
    entry_of, find_entry, session_views, Session, SessionView, TabView, CELL_H,
};
use crate::mouse::{MouseEvent, MouseView};
use crate::protocol::copy_bytes;
use crate::text::{decode_lossy, lossy_chars};
use vstd::prelude::*;
use vstd::utf8::{decode_utf8, valid_utf8};

verus! {

/// What a pane's terminal says of itself; `None` where it could not say.
#[derive(Clone, Copy, PartialEq, Eq, Structural)]
pub struct PaneInfo {
    pub pane: u64,
    /// The program tracks the mouse itself.
    pub tracking: Option<bool>,
    /// The alternate screen is shown.
    pub alternate: Option<bool>,
    /// Arrow keys are sent in application mode.
    pub app_cursor: Option<bool>,
    pub rows: Option<u16>,
}

/// A pane of which nothing is known.
pub open spec fn unknown(pane: u64) -> PaneInfo {
    PaneInfo { pane, tracking: None, alternate: None, app_cursor: None, rows: None }
}

/// What is known of a pane, by the first entry from `i` on.
pub open spec fn info_from(infos: Seq<PaneInfo>, pane: u64, i: int) -> PaneInfo
    decreases infos.len() - i,
{
    if i >= infos.len() {
        unknown(pane)
    } else if infos[i].pane == pane {
        infos[i]
    } else {
        info_from(infos, pane, i + 1)
    }
}

fn info_of(infos: &Vec<PaneInfo>, pane: u64) -> (r: PaneInfo)
    ensures
        r == info_from(infos@, pane, 0),
{
    let mut i: usize = 0;
    while i < infos.len()
        invariant
            i <= infos@.len(),
            info_from(infos@, pane, 0) == info_from(infos@, pane, i as int),
        decreases infos@.len() - i,
    {
        if infos[i].pane == pane {
            return infos[i];
        }
        i = i + 1;
    }
    PaneInfo { pane, tracking: None, alternate: None, app_cursor: None, rows: None }
}

/// An arrow key, in application mode or not.
pub open spec fn arrow_key(app: bool, up: bool) -> Seq<u8> {
    seq![
        0x1bu8,
        if app {
            0x4fu8
        } else {
            0x5bu8
        },
        if up {
            0x41u8
        } else {
            0x42u8
        },
    ]
}

/// How many lines a page key scrolls: all but two rows of the pane.
pub open spec fn page_lines(rows: Option<u16>) -> int {
    let n = match rows {
        Some(r) => r as int,
        None => 24,
    };
    if n < 2 {
        0
    } else {
        n - 2
    }
}

/// What a scroll event asks of a pane: panes tracking the mouse get the
/// raw wheel bytes, alternate-screen apps get arrow or page keys, everything
/// else scrolls.
pub open spec fn scroll_requests(event: MouseView, t: PaneInfo) -> Seq<EffectView> {
    let tracking = t.tracking == Some(true);
    let alternate = t.alternate == Some(true);
    match event {
        MouseView::Wheel { up, raw } => if tracking {
            seq![EffectView::Write { pane: t.pane, bytes: raw }]
        } else if alternate {
            let key = EffectView::Write {
                pane: t.pane,
                bytes: arrow_key(t.app_cursor == Some(true), up),
            };
            seq![key, key, key]
        } else {
            seq![
                EffectView::Scroll {
                    pane: t.pane,
                    delta: (if up {
                        -3
                    } else {
                        3int
                    }) as i32,
                },
            ]
        },
        MouseView::Page { up } => if alternate || tracking {
            seq![EffectView::Write { pane: t.pane, bytes: crate::mouse::page_key(up) }]
        } else {
            seq![
                EffectView::Scroll {
                    pane: t.pane,
                    delta: (if up {
                        -page_lines(t.rows)
                    } else {
                        page_lines(t.rows)
                    }) as i32,
                },
            ]
        },
        _ => Seq::empty(),
    }
}

fn copy_all(bytes: &Vec<u8>) -> (r: Vec<u8>)
    ensures
        r@ == bytes@,
{
    let r: Vec<u8> = copy_bytes(bytes.as_slice(), 0, bytes.len());
    assert(r@ =~= bytes@);
    r
}

fn arrow_bytes(app: bool, up: bool) -> (r: Vec<u8>)
    ensures
        r@ == arrow_key(app, up),
{
    let mut r: Vec<u8> = Vec::new();
    r.push(0x1b);
    if app {
        r.push(0x4f);
    } else {
        r.push(0x5b);
    }
    if up {
        r.push(0x41);
    } else {
        r.push(0x42);
    }
    assert(r@ =~= arrow_key(app, up));
    r
}

fn page_bytes(up: bool) -> (r: Vec<u8>)
    ensures
        r@ == crate::mouse::page_key(up),
{
    let mut r: Vec<u8> = Vec::new();
    r.push(0x1b);
    r.push(0x5b);
    if up {
        r.push(0x35);
    } else {
        r.push(0x36);
    }
    r.push(0x7e);
    assert(r@ =~= crate::mouse::page_key(up));
    r
}

/// Apply a scroll event to a pane: panes tracking the mouse get the raw
/// wheel bytes, alt-screen apps get arrow/page keys (like most terminal
/// emulators), everything else scrolls its scrollback.
pub fn scroll_pane(event: &MouseEvent, t: PaneInfo, fx: &mut Vec<Effect>)
    ensures
        effects(final(fx)@) == effects(old(fx)@) + scroll_requests(event@, t),
{
    let tracking: bool = t.tracking.unwrap_or(false);
    let alternate: bool = t.alternate.unwrap_or(false);
    match event {
        MouseEvent::Wheel { up, raw } => {
            if tracking {
                request(fx, Effect::Write { pane: t.pane, bytes: copy_all(raw) });
            } else if alternate {
                let app: bool = t.app_cursor.unwrap_or(false);
                request(fx, Effect::Write { pane: t.pane, bytes: arrow_bytes(app, *up) });
                request(fx, Effect::Write { pane: t.pane, bytes: arrow_bytes(app, *up) });
                request(fx, Effect::Write { pane: t.pane, bytes: arrow_bytes(app, *up) });
            } else {
                let delta: i32 = if *up {
                    -3
                } else {
                    3
                };
                request(fx, Effect::Scroll { pane: t.pane, delta });
            }
        },
        MouseEvent::Page { up } => {
            if alternate || tracking {
                request(fx, Effect::Write { pane: t.pane, bytes: page_bytes(*up) });
            } else {
                let page: i32 = t.rows.unwrap_or(24).saturating_sub(2) as i32;
                let delta: i32 = if *up {
                    -page
                } else {
                    page
                };
                request(fx, Effect::Scroll { pane: t.pane, delta });
            }
        },
        _ => {},
    }
    assert(effects(fx@) =~= effects(old(fx)@) + scroll_requests(event@, t));
}

/// Apply scroll events to the focused pane of the viewed tab.
pub fn apply_scroll(
    event: &MouseEvent,
    sessions: &Vec<Session>,
    active: usize,
    infos: &Vec<PaneInfo>,
    fx: &mut Vec<Effect>,
)
    requires
        active < sessions@.len(),
        sessions@[active as int]@.active_tab < sessions@[active as int]@.tabs.len(),
    ensures
        ({
            let tab = session_views(sessions@)[active as int].tab();
            effects(final(fx)@) == effects(old(fx)@) + (if tab.layout.has_pane(tab.focused) {
                scroll_requests(event@, info_from(infos@, tab.focused, 0))
            } else {
                Seq::empty()
            })
        }),
{
    let session: &Session = &sessions[active];
    let tab = &session.tabs[session.active_tab];
    assert(session_views(sessions@)[active as int].tab() == tab@);
    if tab.layout.contains(tab.focused) {
        scroll_pane(event, info_of(infos, tab.focused), fx);
    } else {
        assert(effects(fx@) =~= effects(fx@) + Seq::<EffectView>::empty());
    }
}

/// Per-client mouse-selection state (`select_copy`).
#[derive(Clone, Copy)]
pub struct SelectState {
    /// The pane that the gesture is anchored in.
    pub gesture: Option<u64>,
    /// Pane holding an installed (visible) selection.
    pub selected_pane: Option<u64>,
    /// Pane-local cell the gesture was anchored at.
    pub anchor: Option<(u16, u16)>,
    /// Whether the current drag runs backward (before the anchor).
    pub backward: bool,
}

/// No gesture and no selection.
pub open spec fn no_selection() -> SelectState {
    SelectState { gesture: None, selected_pane: None, anchor: None, backward: false }
}

impl Default for SelectState {
    fn default() -> (r: SelectState)
        ensures
            r == no_selection(),
    {
        SelectState { gesture: None, selected_pane: None, anchor: None, backward: false }
    }
}

/// Whether some tab among these holds a pane.
pub open spec fn in_tabs(tabs: Seq<TabView>, pane: u64) -> bool {
    exists|j: int| 0 <= j < tabs.len() && (#[trigger] tabs[j]).layout.has_pane(pane)
}

/// Whether some session holds a pane.
pub open spec fn in_sessions(s: Seq<SessionView>, pane: u64) -> bool {
    exists|i: int| 0 <= i < s.len() && in_tabs((#[trigger] s[i]).tabs, pane)
}

fn session_holds(session: &Session, pane: u64) -> (r: bool)
    ensures
        r == in_tabs(session@.tabs, pane),
{
    let mut j: usize = 0;
    while j < session.tabs.len()
        invariant
            j <= session.tabs@.len(),
            forall|k: int| 0 <= k < j ==> !(#[trigger] session@.tabs[k]).layout.has_pane(pane),
        decreases session.tabs@.len() - j,
    {
        if session.tabs[j].layout.contains(pane) {
            assert(session@.tabs[j as int].layout.has_pane(pane));
            return true;
        }
        j = j + 1;
    }
    false
}

/// Whether some session holds a pane.
pub fn sessions_hold(sessions: &Vec<Session>, pane: u64) -> (r: bool)
    ensures
        r == in_sessions(session_views(sessions@), pane),
{
    let ghost v = session_views(sessions@);
    let mut i: usize = 0;
    while i < sessions.len()
        invariant
            i <= sessions@.len(),
            v == session_views(sessions@),
            forall|k: int| 0 <= k < i ==> !in_tabs((#[trigger] v[k]).tabs, pane),
        decreases sessions@.len() - i,
    {
        if session_holds(&sessions[i], pane) {
            assert(in_tabs(v[i as int].tabs, pane));
            return true;
        }
        i = i + 1;
    }
    false
}

/// What removing the visible selection asks for.
pub open spec fn unselect_requests(select: SelectState, s: Seq<SessionView>) -> Seq<EffectView> {
    match select.selected_pane {
        Some(p) => if in_sessions(s, p) {
            seq![EffectView::ClearSelection { pane: p }]
        } else {
            Seq::empty()
        },
        None => Seq::empty(),
    }
}

/// Clear the visible selection but keep the gesture (used on a fresh
/// press, where the gesture must survive for double-click chaining).
pub fn clear_only_selection(
    select: &mut SelectState,
    sessions: &Vec<Session>,
    fx: &mut Vec<Effect>,
)
    ensures
        *final(select) == (SelectState { selected_pane: None, ..*old(select) }),
        effects(final(fx)@) == effects(old(fx)@) + unselect_requests(
            *old(select),
            session_views(sessions@),
        ),
{
    if let Some(p) = select.selected_pane {
        if sessions_hold(sessions, p) {
            request(fx, Effect::ClearSelection { pane: p });
        }
    }
    select.selected_pane = None;
    assert(effects(fx@) =~= effects(old(fx)@) + unselect_requests(
        *old(select),
        session_views(sessions@),
    ));
}

/// Clear the visible selection (if any) and forget the gesture.
pub fn clear_selection(select: &mut SelectState, sessions: &Vec<Session>, fx: &mut Vec<Effect>)
    ensures
        *final(select) == (SelectState { gesture: None, selected_pane: None, ..*old(select) }),
        effects(final(fx)@) == effects(old(fx)@) + unselect_requests(
            *old(select),
            session_views(sessions@),
        ),
{
    clear_only_selection(select, sessions, fx);
    select.gesture = None;
}

/// What the terminals have to do for a selection gesture.
#[derive(Clone, Copy)]
pub enum SelectStep {
    Idle,
    /// Anchor a gesture at a cell, a new one when `fresh`.
    Press { pane: u64, x: u16, y: u16, fresh: bool },
    /// Extend the gesture to a cell; when `reanchor`, first start it anew
    /// at `anchor`, biased for a drag that runs `backward` or not.
    Drag {
        pane: u64,
        x: u16,
        y: u16,
        anchor: (u16, u16),
        reanchor: bool,
        backward: bool,
        columns: u32,
        screen_height: u32,
    },
    /// Finish the gesture at a cell.
    Release { pane: u64, x: u16, y: u16 },
}

/// The 0-based cell and the bytes of a button event.
pub open spec fn pointed(event: MouseView) -> Option<(u16, u16, Seq<u8>)> {
    match event {
        MouseView::Press { x, y, raw, .. } => Some((zero_based(x), zero_based(y), raw)),
        MouseView::Drag { x, y, raw } => Some((zero_based(x), zero_based(y), raw)),
        MouseView::Release { x, y, raw } => Some((zero_based(x), zero_based(y), raw)),
        _ => None,
    }
}

/// A 1-based coordinate counted from 0.
pub open spec fn zero_based(n: u16) -> u16 {
    if n == 0 {
        0
    } else {
        (n - 1) as u16
    }
}

/// The first pane from `i` on that a cell lies in.
pub open spec fn hit(rs: Seq<(u64, Rect)>, x: u16, y: u16, i: int) -> Option<int>
    decreases rs.len() - i,
{
    if i >= rs.len() {
        None
    } else if rs[i].1.has(x as int, y as int) {
        Some(i)
    } else {
        hit(rs, x, y, i + 1)
    }
}

/// The pane that an event goes to. Drags and releases stick to the
/// gesture's pane; presses, and events without a gesture, go by position.
pub open spec fn aimed(event: MouseView, select: SelectState, rs: Seq<(u64, Rect)>) -> Option<int> {
    match pointed(event) {
        None => None,
        Some((x, y, _)) => if event !is Press && select.gesture is Some {
            entry_of(rs, select.gesture->0, 0)
        } else {
            match hit(rs, x, y, 0) {
                Some(k) => entry_of(rs, rs[k].0, 0),
                None => None,
            }
        },
    }
}

/// A 1-based row as the pane area counts it, which starts below `above`
/// rows of the screen: rows above the area count as its first.
pub open spec fn row_on_panes(y: u16, above: u16) -> u16 {
    if zero_based(y) < above {
        1
    } else {
        (y - above) as u16
    }
}

/// A button event as the pane area sees it, which starts below `above` rows
/// of the screen. An event on those rows goes to no pane, unless it belongs
/// to a gesture that is under way.
pub open spec fn on_panes(event: MouseView, above: u16, held: bool) -> Option<MouseView> {
    match event {
        MouseView::Press { left, x, y, raw } => if zero_based(y) < above {
            None
        } else {
            Some(MouseView::Press { left, x, y: row_on_panes(y, above), raw })
        },
        MouseView::Drag { x, y, raw } => if zero_based(y) < above && !held {
            None
        } else {
            Some(MouseView::Drag { x, y: row_on_panes(y, above), raw })
        },
        MouseView::Release { x, y, raw } => if zero_based(y) < above && !held {
            None
        } else {
            Some(MouseView::Release { x, y: row_on_panes(y, above), raw })
        },
        _ => Some(event),
    }
}

/// A coordinate within a pane that starts at `at` and is `len` long, kept
/// within it.
pub open spec fn local(n: u16, at: u16, len: u16) -> u16 {
    if n < at || len == 0 {
        0
    } else if n >= at + len {
        (len - 1) as u16
    } else {
        (n - at) as u16
    }
}

/// What a button event does: the new selection state, the pane that gets
/// the focus, what is asked of the panes, and the gesture step.
pub struct Selected {
    pub select: SelectState,
    pub focus: Option<u64>,
    pub fx: Seq<EffectView>,
    pub step: SelectStep,
}

/// Nothing happens but what is asked of the panes.
pub open spec fn selected_idle(select: SelectState, fx: Seq<EffectView>) -> Selected {
    Selected { select, focus: None, fx, step: SelectStep::Idle }
}

/// Whether a drag to a cell runs backward: before the anchor in reading
/// order.
pub open spec fn runs_backward(x: u16, y: u16, anchor: (u16, u16)) -> bool {
    y < anchor.1 || (y == anchor.1 && x < anchor.0)
}

/// What a button event does in the viewed tab.
pub open spec fn selected(
    event: MouseView,
    select: SelectState,
    s: Seq<SessionView>,
    active: int,
    size: (u16, u16),
    enabled: bool,
    infos: Seq<PaneInfo>,
) -> Selected {
    let tab = s[active].tab();
    let rs = tab.visible(size);
    match aimed(event, select, rs) {
        None => selected_idle(select, Seq::empty()),
        Some(k) => {
            let pane = rs[k].0;
            let r = rs[k].1;
            let (px, py, raw) = pointed(event)->0;
            let x = local(px, r.x, r.w);
            let y = local(py, r.y, r.h);
            if tab.layout.has_pane(pane) && info_from(infos, pane, 0).tracking == Some(true) {
                selected_idle(select, seq![EffectView::Write { pane, bytes: raw }])
            } else {
                match event {
                    MouseView::Press { left, .. } => Selected {
                        select: SelectState { selected_pane: None, ..select },
                        focus: Some(pane),
                        fx: unselect_requests(select, s),
                        step: if left && enabled {
                            SelectStep::Press { pane, x, y, fresh: select.gesture != Some(pane) }
                        } else {
                            SelectStep::Idle
                        },
                    },
                    MouseView::Drag { .. } => match select.anchor {
                        Some(anchor) => if enabled && select.gesture == Some(pane) {
                            let backward = runs_backward(x, y, anchor);
                            Selected {
                                select: SelectState { backward, ..select },
                                focus: None,
                                fx: Seq::empty(),
                                step: SelectStep::Drag {
                                    pane,
                                    x,
                                    y,
                                    anchor,
                                    reanchor: backward != select.backward,
                                    backward,
                                    columns: if r.w < 1 {
                                        1
                                    } else {
                                        r.w as u32
                                    },
                                    screen_height: if r.h < 1 {
                                        CELL_H
                                    } else {
                                        (r.h * CELL_H) as u32
                                    },
                                },
                            }
                        } else {
                            selected_idle(select, Seq::empty())
                        },
                        None => selected_idle(select, Seq::empty()),
                    },
                    _ => if enabled && select.gesture == Some(pane) {
                        Selected {
                            select,
                            focus: None,
                            fx: Seq::empty(),
                            step: SelectStep::Release { pane, x, y },
                        }
                    } else {
                        selected_idle(select, Seq::empty())
                    },
                }
            }
        },
    }
}

/// The sessions with the focus of the viewed tab moved to a pane.
pub open spec fn focus_moved(s: Seq<SessionView>, active: int, focus: Option<u64>) -> Seq<
    SessionView,
> {
    match focus {
        Some(p) => s.update(
            active,
            s[active].with_tab(TabView { focused: p, ..s[active].tab() }),
        ),
        None => s,
    }
}

fn less_one(n: u16) -> (r: u16)
    ensures
        r == zero_based(n),
{
    if n == 0 {
        0
    } else {
        n - 1
    }
}

fn lift(y: u16, above: u16) -> (r: u16)
    ensures
        r == row_on_panes(y, above),
{
    if less_one(y) < above {
        1
    } else {
        y - above
    }
}

/// A button event as the pane area sees it, which starts below `above` rows
/// of the screen, unless it goes to no pane.
pub fn to_panes(event: &MouseEvent, above: u16, held: bool) -> (r: Option<MouseEvent>)
    requires
        event is Press || event is Drag || event is Release,
    ensures
        r matches Some(e) ==> on_panes(event@, above, held) == Some(e@),
        r is None ==> on_panes(event@, above, held) is None,
{
    match event {
        MouseEvent::Press { left, x, y, raw } => if less_one(*y) < above {
            None
        } else {
            Some(MouseEvent::Press { left: *left, x: *x, y: lift(*y, above), raw: copy_all(raw) })
        },
        MouseEvent::Drag { x, y, raw } => if less_one(*y) < above && !held {
            None
        } else {
            Some(MouseEvent::Drag { x: *x, y: lift(*y, above), raw: copy_all(raw) })
        },
        MouseEvent::Release { x, y, raw } => if less_one(*y) < above && !held {
            None
        } else {
            Some(MouseEvent::Release { x: *x, y: lift(*y, above), raw: copy_all(raw) })
        },
        _ => None,
    }
}

fn localize(n: u16, at: u16, len: u16) -> (r: u16)
    requires
        at + len <= u16::MAX,
    ensures
        r == local(n, at, len),
{
    if n < at || len == 0 {
        0
    } else if n >= at + len {
        len - 1
    } else {
        n - at
    }
}

fn find_hit(rs: &Vec<(u64, Rect)>, x: u16, y: u16) -> (r: Option<usize>)
    requires
        crate::model::all_fit(rs@),
    ensures
        r matches Some(k) ==> hit(rs@, x, y, 0) == Some(k as int) && k < rs@.len(),
        r is None ==> hit(rs@, x, y, 0) is None,
{
    let mut i: usize = 0;
    while i < rs.len()
        invariant
            i <= rs@.len(),
            crate::model::all_fit(rs@),
            hit(rs@, x, y, 0) == hit(rs@, x, y, i as int),
        decreases rs@.len() - i,
    {
        let r: Rect = rs[i].1;
        assert(rs@[i as int].1.fits());
        if x >= r.x && x < r.x + r.w && y >= r.y && y < r.y + r.h {
            return Some(i);
        }
        i = i + 1;
    }
    None
}

/// Handle press/drag/release for mouse select-to-copy: move the focus,
/// pass the event on to a pane that tracks the mouse, or say what the
/// selection gesture needs.
pub fn apply_select(
    event: &MouseEvent,
    select: &mut SelectState,
    sessions: &mut Vec<Session>,
    active: usize,
    size: (u16, u16),
    enabled: bool,
    infos: &Vec<PaneInfo>,
    fx: &mut Vec<Effect>,
) -> (step: SelectStep)
    requires
        active < old(sessions)@.len(),
        old(sessions)@[active as int]@.active_tab < old(sessions)@[active as int]@.tabs.len(),
    ensures
        ({
            let s = session_views(old(sessions)@);
            let r = selected(event@, *old(select), s, active as int, size, enabled, infos@);
            &&& *final(select) == r.select
            &&& session_views(final(sessions)@) == focus_moved(s, active as int, r.focus)
            &&& effects(final(fx)@) == effects(old(fx)@) + r.fx
            &&& step == r.step
        }),
{
    let ghost s = session_views(sessions@);
    let ghost want = selected(event@, *select, s, active as int, size, enabled, infos@);
    let ghost none = Seq::<EffectView>::empty();
    assert(effects(fx@) + none =~= effects(fx@));
    let (x, y, raw): (u16, u16, &Vec<u8>) = match event {
        MouseEvent::Press { left, x, y, raw } => (*x, *y, raw),
        MouseEvent::Drag { x, y, raw } => (*x, *y, raw),
        MouseEvent::Release { x, y, raw } => (*x, *y, raw),
        _ => {
            return SelectStep::Idle;
        },
    };
    // 1-based screen coords -> 0-based content coords.
    let px: u16 = less_one(x);
    let py: u16 = less_one(y);
    let is_press: bool = matches!(event, MouseEvent::Press { .. });
    let at: usize = sessions[active].active_tab;
    let rs: Vec<(u64, Rect)> = sessions[active].tabs[at].visible_rects(size);
    assert(s[active as int].tab() == sessions@[active as int].tabs@[at as int]@);
    proof {
        crate::layout::law_panes_tile(s[active as int].tab().layout, crate::layout::whole(size));
        assert(crate::model::all_fit(rs@));
    }
    let target: Option<usize> = match select.gesture {
        Some(pid) if !is_press => find_entry(&rs, pid),
        _ => match find_hit(&rs, px, py) {
            Some(k) => find_entry(&rs, rs[k].0),
            None => None,
        },
    };
    let k: usize = match target {
        Some(k) => k,
        // A divider or the tab bar.
        None => {
            return SelectStep::Idle;
        },
    };
    assert(aimed(event@, *select, rs@) == Some(k as int));
    let pane: u64 = rs[k].0;
    let rect: Rect = rs[k].1;
    assert(rs@[k as int].1.fits());
    // Panes that track the mouse get the raw event; no selection.
    if sessions[active].tabs[at].layout.contains(pane) && info_of(infos, pane).tracking.unwrap_or(
        false,
    ) {
        request(fx, Effect::Write { pane, bytes: copy_all(raw) });
        assert(effects(fx@) =~= effects(old(fx)@) + want.fx);
        return SelectStep::Idle;
    }
    // Pane-local cell coordinates, clamped into the pane.
    let lx: u16 = localize(px, rect.x, rect.w);
    let ly: u16 = localize(py, rect.y, rect.h);
    match event {
        // Press: click-to-focus, then anchor a selection gesture.
        MouseEvent::Press { left, .. } => {
            let fresh: bool = match select.gesture {
                Some(pid) => pid != pane,
                None => true,
            };
            clear_only_selection(select, sessions, fx);
            sessions[active].tabs[at].focused = pane;
            proof {
                let t = sessions@[active as int];
                assert(t@.tabs =~= s[active as int].tabs.update(
                    at as int,
                    TabView { focused: pane, ..s[active as int].tab() },
                ));
                assert(session_views(sessions@) =~= focus_moved(s, active as int, Some(pane)));
            }
            // Middle/right click: focus only.
            if *left && enabled {
                SelectStep::Press { pane, x: lx, y: ly, fresh }
            } else {
                SelectStep::Idle
            }
        },
        // Drag: extend the selection.
        MouseEvent::Drag { .. } => {
            let held: bool = match select.gesture {
                Some(pid) => pid == pane,
                None => false,
            };
            match select.anchor {
                Some(anchor) => if enabled && held {
                    // The anchor's side is fixed at press time, so a drag
                    // that crosses to the other side of the anchor starts
                    // the gesture anew, biased the other way.
                    let backward: bool = ly < anchor.1 || (ly == anchor.1 && lx < anchor.0);
                    let reanchor: bool = backward != select.backward;
                    select.backward = backward;
                    let columns: u32 = if rect.w < 1 {
                        1
                    } else {
                        rect.w as u32
                    };
                    let screen_height: u32 = if rect.h < 1 {
                        CELL_H
                    } else {
                        rect.h as u32 * CELL_H
                    };
                    SelectStep::Drag {
                        pane,
                        x: lx,
                        y: ly,
                        anchor,
                        reanchor,
                        backward,
                        columns,
                        screen_height,
                    }
                } else {
                    SelectStep::Idle
                },
                None => SelectStep::Idle,
            }
        },
        // Release: finish the gesture.
        _ => {
            let held: bool = match select.gesture {
                Some(pid) => pid == pane,
                None => false,
            };
            if enabled && held {
                SelectStep::Release { pane, x: lx, y: ly }
            } else {
                SelectStep::Idle
            }
        },
    }
}

/// How anchoring a gesture went.
#[derive(Clone, Copy)]
pub enum PressOutcome {
    /// A new gesture could not be made.
    NoGesture,
    /// The gesture is anchored; a selection is visible when `selected`.
    Anchored { selected: bool },
}

/// The selection state after a press at a cell of a pane.
pub open spec fn pressed(select: SelectState, pane: u64, x: u16, y: u16, o: PressOutcome)
    -> SelectState {
    match o {
        PressOutcome::NoGesture => SelectState { gesture: None, ..select },
        PressOutcome::Anchored { selected } => SelectState {
            gesture: Some(pane),
            selected_pane: if selected {
                Some(pane)
            } else {
                select.selected_pane
            },
            anchor: Some((x, y)),
            backward: false,
        },
    }
}

/// Note how anchoring a gesture went.
pub fn press_done(select: &mut SelectState, pane: u64, x: u16, y: u16, o: PressOutcome)
    ensures
        *final(select) == pressed(*old(select), pane, x, y, o),
{
    match o {
        PressOutcome::NoGesture => {
            select.gesture = None;
        },
        PressOutcome::Anchored { selected } => {
            select.gesture = Some(pane);
            if selected {
                select.selected_pane = Some(pane);
            }
            select.anchor = Some((x, y));
            select.backward = false;
        },
    }
}

/// Note whether extending a gesture made a selection visible.
pub fn drag_done(select: &mut SelectState, pane: u64, selected: bool)
    ensures
        *final(select) == (SelectState {
            selected_pane: if selected {
                Some(pane)
            } else {
                old(select).selected_pane
            },
            ..*old(select)
        }),
{
    if selected {
        select.selected_pane = Some(pane);
    }
}

/// Whether a finished gesture is copied: after a drag or a multi-click
/// (word/line). A bare click just moves focus.
pub fn worth_copying(dragged: Option<bool>, clicks: Option<u32>) -> (r: bool)
    ensures
        r == (dragged == Some(true) || (clicks is Some && clicks->0 >= 2)),
{
    dragged.unwrap_or(false) || clicks.unwrap_or(0) >= 2
}

/// What a chunk of input has copied after one more of its events: the last
/// text wins.
pub fn later_copy(before: Option<String>, now: Option<String>) -> (r: Option<String>)
    ensures
        r == if now is Some {
            now
        } else {
            before
        },
{
    match now {
        Some(text) => Some(text),
        None => before,
    }
}

/// The text to copy to the client's clipboard, if there is any.
pub fn nonempty(text: String) -> (r: Option<String>)
    ensures
        match r {
            Some(t) => t@ == text@ && t@.len() > 0,
            None => text@.len() == 0,
        },
{
    if text.as_str().is_empty() {
        None
    } else {
        Some(text)
    }
}

/// The text of selected bytes to copy to the client's clipboard, if there is
/// any.
pub fn copied_text(bytes: &[u8]) -> (r: Option<String>)
    ensures
        match r {
            Some(t) => t@ == lossy_chars(bytes@) && t@.len() > 0,
            None => lossy_chars(bytes@).len() == 0,
        },
        valid_utf8(bytes@) ==> lossy_chars(bytes@) == decode_utf8(bytes@),
{
    nonempty(decode_lossy(bytes))
}

/// A coordinate within a pane lies within it, when the pane has any cell.
pub proof fn law_local_within(n: u16, at: u16, len: u16)
    requires
        len > 0,
    ensures
        local(n, at, len) < len,
        at <= n < at + len ==> local(n, at, len) == n - at,
{
}

/// A click in a pane lands on that pane: presses go to the one pane that
/// the cell lies in, whatever gesture is going on.
pub proof fn law_press_hits_its_pane(
    event: MouseView,
    select: SelectState,
    tab: TabView,
    size: (u16, u16),
    k: int,
)
    requires
        event is Press,
        tab.live(),
        0 <= k < tab.visible(size).len(),
        tab.visible(size)[k].1.has((pointed(event)->0).0 as int, (pointed(event)->0).1 as int),
    ensures
        aimed(event, select, tab.visible(size)) == Some(k),
{
    let rs = tab.visible(size);
    let (x, y, raw) = pointed(event)->0;
    crate::layout::law_panes_tile(tab.layout, crate::layout::whole(size));
    crate::layout::law_rects_are_panes(tab.layout, crate::layout::whole(size));
    lemma_hit(rs, x, y, 0);
    assert(hit(rs, x, y, 0) == Some(k)) by {
        let j = hit(rs, x, y, 0)->0;
        if j < k {
            assert(rs[j].1.apart(rs[k].1));
        }
    }
    crate::model::lemma_entry_of(rs, rs[k].0, 0);
    assert(entry_of(rs, rs[k].0, 0) == Some(k)) by {
        let j = entry_of(rs, rs[k].0, 0)->0;
        if j != k {
            assert(tab.layout.pane_seq()[j] == tab.layout.pane_seq()[k]);
        }
    }
}

/// A click in a pane that does not track the mouse focuses that pane.
pub proof fn law_click_focuses(
    event: MouseView,
    select: SelectState,
    s: Seq<SessionView>,
    active: int,
    size: (u16, u16),
    enabled: bool,
    infos: Seq<PaneInfo>,
    k: int,
)
    requires
        event is Press,
        s[active].tab().live(),
        0 <= k < s[active].tab().visible(size).len(),
        s[active].tab().visible(size)[k].1.has(
            (pointed(event)->0).0 as int,
            (pointed(event)->0).1 as int,
        ),
        info_from(infos, s[active].tab().visible(size)[k].0, 0).tracking != Some(true),
    ensures
        selected(event, select, s, active, size, enabled, infos).focus == Some(
            s[active].tab().visible(size)[k].0,
        ),
{
    law_press_hits_its_pane(event, select, s[active].tab(), size, k);
}

pub(crate) proof fn lemma_hit(rs: Seq<(u64, Rect)>, x: u16, y: u16, i: int)
    requires
        0 <= i,
    ensures
        hit(rs, x, y, i) matches Some(k) ==> i <= k < rs.len() && rs[k].1.has(x as int, y as int)
            && (forall|j: int| i <= j < k ==> !(#[trigger] rs[j]).1.has(x as int, y as int)),
        hit(rs, x, y, i) is None ==> (forall|j: int|
            i <= j < rs.len() ==> !(#[trigger] rs[j]).1.has(x as int, y as int)),
    decreases rs.len() - i,
{
    if i < rs.len() && !rs[i].1.has(x as int, y as int) {
        lemma_hit(rs, x, y, i + 1);
    }
}

} // verus!
