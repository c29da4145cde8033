//! What the mouse does: what its bytes mean, which pane and which cell of it
//! an event is about, and what scrolling asks for.

use crate::config::BarPosition;
use crate::effect::EffectView;
use crate::input::moused;
use crate::layout::{law_panes_tile, law_rects_are_panes, whole, Rect};
use crate::model::{entry_of, lemma_entry_of, SessionView, TabView};
use crate::mouse::{
    digits_value, extracted, field_end, law_mouse_sequence_consumed, lemma_extracted_right,
    nth_field, parameter, MouseView,
};
use crate::render::{above, content, placed};
use crate::select::{
    aimed, hit, info_from, law_press_hits_its_pane, lemma_hit, scroll_requests, selected,
    PaneInfo, SelectState, SelectStep,
};
use vstd::prelude::*;

verus! {

/// `c` is the cell of a rectangle, counted from its corner, that is nearest to
/// the 1-based screen position (`x`, `y`): the cell itself when the position
/// lies in the rectangle.
pub open spec fn nearest_cell(r: Rect, x: u16, y: u16, c: (u16, u16)) -> bool {
    let col = if x == 0 {
        0
    } else {
        x - 1
    };
    let row = if y == 0 {
        0
    } else {
        y - 1
    };
    &&& r.x <= col < r.x + r.w ==> c.0 == col - r.x
    &&& col < r.x ==> c.0 == 0
    &&& col >= r.x + r.w && r.w > 0 ==> c.0 == r.w - 1
    &&& r.w == 0 ==> c.0 == 0
    &&& r.y <= row < r.y + r.h ==> c.1 == row - r.y
    &&& row < r.y ==> c.1 == 0
    &&& row >= r.y + r.h && r.h > 0 ==> c.1 == r.h - 1
    &&& r.h == 0 ==> c.1 == 0
}

/// The 1-based screen position (`x`, `y`) lies in a rectangle.
pub open spec fn points_into(r: Rect, x: u16, y: u16) -> bool {
    let col = if x == 0 {
        0
    } else {
        x - 1
    };
    let row = if y == 0 {
        0
    } else {
        y - 1
    };
    r.x <= col < r.x + r.w && r.y <= row < r.y + r.h
}

proof fn lemma_held_entry(tab: TabView, size: (u16, u16), k: int)
    requires
        tab.live(),
        0 <= k < tab.visible(size).len(),
    ensures
        entry_of(tab.visible(size), tab.visible(size)[k].0, 0) == Some(k),
        tab.layout.has_pane(tab.visible(size)[k].0),
{
    let rs = tab.visible(size);
    law_rects_are_panes(tab.layout, whole(size));
    lemma_entry_of(rs, rs[k].0, 0);
    if !tab.zoomed {
        let j = entry_of(rs, rs[k].0, 0)->0;
        assert(tab.layout.pane_seq()[j] == tab.layout.pane_seq()[k]);
        assert(tab.layout.pane_seq().contains(tab.layout.pane_seq()[k]));
    }
}

/// A drag of a gesture held in a pane extends it to the cell of the pane that
/// the mouse points at, or to the nearest cell of the pane where it points
/// elsewhere. It runs backward when that cell comes before the anchor in
/// reading order, and the gesture is anchored anew when that changes. Nothing
/// else happens.
pub proof fn law_drag_follows_the_mouse(
    x: u16,
    y: u16,
    raw: Seq<u8>,
    select: SelectState,
    s: Seq<SessionView>,
    active: int,
    size: (u16, u16),
    infos: Seq<PaneInfo>,
    k: int,
    anchor: (u16, u16),
)
    requires
        s[active].tab().live(),
        0 <= k < s[active].tab().visible(size).len(),
        select.gesture == Some(s[active].tab().visible(size)[k].0),
        select.anchor == Some(anchor),
        info_from(infos, s[active].tab().visible(size)[k].0, 0).tracking != Some(true),
    ensures
        ({
            let (pane, r) = s[active].tab().visible(size)[k];
            let got = selected(
                MouseView::Drag { x, y, raw },
                select,
                s,
                active,
                size,
                true,
                infos,
            );
            &&& got.focus is None && got.fx.len() == 0
            &&& got.step matches SelectStep::Drag {
                pane: p,
                x: cx,
                y: cy,
                anchor: a,
                reanchor,
                backward,
                columns,
                screen_height,
            } && {
                &&& p == pane
                &&& nearest_cell(r, x, y, (cx, cy))
                &&& a == anchor
                &&& backward <==> cy < anchor.1 || (cy == anchor.1 && cx < anchor.0)
                &&& reanchor <==> backward != select.backward
                &&& r.w > 0 ==> columns == r.w
                &&& r.w == 0 ==> columns == 1
                &&& r.h > 0 ==> screen_height == 16 * r.h
                &&& r.h == 0 ==> screen_height == 16
                &&& got.select == (SelectState { backward, ..select })
            }
        }),
{
    let tab = s[active].tab();
    lemma_held_entry(tab, size, k);
    law_panes_tile(tab.layout, whole(size));
    assert(tab.visible(size)[k].1.fits());
}

/// A release of a gesture held in a pane finishes it at the cell that the
/// mouse points at, or the nearest cell of the pane.
pub proof fn law_release_follows_the_mouse(
    x: u16,
    y: u16,
    raw: Seq<u8>,
    select: SelectState,
    s: Seq<SessionView>,
    active: int,
    size: (u16, u16),
    infos: Seq<PaneInfo>,
    k: int,
)
    requires
        s[active].tab().live(),
        0 <= k < s[active].tab().visible(size).len(),
        select.gesture == Some(s[active].tab().visible(size)[k].0),
        info_from(infos, s[active].tab().visible(size)[k].0, 0).tracking != Some(true),
    ensures
        ({
            let (pane, r) = s[active].tab().visible(size)[k];
            let got = selected(
                MouseView::Release { x, y, raw },
                select,
                s,
                active,
                size,
                true,
                infos,
            );
            &&& got.focus is None && got.fx.len() == 0 && got.select == select
            &&& got.step matches SelectStep::Release { pane: p, x: cx, y: cy } && p == pane
                && nearest_cell(r, x, y, (cx, cy))
        }),
{
    let tab = s[active].tab();
    lemma_held_entry(tab, size, k);
    law_panes_tile(tab.layout, whole(size));
    assert(tab.visible(size)[k].1.fits());
}

/// A press in a pane focuses it and takes the visible selection away; with the
/// left button, and copying switched on, it also anchors a gesture at the cell
/// under the mouse, a new one unless the pane has one already.
pub proof fn law_press_anchors_under_the_mouse(
    left: bool,
    x: u16,
    y: u16,
    raw: Seq<u8>,
    select: SelectState,
    s: Seq<SessionView>,
    active: int,
    size: (u16, u16),
    enabled: bool,
    infos: Seq<PaneInfo>,
    k: int,
)
    requires
        s[active].tab().live(),
        0 <= k < s[active].tab().visible(size).len(),
        points_into(s[active].tab().visible(size)[k].1, x, y),
        info_from(infos, s[active].tab().visible(size)[k].0, 0).tracking != Some(true),
    ensures
        ({
            let (pane, r) = s[active].tab().visible(size)[k];
            let got = selected(
                MouseView::Press { left, x, y, raw },
                select,
                s,
                active,
                size,
                enabled,
                infos,
            );
            &&& got.focus == Some(pane)
            &&& got.select == (SelectState { selected_pane: None, ..select })
            &&& select.selected_pane is None ==> got.fx.len() == 0
            &&& select.selected_pane matches Some(p) ==> (if exists|a: int, b: int| #[trigger]
                crate::world::holds(s, a, b, p) {
                got.fx == seq![EffectView::ClearSelection { pane: p }]
            } else {
                got.fx.len() == 0
            })
            &&& !(left && enabled) ==> got.step is Idle
            &&& left && enabled ==> (got.step matches SelectStep::Press {
                pane: p,
                x: cx,
                y: cy,
                fresh,
            } && p == pane && r.x + cx + 1 == (if x == 0 {
                1
            } else {
                x as int
            }) && r.y + cy + 1 == (if y == 0 {
                1
            } else {
                y as int
            }) && fresh == (select.gesture != Some(pane)))
        }),
{
    let tab = s[active].tab();
    law_press_hits_its_pane(MouseView::Press { left, x, y, raw }, select, tab, size, k);
    lemma_held_entry(tab, size, k);
    if let Some(p) = select.selected_pane {
        lemma_in_sessions(s, p);
    }
}

proof fn lemma_in_sessions(s: Seq<SessionView>, p: u64)
    ensures
        crate::select::in_sessions(s, p) <==> (exists|a: int, b: int| #[trigger]
            crate::world::holds(s, a, b, p)),
{
    if crate::select::in_sessions(s, p) {
        let a = choose|a: int|
            0 <= a < s.len() && crate::select::in_tabs((#[trigger] s[a]).tabs, p);
        let b = choose|b: int|
            0 <= b < s[a].tabs.len() && (#[trigger] s[a].tabs[b]).layout.has_pane(p);
        assert(crate::world::holds(s, a, b, p));
    }
    if exists|a: int, b: int| #[trigger] crate::world::holds(s, a, b, p) {
        let (a, b) = choose|a: int, b: int| #[trigger] crate::world::holds(s, a, b, p);
        assert(s[a].tabs[b].layout.has_pane(p));
        assert(crate::select::in_tabs(s[a].tabs, p));
    }
}

/// An event that points at no pane, a divider or past the panes, does nothing
/// unless a gesture is under way; nor does a drag or a release without a
/// gesture, or with copying switched off, in a pane that does not track the
/// mouse.
pub proof fn law_stray_events_idle(
    event: MouseView,
    select: SelectState,
    s: Seq<SessionView>,
    active: int,
    size: (u16, u16),
    enabled: bool,
    infos: Seq<PaneInfo>,
)
    requires
        s[active].tab().live(),
        ({
            let rs = s[active].tab().visible(size);
            match event {
                MouseView::Press { x, y, .. } => forall|i: int|
                    0 <= i < rs.len() ==> !points_into((#[trigger] rs[i]).1, x, y),
                MouseView::Drag { x, y, .. } => {
                    &&& !enabled || select.gesture is None || select.anchor is None
                    &&& forall|i: int|
                        0 <= i < rs.len() ==> info_from(infos, (#[trigger] rs[i]).0, 0).tracking
                            != Some(true)
                },
                MouseView::Release { x, y, .. } => {
                    &&& !enabled || select.gesture is None
                    &&& forall|i: int|
                        0 <= i < rs.len() ==> info_from(infos, (#[trigger] rs[i]).0, 0).tracking
                            != Some(true)
                },
                _ => true,
            }
        }),
    ensures
        ({
            let got = selected(event, select, s, active, size, enabled, infos);
            got.select == select && got.focus is None && got.fx.len() == 0 && got.step is Idle
        }),
{
    let tab = s[active].tab();
    let rs = tab.visible(size);
    match event {
        MouseView::Press { x, y, .. } => {
            let (px, py, _) = crate::select::pointed(event)->0;
            lemma_hit(rs, px, py, 0);
        },
        MouseView::Drag { x, y, .. } => {
            let (px, py, _) = crate::select::pointed(event)->0;
            lemma_hit(rs, px, py, 0);
            if let Some(j) = hit(rs, px, py, 0) {
                lemma_entry_of(rs, rs[j].0, 0);
            }
            if let Some(g) = select.gesture {
                lemma_entry_of(rs, g, 0);
            }
        },
        MouseView::Release { x, y, .. } => {
            let (px, py, _) = crate::select::pointed(event)->0;
            lemma_hit(rs, px, py, 0);
            if let Some(j) = hit(rs, px, py, 0) {
                lemma_entry_of(rs, rs[j].0, 0);
            }
            if let Some(g) = select.gesture {
                lemma_entry_of(rs, g, 0);
            }
        },
        _ => {},
    }
}

/// A pane that tracks the mouse gets the very bytes of every button event that
/// points at it or belongs to a gesture in it; nothing else comes of them.
pub proof fn law_tracking_pane_gets_bytes(
    event: MouseView,
    select: SelectState,
    s: Seq<SessionView>,
    active: int,
    size: (u16, u16),
    enabled: bool,
    infos: Seq<PaneInfo>,
    k: int,
    x: u16,
    y: u16,
    raw: Seq<u8>,
)
    requires
        s[active].tab().live(),
        0 <= k < s[active].tab().visible(size).len(),
        info_from(infos, s[active].tab().visible(size)[k].0, 0).tracking == Some(true),
        ({
            let (pane, r) = s[active].tab().visible(size)[k];
            ||| (event matches MouseView::Press { x: a, y: b, raw: c, .. } && a == x && b == y && c
                == raw && points_into(r, x, y))
            ||| event == (MouseView::Drag { x, y, raw }) && (select.gesture == Some(pane) || (
            select.gesture is None && points_into(r, x, y)))
            ||| event == (MouseView::Release { x, y, raw }) && (select.gesture == Some(pane) || (
            select.gesture is None && points_into(r, x, y)))
        }),
    ensures
        ({
            let pane = s[active].tab().visible(size)[k].0;
            let got = selected(event, select, s, active, size, enabled, infos);
            &&& got.select == select && got.focus is None && got.step is Idle
            &&& got.fx == seq![EffectView::Write { pane, bytes: raw }]
        }),
{
    let tab = s[active].tab();
    let rs = tab.visible(size);
    lemma_held_entry(tab, size, k);
    if points_into(rs[k].1, x, y) {
        law_press_hits_its_pane(MouseView::Press { left: true, x, y, raw }, select, tab, size, k);
        let none = SelectState { gesture: None, ..select };
        assert(aimed(MouseView::Press { left: true, x, y, raw }, none, rs) == Some(k));
    }
}

/// On the client's screen the panes stand below the tab bar when it is on top:
/// each at its rectangle of the pane area, one row further down then.
pub proof fn law_panes_below_the_bar(t: TabView, size: (u16, u16), bar: BarPosition, i: int)
    requires
        0 <= i < placed(t, size, bar).len(),
    ensures
        ({
            let rows = if size.1 >= 2 {
                (size.1 - 1) as u16
            } else {
                size.1
            };
            let inner = t.visible((size.0, rows));
            let down = if size.1 >= 2 && bar == BarPosition::Top {
                1int
            } else {
                0
            };
            &&& placed(t, size, bar).len() == inner.len()
            &&& placed(t, size, bar)[i].0 == inner[i].0
            &&& placed(t, size, bar)[i].1.x == inner[i].1.x
            &&& placed(t, size, bar)[i].1.y == inner[i].1.y + down
            &&& placed(t, size, bar)[i].1.w == inner[i].1.w
            &&& placed(t, size, bar)[i].1.h == inner[i].1.h
        }),
{
    let rows = if size.1 >= 2 {
        (size.1 - 1) as u16
    } else {
        size.1
    };
    assert((size.0, rows) == content(size));
    law_panes_tile(t.layout, whole(content(size)));
    assert(t.visible(content(size))[i].1.within(whole(content(size))));
}

/// What is said of presses, drags and releases in the pane area holds of the
/// client's screen as well, whichever side the tab bar is on: an event at a
/// cell of the screen that a pane is shown at is about that cell of the pane.
pub proof fn law_events_meet_what_is_shown(
    x: u16,
    y: u16,
    raw: Seq<u8>,
    select: SelectState,
    s: Seq<SessionView>,
    active: int,
    size: (u16, u16),
    bar: BarPosition,
    infos: Seq<PaneInfo>,
    k: int,
    anchor: (u16, u16),
)
    requires
        s[active].tab().live(),
        0 <= k < placed(s[active].tab(), size, bar).len(),
        x >= 1,
        y >= 1,
        points_into(placed(s[active].tab(), size, bar)[k].1, x, y),
        info_from(infos, placed(s[active].tab(), size, bar)[k].0, 0).tracking != Some(true),
    ensures
        ({
            let (pane, r) = placed(s[active].tab(), size, bar)[k];
            let up = above(bar, size);
            let press = moused(
                MouseView::Press { left: true, x, y, raw },
                select,
                s,
                active,
                content(size),
                up,
                true,
                infos,
            );
            let held = SelectState { gesture: Some(pane), anchor: Some(anchor), ..select };
            let drag = moused(
                MouseView::Drag { x, y, raw },
                held,
                s,
                active,
                content(size),
                up,
                true,
                infos,
            );
            let release = moused(
                MouseView::Release { x, y, raw },
                held,
                s,
                active,
                content(size),
                up,
                true,
                infos,
            );
            &&& press.focus == Some(pane)
            &&& press.step matches SelectStep::Press { pane: p, x: cx, y: cy, .. } && p == pane
                && r.x + cx + 1 == x && r.y + cy + 1 == y
            &&& drag.step matches SelectStep::Drag { pane: p, x: cx, y: cy, .. } && p == pane
                && r.x + cx + 1 == x && r.y + cy + 1 == y
            &&& release.step matches SelectStep::Release { pane: p, x: cx, y: cy } && p == pane
                && r.x + cx + 1 == x && r.y + cy + 1 == y
        }),
{
    let tab = s[active].tab();
    law_panes_below_the_bar(tab, size, bar, k);
    assert(content(size) == (
        size.0,
        if size.1 >= 2 {
            (size.1 - 1) as u16
        } else {
            size.1
        },
    ));
    let down = above(bar, size);
    let (pane, r) = placed(tab, size, bar)[k];
    let inner = tab.visible(content(size))[k].1;
    let yy = (y - down) as u16;
    assert(points_into(inner, x, yy));
    let held = SelectState { gesture: Some(pane), anchor: Some(anchor), ..select };
    law_press_anchors_under_the_mouse(
        true,
        x,
        yy,
        raw,
        select,
        s,
        active,
        content(size),
        true,
        infos,
        k,
    );
    law_drag_follows_the_mouse(x, yy, raw, held, s, active, content(size), infos, k, anchor);
    law_release_follows_the_mouse(x, yy, raw, held, s, active, content(size), infos, k);
}

/// The wheel scrolls the focused pane three lines, and a page key all but two
/// of its rows, up or down as it says. A pane that tracks the mouse gets the
/// wheel's bytes instead; one that runs full-screen gets three arrow keys, in
/// the form it asked for. Either gets the page key itself.
pub proof fn law_scrolling(t: PaneInfo, up: bool, raw: Seq<u8>)
    ensures
        ({
            let wheel = scroll_requests(MouseView::Wheel { up, raw }, t);
            let page = scroll_requests(MouseView::Page { up }, t);
            let tracking = t.tracking == Some(true);
            let alternate = t.alternate == Some(true);
            let lines: int = match t.rows {
                Some(n) => if n >= 2 {
                    n - 2
                } else {
                    0
                },
                None => 22,
            };
            let arrow = seq![
                0x1bu8,
                if t.app_cursor == Some(true) {
                    0x4fu8
                } else {
                    0x5bu8
                },
                if up {
                    0x41u8
                } else {
                    0x42u8
                },
            ];
            let key = seq![
                0x1bu8,
                0x5bu8,
                if up {
                    0x35u8
                } else {
                    0x36u8
                },
                0x7eu8,
            ];
            &&& tracking ==> wheel == seq![EffectView::Write { pane: t.pane, bytes: raw }]
            &&& !tracking && alternate ==> wheel == seq![
                EffectView::Write { pane: t.pane, bytes: arrow },
                EffectView::Write { pane: t.pane, bytes: arrow },
                EffectView::Write { pane: t.pane, bytes: arrow },
            ]
            &&& !tracking && !alternate ==> wheel.len() == 1 && (wheel[0] matches EffectView::Scroll {
                pane,
                delta,
            } && pane == t.pane && delta == (if up {
                -3int
            } else {
                3
            }))
            &&& tracking || alternate ==> page == seq![
                EffectView::Write { pane: t.pane, bytes: key },
            ]
            &&& !tracking && !alternate ==> page.len() == 1 && (page[0] matches EffectView::Scroll {
                pane,
                delta,
            } && pane == t.pane && delta == (if up {
                -lines
            } else {
                lines
            }))
        }),
{
    let arrow = seq![
        0x1bu8,
        if t.app_cursor == Some(true) {
            0x4fu8
        } else {
            0x5bu8
        },
        if up {
            0x41u8
        } else {
            0x42u8
        },
    ];
    assert(crate::select::arrow_key(t.app_cursor == Some(true), up) =~= arrow);
    assert(crate::mouse::page_key(up) =~= seq![
        0x1bu8,
        0x5bu8,
        if up {
            0x35u8
        } else {
            0x36u8
        },
        0x7eu8,
    ]);
    assert(-65535 <= crate::select::page_lines(t.rows) <= 65535);
}

/// The wheel and the page keys act on the focused pane of the viewed tab,
/// wherever the mouse points, and touch neither selection nor focus.
pub proof fn law_scrolling_goes_to_focus(
    event: MouseView,
    select: SelectState,
    s: Seq<SessionView>,
    active: int,
    size: (u16, u16),
    above: u16,
    enabled: bool,
    infos: Seq<PaneInfo>,
)
    requires
        event is Wheel || event is Page,
        s[active].tab().live(),
    ensures
        ({
            let got = moused(event, select, s, active, size, above, enabled, infos);
            &&& got.select == select && got.focus is None && got.step is Idle
            &&& got.fx == scroll_requests(event, info_from(infos, s[active].tab().focused, 0))
        }),
{
}

/// What is known of a pane is what its terminal said, and nothing where none
/// said anything.
pub proof fn law_info_is_of_pane(infos: Seq<PaneInfo>, pane: u64, i: int)
    requires
        forall|j: int, k: int|
            0 <= j < infos.len() && 0 <= k < infos.len() && (#[trigger] infos[j]).pane == (
            #[trigger] infos[k]).pane ==> j == k,
    ensures
        0 <= i < infos.len() && infos[i].pane == pane ==> info_from(infos, pane, 0) == infos[i],
        (forall|j: int| 0 <= j < infos.len() ==> (#[trigger] infos[j]).pane != pane) ==> info_from(
            infos,
            pane,
            0,
        ) == (PaneInfo { pane, tracking: None, alternate: None, app_cursor: None, rows: None }),
{
    lemma_info(infos, pane, 0);
}

proof fn lemma_info(infos: Seq<PaneInfo>, pane: u64, from: int)
    requires
        0 <= from,
    ensures
        (exists|j: int|
            from <= j < infos.len() && (#[trigger] infos[j]).pane == pane && info_from(
                infos,
                pane,
                from,
            ) == infos[j]) || ((forall|j: int|
            from <= j < infos.len() ==> (#[trigger] infos[j]).pane != pane) && info_from(
            infos,
            pane,
            from,
        ) == (PaneInfo { pane, tracking: None, alternate: None, app_cursor: None, rows: None })),
    decreases infos.len() - from,
{
    if from < infos.len() && infos[from].pane != pane {
        lemma_info(infos, pane, from + 1);
    }
}

/// A press that anchors a gesture holds it in its pane from that cell on,
/// forward; one whose terminal has none to give holds nothing.
pub proof fn law_gesture_held(
    select: SelectState,
    pane: u64,
    x: u16,
    y: u16,
    visible: bool,
)
    ensures
        ({
            let held = crate::select::pressed(
                select,
                pane,
                x,
                y,
                crate::select::PressOutcome::Anchored { selected: visible },
            );
            &&& held.gesture == Some(pane) && held.anchor == Some((x, y)) && !held.backward
            &&& visible ==> held.selected_pane == Some(pane)
            &&& !visible ==> held.selected_pane == select.selected_pane
        }),
        ({
            let none = crate::select::pressed(
                select,
                pane,
                x,
                y,
                crate::select::PressOutcome::NoGesture,
            );
            none == (SelectState { gesture: None, ..select })
        }),
{
}

/// A number written out in decimal digits.
pub open spec fn digits_of(n: nat) -> Seq<u8>
    decreases n,
{
    if n < 10 {
        seq![(0x30 + n) as u8]
    } else {
        digits_of(n / 10).push((0x30 + n % 10) as u8)
    }
}

proof fn lemma_digits(n: nat)
    ensures
        digits_value(digits_of(n)) == n,
        digits_of(n).len() > 0,
        forall|k: int| 0 <= k < digits_of(n).len() ==> 0x30 <= #[trigger] digits_of(n)[k] <= 0x39,
    decreases n,
{
    if n < 10 {
        let d = digits_of(n);
        assert(d.drop_last() =~= Seq::<u8>::empty());
        assert(digits_value(d.drop_last()) == 0);
    } else {
        lemma_digits(n / 10);
        let d = digits_of(n);
        assert(d.drop_last() =~= digits_of(n / 10));
        assert(10 * (n / 10) + n % 10 == n) by (nonlinear_arith);
    }
}

proof fn lemma_field_end(s: Seq<u8>, i: int, e: int)
    requires
        0 <= i <= e <= s.len(),
        forall|k: int| i <= k < e ==> #[trigger] s[k] != 0x3b,
        e < s.len() ==> s[e] == 0x3b,
    ensures
        field_end(s, i) == e,
    decreases e - i,
{
    if i < e {
        lemma_field_end(s, i + 1, e);
    }
}

/// The bytes of an SGR mouse report: the button with its modifiers, the
/// column and the row, and `M` for a press or a motion or `m` for a release.
pub open spec fn mouse_report(button: u32, x: u16, y: u16, release: bool) -> Seq<u8> {
    seq![0x1bu8, 0x5bu8, 0x3cu8] + (digits_of(button as nat) + seq![0x3bu8] + digits_of(x as nat)
        + seq![0x3bu8] + digits_of(y as nat)) + seq![
        if release {
            0x6du8
        } else {
            0x4du8
        },
    ]
}

/// What the mouse reports mean: bit 6 is the wheel, up when the button is even;
/// otherwise `m` is a release, bit 5 a motion, which counts with the left
/// button held, and anything else a press, of the left button when the lowest
/// two bits are 0. The position is what the report says. Reports and what
/// follows them do not disturb each other.
pub proof fn law_mouse_reports(button: u32, x: u16, y: u16, release: bool, rest: Seq<u8>)
    requires
        x >= 1,
        y >= 1,
    ensures
        ({
            let raw = mouse_report(button, x, y, release);
            let (keys, events) = extracted(raw + rest, 0);
            let more = extracted(rest, 0);
            let which = button % 4;
            let moving = (button / 32) % 2 == 1;
            let wheel = (button / 64) % 2 == 1;
            &&& keys == more.0
            &&& wheel && !release && which < 2 ==> events == seq![
                MouseView::Wheel { up: which == 0, raw },
            ] + more.1
            &&& wheel && (release || which >= 2) ==> events == more.1
            &&& !wheel && release ==> events == seq![MouseView::Release { x, y, raw }] + more.1
            &&& !wheel && !release && moving && which == 0 ==> events == seq![
                MouseView::Drag { x, y, raw },
            ] + more.1
            &&& !wheel && !release && moving && which != 0 ==> events == more.1
            &&& !wheel && !release && !moving ==> events == seq![
                MouseView::Press { left: which == 0, x, y, raw },
            ] + more.1
        }),
{
    let a = digits_of(button as nat);
    let b = digits_of(x as nat);
    let c = digits_of(y as nat);
    let p = a + seq![0x3bu8] + b + seq![0x3bu8] + c;
    let last = if release {
        0x6du8
    } else {
        0x4du8
    };
    let raw = mouse_report(button, x, y, release);
    lemma_digits(button as nat);
    lemma_digits(x as nat);
    lemma_digits(y as nat);
    let la = a.len() as int;
    let lb = b.len() as int;
    let lc = c.len() as int;
    assert(p.len() == la + 1 + lb + 1 + lc);
    assert forall|k: int| 0 <= k < la implies #[trigger] p[k] == a[k] by {}
    assert(p[la] == 0x3b);
    assert forall|k: int| la + 1 <= k < la + 1 + lb implies #[trigger] p[k] == b[k - la - 1] by {}
    assert(p[la + 1 + lb] == 0x3b);
    assert forall|k: int| la + lb + 2 <= k < p.len() implies #[trigger] p[k] == c[k - la - lb
        - 2] by {}
    assert forall|k: int| 0 <= k < p.len() implies crate::mouse::parameter_byte(#[trigger] p[k]) by {
        if k < la {
            assert(p[k] == a[k]);
        } else if la < k < la + 1 + lb {
            assert(p[k] == b[k - la - 1]);
        } else if k >= la + lb + 2 {
            assert(p[k] == c[k - la - lb - 2]);
        }
    }
    lemma_field_end(p, 0, la);
    lemma_field_end(p, la + 1, la + 1 + lb);
    lemma_field_end(p, la + lb + 2, p.len() as int);
    assert(p.subrange(0, la) =~= a);
    assert(p.subrange(la + 1, la + 1 + lb) =~= b);
    assert(p.subrange(la + lb + 2, p.len() as int) =~= c);
    reveal_with_fuel(nth_field, 3);
    assert(nth_field(p, 0, 0) == Some(a));
    assert(nth_field(p, 0, 1) == Some(b));
    assert(nth_field(p, 0, 2) == Some(c));
    assert(parameter(p, 0, 0) == button);
    assert(parameter(p, 1, 1) == x);
    assert(parameter(p, 2, 1) == y);
    assert((button & 64 != 0) == ((button / 64) % 2 == 1) && (button & 32 != 0) == ((button / 32)
        % 2 == 1) && button & 3 == button % 4 && button & 1 == button % 2 && (button & 2 == 0) == (
    (button / 2) % 2 == 0)) by (bit_vector);
    assert((button % 4 < 2) == ((button / 2) % 2 == 0));
    assert((button % 4 < 2) ==> (button % 2 == 0) == (button % 4 == 0));
    law_mouse_sequence_consumed(p, last, rest);
    assert(crate::mouse::sgr_intro() + p + seq![last] =~= raw);
    assert(Seq::<MouseView>::empty() + extracted(rest, 0).1 =~= extracted(rest, 0).1);
}

/// The page keys are page events, and every byte that is no escape is a key;
/// what follows is read as if it stood alone.
pub proof fn law_page_keys_and_plain_bytes(up: bool, byte: u8, rest: Seq<u8>)
    ensures
        ({
            let page = seq![
                0x1bu8,
                0x5bu8,
                if up {
                    0x35u8
                } else {
                    0x36u8
                },
                0x7eu8,
            ];
            let more = extracted(rest, 0);
            &&& extracted(page + rest, 0) == (more.0, seq![MouseView::Page { up }] + more.1)
            &&& byte != 0x1b ==> extracted(seq![byte] + rest, 0) == (seq![byte] + more.0, more.1)
        }),
{
    let page = seq![
        0x1bu8,
        0x5bu8,
        if up {
            0x35u8
        } else {
            0x36u8
        },
        0x7eu8,
    ];
    let buf = page + rest;
    assert(buf[2] == page[2]);
    assert(buf.subrange(0, 4) =~= crate::mouse::page_key(up));
    assert(!crate::text::begins_at(buf, 0, crate::mouse::sgr_intro())) by {
        assert(buf.subrange(0, 3)[2] == page[2]);
        assert(crate::mouse::sgr_intro()[2] == 0x3c);
    }
    lemma_extracted_right(page, rest, 0);
    let one = seq![byte] + rest;
    assert(one[0] == byte);
    lemma_extracted_right(seq![byte], rest, 0);
    if byte != 0x1b {
        if crate::text::begins_at(one, 0, crate::mouse::sgr_intro()) {
            assert(one.subrange(0, 3)[0] == crate::mouse::sgr_intro()[0]);
        }
        if crate::text::begins_at(one, 0, crate::mouse::page_key(true)) {
            assert(one.subrange(0, 4)[0] == crate::mouse::page_key(true)[0]);
        }
        if crate::text::begins_at(one, 0, crate::mouse::page_key(false)) {
            assert(one.subrange(0, 4)[0] == crate::mouse::page_key(false)[0]);
        }
    }
}

/// In a manager each turn of the wheel and each page key moves the selection
/// like `k` or `j`, one after the other; buttons do nothing.
pub proof fn law_wheel_in_overlays(e: MouseView, rest: Seq<MouseView>)
    ensures
        ({
            let k = seq![0x6bu8];
            let j = seq![0x6au8];
            let step = |up: bool|
                if up {
                    k
                } else {
                    j
                };
            let keys = crate::input::scroll_keys(seq![e] + rest, 0, k, j);
            let more = crate::input::scroll_keys(rest, 0, k, j);
            match e {
                MouseView::Wheel { up, .. } => keys == step(up) + more,
                MouseView::Page { up } => keys == step(up) + more,
                _ => keys == more,
            }
        }),
{
    let k = seq![0x6bu8];
    let j = seq![0x6au8];
    lemma_scroll_keys_shift(seq![e], rest, 0, k, j);
    assert((seq![e] + rest)[0] == e);
}

proof fn lemma_scroll_keys_shift(
    a: Seq<MouseView>,
    b: Seq<MouseView>,
    i: int,
    up: Seq<u8>,
    down: Seq<u8>,
)
    requires
        0 <= i,
    ensures
        crate::input::scroll_keys(a + b, a.len() + i, up, down) == crate::input::scroll_keys(
            b,
            i,
            up,
            down,
        ),
    decreases b.len() - i,
{
    if i < b.len() {
        assert((a + b)[a.len() + i] == b[i]);
        lemma_scroll_keys_shift(a, b, i + 1, up, down);
    }
}

/// The panes get the mouse events of an input. In a manager, and while
/// searching, scrolling counts as keys that come before the others; the name
/// prompt drops it.
pub proof fn law_input_by_view(buf: Seq<u8>, mode: crate::input::ModeView)
    ensures
        ({
            let (keys, events) = crate::input::input_parts(buf, mode);
            let (plain, all) = extracted(buf, 0);
            match mode {
                crate::input::ModeView::Running => keys == plain && events == all,
                crate::input::ModeView::Naming { .. } => keys == plain && events.len() == 0,
                crate::input::ModeView::Manager { .. } => events.len() == 0 && keys
                    == crate::input::scroll_keys(all, 0, seq![0x6bu8], seq![0x6au8]) + plain,
                crate::input::ModeView::Search { .. } => events.len() == 0 && keys
                    == crate::input::scroll_keys(
                    all,
                    0,
                    seq![0x1bu8, 0x5bu8, 0x41u8],
                    seq![0x1bu8, 0x5bu8, 0x42u8],
                ) + plain,
            }
        }),
{
}

/// A position outside what a screen can have counts as its nearest edge.
pub proof fn law_coordinate(n: u32)
    ensures
        1 <= n <= 65535 ==> crate::mouse::coordinate(n) == n,
        n == 0 ==> crate::mouse::coordinate(n) == 1,
        n > 65535 ==> crate::mouse::coordinate(n) == 65535,
{
}

/// Giving a pane the focus changes the focus of the viewed tab and nothing
/// else.
pub proof fn law_focus_given(s: Seq<SessionView>, active: int, p: u64)
    requires
        0 <= active < s.len(),
        s[active].active_tab < s[active].tabs.len(),
    ensures
        ({
            let after = crate::select::focus_moved(s, active, Some(p));
            let at = s[active].active_tab as int;
            &&& after.len() == s.len()
            &&& forall|i: int| 0 <= i < s.len() && i != active ==> #[trigger] after[i] == s[i]
            &&& after[active] == (SessionView { tabs: after[active].tabs, ..s[active] })
            &&& after[active].tabs.len() == s[active].tabs.len()
            &&& forall|j: int|
                0 <= j < s[active].tabs.len() && j != at ==> #[trigger] after[active].tabs[j]
                    == s[active].tabs[j]
            &&& after[active].tabs[at] == (TabView { focused: p, ..s[active].tabs[at] })
        }),
        crate::select::focus_moved(s, active, None) == s,
{
}

/// On the row of a tab bar on top, a drag or a release of a gesture that is
/// under way reaches the topmost row of the pane area; without a gesture the
/// row belongs to no pane.
pub proof fn law_bar_row_events(
    x: u16,
    y: u16,
    raw: Seq<u8>,
    left: bool,
    select: SelectState,
    s: Seq<SessionView>,
    active: int,
    size: (u16, u16),
    enabled: bool,
    infos: Seq<PaneInfo>,
)
    requires
        y <= 1,
    ensures
        ({
            let idle = |r: crate::select::Selected|
                r.select == select && r.focus is None && r.fx.len() == 0 && r.step is Idle;
            let press = moused(
                MouseView::Press { left, x, y, raw },
                select,
                s,
                active,
                size,
                1,
                enabled,
                infos,
            );
            let drag = moused(
                MouseView::Drag { x, y, raw },
                select,
                s,
                active,
                size,
                1,
                enabled,
                infos,
            );
            let release = moused(
                MouseView::Release { x, y, raw },
                select,
                s,
                active,
                size,
                1,
                enabled,
                infos,
            );
            &&& idle(press)
            &&& select.gesture is None ==> idle(drag) && idle(release)
            &&& select.gesture is Some ==> drag == selected(
                MouseView::Drag { x, y: 1, raw },
                select,
                s,
                active,
                size,
                enabled,
                infos,
            )
            &&& select.gesture is Some ==> release == selected(
                MouseView::Release { x, y: 1, raw },
                select,
                s,
                active,
                size,
                enabled,
                infos,
            )
        }),
{
}

/// With the tab bar below, or none, events reach the pane area as they are.
pub proof fn law_no_bar_above(
    event: MouseView,
    select: SelectState,
    s: Seq<SessionView>,
    active: int,
    size: (u16, u16),
    enabled: bool,
    infos: Seq<PaneInfo>,
)
    requires
        event is Press || event is Drag || event is Release,
    ensures
        moused(event, select, s, active, size, 0, enabled, infos) == selected(
            event,
            select,
            s,
            active,
            size,
            enabled,
            infos,
        ),
{
}

/// Below the rows above the panes, rows count from the first pane row on; a
/// gesture that is held reaches no further up than that row; the wheel and the
/// page keys point nowhere and are not touched.
pub proof fn law_rows_count_from_panes(event: MouseView, above: u16, held: bool)
    ensures
        ({
            let r = crate::select::on_panes(event, above, held);
            match event {
                MouseView::Press { left, x, y, raw } => if 0 < y && above < y {
                    r == Some(MouseView::Press { left, x, y: (y - above) as u16, raw })
                } else {
                    above > 0 ==> r is None
                },
                MouseView::Drag { x, y, raw } => if 0 < y && above < y {
                    r == Some(MouseView::Drag { x, y: (y - above) as u16, raw })
                } else {
                    above > 0 ==> r == if held {
                        Some(MouseView::Drag { x, y: 1, raw })
                    } else {
                        None
                    }
                },
                MouseView::Release { x, y, raw } => if 0 < y && above < y {
                    r == Some(MouseView::Release { x, y: (y - above) as u16, raw })
                } else {
                    above > 0 ==> r == if held {
                        Some(MouseView::Release { x, y: 1, raw })
                    } else {
                        None
                    }
                },
                _ => r == Some(event),
            }
        }),
{
}

} // verus!
