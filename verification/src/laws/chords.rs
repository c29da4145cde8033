//! What the control chords do to the viewed session and to the view.

use crate::actions::{acted_on, law_tabs_form_a_strip};
use crate::config::{ActionView, BindingView, InputAction, Overlay};
use crate::effect::EffectView;
use crate::input::{
    acted, handled, overlaid, ran, Handled, ModeView,
};
use crate::keys::{chord_at, law_control_chord_swallowed, law_command_chord_types, scanned};
use crate::laws::geometry::{
    law_edge_focus_is_outermost, law_focus_goes_where_pointed, law_focus_next_is_next,
    law_split_halves_the_pane, law_split_starts_half_size, lies, nearest_toward, outermost,
};
use crate::layout::{whole, NavDir, Rect, SplitDir};
use crate::model::{SessionView, TabView};
use crate::select::SelectState;
use crate::sessions::{lemma_named_from, named_from};
use crate::world::World;
use vstd::prelude::*;
use vstd::utf8::encode_utf8;

verus! {

/// Two sessions agree but for their tabs and the open one, and in every tab
/// but `ti`.
pub open spec fn same_but_tab(a: SessionView, b: SessionView, ti: int) -> bool {
    &&& a.id == b.id && a.name == b.name && a.agent == b.agent && a.last_active == b.last_active
    &&& a.tabs.len() == b.tabs.len()
    &&& forall|j: int| 0 <= j < a.tabs.len() && j != ti ==> #[trigger] a.tabs[j] == b.tabs[j]
}

/// The first requests of `fx` size the panes `rs`, in their order.
pub open spec fn sizes_first(fx: Seq<EffectView>, rs: Seq<(u64, Rect)>, required: bool) -> bool {
    &&& fx.len() >= rs.len()
    &&& forall|i: int|
        0 <= i < rs.len() ==> #[trigger] fx[i] == (EffectView::Resize {
            pane: rs[i].0,
            w: rs[i].1.w,
            h: rs[i].1.h,
            required,
        })
}

/// The split chords: one stacks the focused pane and the new one, the other
/// sets them side by side, half each, wherever the pane stands; the new pane
/// is focused and its shell starts at the size of its half.
pub proof fn law_split_chords(s: SessionView, upright: bool, size: (u16, u16), new: u64, q: Rect)
    requires
        s.live(),
        !s.tab().layout.has_pane(new),
        s.tab().layout.rect_seq(whole(size)).contains((s.tab().focused, q)),
    ensures
        ({
            let action = if upright {
                InputAction::SplitV
            } else {
                InputAction::SplitH
            };
            let r = acted_on(s, action, size, new);
            let old = s.tab();
            let t = r.session.tab();
            let rs = t.layout.rect_seq(whole(size));
            let long = if upright {
                q.w
            } else {
                q.h
            };
            let first = if long == 0 {
                0
            } else {
                (long - 1) / 2
            };
            let second = if long == 0 {
                0
            } else {
                long - 1 - first
            };
            let n = old.layout.rect_seq(whole(size)).len() as int;
            &&& r.added
            &&& r.session.active_tab == s.active_tab
            &&& same_but_tab(s, r.session, s.active_tab as int)
            &&& t.focused == new && !t.zoomed && t.name == old.name
            &&& upright ==> rs.contains((old.focused, Rect { w: first as u16, ..q }))
                && rs.contains(
                (new, Rect { x: (q.x + q.w - second) as u16, w: second as u16, ..q }),
            )
            &&& !upright ==> rs.contains((old.focused, Rect { h: first as u16, ..q }))
                && rs.contains(
                (new, Rect { y: (q.y + q.h - second) as u16, h: second as u16, ..q }),
            )
            &&& sizes_first(r.fx, old.layout.rect_seq(whole(size)), true)
            &&& r.fx[n] == (EffectView::Spawn {
                pane: new,
                w: if upright {
                    second as u16
                } else {
                    q.w
                },
                h: if upright {
                    q.h
                } else {
                    second as u16
                },
            })
            &&& sizes_first(r.fx.skip(n + 1), rs, true)
            &&& r.fx.len() == n + 1 + rs.len()
        }),
{
    let plain = s.tab().with_zoom(false);
    let dir = if upright {
        SplitDir::Vertical
    } else {
        SplitDir::Horizontal
    };
    assert(s.tabs[s.active_tab as int].live());
    law_split_halves_the_pane(plain.layout, plain.focused, dir, new, whole(size), q);
    law_split_starts_half_size(plain, dir, size, new, q);
}

/// Where a pane lies in the direction of a focus chord, the nearest such pane
/// of the open tab gets the focus.
pub proof fn law_focus_chord(
    s: SessionView,
    dir: NavDir,
    size: (u16, u16),
    new: u64,
    k: int,
    i: int,
)
    requires
        s.live(),
        0 <= k < s.tab().layout.rect_seq(whole(size)).len(),
        s.tab().layout.rect_seq(whole(size))[k].0 == s.tab().focused,
        0 <= i < s.tab().layout.rect_seq(whole(size)).len(),
        lies(
            dir,
            s.tab().layout.rect_seq(whole(size))[k].1,
            s.tab().layout.rect_seq(whole(size))[i].1,
        ),
    ensures
        ({
            let r = acted_on(s, InputAction::FocusDir(dir), size, new);
            let rs = s.tab().layout.rect_seq(whole(size));
            let t = r.session.tab();
            &&& !r.added
            &&& r.session.active_tab == s.active_tab
            &&& same_but_tab(s, r.session, s.active_tab as int)
            &&& t == (TabView { focused: t.focused, zoomed: false, ..s.tab() })
            &&& exists|j: int| #[trigger] nearest_toward(rs, dir, rs[k].1, j) && rs[j].0 == t.focused
            &&& sizes_first(r.fx, rs, true) && r.fx.len() == rs.len()
        }),
{
    let plain = s.tab().with_zoom(false);
    assert(s.tabs[s.active_tab as int].live());
    law_focus_goes_where_pointed(plain, dir, size, k);
}

/// Where no pane lies in the direction of a focus chord: right goes on to the
/// next tab and its leftmost pane, left back to the tab before and its
/// rightmost pane, around the ends of the strip; up and down go nowhere.
pub proof fn law_focus_chord_crosses(
    s: SessionView,
    dir: NavDir,
    size: (u16, u16),
    new: u64,
    k: int,
)
    requires
        s.live(),
        0 <= k < s.tab().layout.rect_seq(whole(size)).len(),
        s.tab().layout.rect_seq(whole(size))[k].0 == s.tab().focused,
        forall|i: int|
            0 <= i < s.tab().layout.rect_seq(whole(size)).len() ==> !lies(
                dir,
                s.tab().layout.rect_seq(whole(size))[k].1,
                (#[trigger] s.tab().layout.rect_seq(whole(size))[i]).1,
            ),
    ensures
        ({
            let r = acted_on(s, InputAction::FocusDir(dir), size, new);
            let n = s.tabs.len();
            let at = s.active_tab as int;
            let to = r.session.active_tab as int;
            let rs = s.tabs[to].layout.rect_seq(whole(size));
            let t = r.session.tabs[to];
            &&& !r.added
            &&& dir is Right ==> to == if at + 1 < n {
                at + 1
            } else {
                0
            }
            &&& dir is Left ==> to == if at > 0 {
                at - 1
            } else {
                n - 1
            }
            &&& dir is Up || dir is Down ==> to == at && t.focused == s.tab().focused
            &&& dir is Right ==> exists|j: int| #[trigger]
                outermost(rs, NavDir::Left, j) && rs[j].0 == t.focused
            &&& dir is Left ==> exists|j: int| #[trigger]
                outermost(rs, NavDir::Right, j) && rs[j].0 == t.focused
            &&& r.session.tabs.len() == n
            &&& t.layout == s.tabs[to].layout && t.name == s.tabs[to].name
            &&& t.zoomed == (to != at && s.tabs[to].zoomed)
            &&& to != at ==> r.session.tabs[at] == (TabView { zoomed: false, ..s.tab() })
            &&& forall|j: int|
                0 <= j < n && j != at && j != to ==> #[trigger] r.session.tabs[j] == s.tabs[j]
            &&& r.session.id == s.id && r.session.name == s.name && r.session.agent == s.agent
            &&& r.session.last_active == s.last_active
            &&& sizes_first(r.fx, s.tab().layout.rect_seq(whole(size)), true)
            &&& r.fx.len() == s.tab().layout.rect_seq(whole(size)).len()
        }),
{
    let plain = s.tab().with_zoom(false);
    let z = s.with_tab(plain);
    assert(s.tabs[s.active_tab as int].live());
    law_focus_goes_where_pointed(plain, dir, size, k);
    law_tabs_form_a_strip(s.active_tab, s.tabs.len());
    let to = acted_on(s, InputAction::FocusDir(dir), size, new).session.active_tab as int;
    assert(s.tabs[to].live());
    assert(z.tabs[to].live());
    law_edge_focus_is_outermost(z.tabs[to], NavDir::Left, size);
    law_edge_focus_is_outermost(z.tabs[to], NavDir::Right, size);
    assert(z.tabs[to].layout == s.tabs[to].layout);
}

/// The chord that cycles the focus goes to the next pane of the open tab in
/// layout order, around the end, and leaves fullscreen.
pub proof fn law_cycle_chord(s: SessionView, size: (u16, u16), new: u64, i: int)
    requires
        s.live(),
        0 <= i < s.tab().layout.pane_seq().len(),
        s.tab().layout.pane_seq()[i] == s.tab().focused,
    ensures
        ({
            let r = acted_on(s, InputAction::FocusNext, size, new);
            let ps = s.tab().layout.pane_seq();
            let rs = s.tab().layout.rect_seq(whole(size));
            &&& !r.added
            &&& r.session.active_tab == s.active_tab
            &&& same_but_tab(s, r.session, s.active_tab as int)
            &&& r.session.tab() == (TabView {
                focused: if i + 1 < ps.len() {
                    ps[i + 1]
                } else {
                    ps[0]
                },
                zoomed: false,
                ..s.tab()
            })
            &&& sizes_first(r.fx, rs, false) && r.fx.len() == rs.len()
        }),
{
    assert(s.tabs[s.active_tab as int].live());
    law_focus_next_is_next(s.tab().with_zoom(false), i);
}

/// The fullscreen chord gives the focused pane the whole area, and the next
/// time gives every pane its part back.
pub proof fn law_fullscreen_chord(s: SessionView, size: (u16, u16), new: u64)
    requires
        s.live(),
    ensures
        ({
            let r = acted_on(s, InputAction::Fullscreen, size, new);
            let rs = s.tab().layout.rect_seq(whole(size));
            &&& !r.added
            &&& r.session.active_tab == s.active_tab
            &&& same_but_tab(s, r.session, s.active_tab as int)
            &&& r.session.tab() == (TabView { zoomed: !s.tab().zoomed, ..s.tab() })
            &&& !s.tab().zoomed ==> r.fx == seq![
                EffectView::Resize {
                    pane: s.tab().focused,
                    w: size.0,
                    h: size.1,
                    required: true,
                },
            ]
            &&& s.tab().zoomed ==> sizes_first(r.fx, rs, true) && r.fx.len() == rs.len()
        }),
{
    let r = acted_on(s, InputAction::Fullscreen, size, new);
    if !s.tab().zoomed {
        assert(r.fx =~= seq![
            EffectView::Resize {
                pane: s.tab().focused,
                w: size.0,
                h: size.1,
                required: true,
            },
        ]);
    }
}

/// The chord of a pinned session views the session of that name when one
/// runs, and asks for nothing; otherwise it makes one at the size of the view,
/// asks for its shell, and views it. A chord without a pin does nothing.
pub proof fn law_pin_chord(w: World, pi: usize, size: (u16, u16), pins: Seq<Seq<char>>)
    requires
        w.fresh.room(1),
    ensures
        ({
            let after = acted(InputAction::OpenSession(pi), w, size, pins);
            if pi >= pins.len() {
                after == w
            } else if exists|i: int|
                0 <= i < w.sessions.len() && (#[trigger] w.sessions[i]).name == pins[pi as int] {
                &&& after.sessions == w.sessions && after.fresh == w.fresh && after.fx == w.fx
                &&& 0 <= after.active < w.sessions.len()
                &&& w.sessions[after.active].name == pins[pi as int]
                &&& forall|i: int|
                    0 <= i < after.active ==> (#[trigger] w.sessions[i]).name != pins[pi as int]
            } else {
                &&& after.sessions.len() == w.sessions.len() + 1
                &&& 0 <= after.active < after.sessions.len()
                &&& after.sessions.remove(after.active) == w.sessions
                &&& after.session() == SessionView::fresh(pins[pi as int], w.fresh)
                &&& after.fx == w.fx.push(
                    EffectView::Spawn { pane: w.fresh.pane, w: size.0, h: size.1 },
                )
                &&& after.fresh.session == w.fresh.session + 1
                &&& after.fresh.pane == w.fresh.pane + 1
                &&& after.fresh.now == w.fresh.now
            }
        }),
{
    if pi < pins.len() {
        lemma_named_from(w.sessions, pins[pi as int], 0);
        if named_from(w.sessions, pins[pi as int], 0) is None {
            crate::sessions::lemma_place(pins, w.sessions, pins[pi as int]);
            let after = acted(InputAction::OpenSession(pi), w, size, pins);
            assert(after.sessions.remove(after.active) =~= w.sessions);
        }
    }
}

/// A control chord acts once what was typed before it has reached the shell;
/// what follows it is handled as it would be if it came on its own after it.
pub proof fn law_chord_then_rest(
    keys: Seq<u8>,
    i: int,
    k: int,
    action: InputAction,
    w: World,
    size: (u16, u16),
    pins: Seq<Seq<char>>,
    chords: Seq<BindingView>,
)
    requires
        0 <= i < keys.len(),
        forall|j: int| 0 <= j < i ==> #[trigger] chord_at(chords, keys, j, 0) is None,
        chord_at(chords, keys, i, 0) == Some(k),
        chords[k].action == ActionView::Control(action),
        0 < chords[k].seq.len() <= keys.len() - i,
    ensures
        ({
            let typed = World {
                fx: if i > 0 {
                    w.fx.push(
                        EffectView::Write { pane: w.tab().focused, bytes: keys.take(i) },
                    )
                } else {
                    w.fx
                },
                ..w
            };
            let rest = keys.skip(i + chords[k].seq.len());
            let r = ran(keys, w, size, pins, chords);
            match action {
                InputAction::Detach => r.world == typed && r.mode is Running && r.detach,
                InputAction::Manager(overlay) => {
                    // The manager opens on what is viewed.
                    r == overlaid(
                        rest,
                        overlay,
                        match overlay {
                            Overlay::Sessions { .. } => w.active as usize,
                            Overlay::Tabs => w.session().active_tab,
                        },
                        typed,
                        size,
                        pins,
                        chords,
                    )
                },
                _ => if rest.len() == 0 {
                    r == (Handled {
                        world: acted(action, typed, size, pins),
                        mode: ModeView::Running,
                        detach: false,
                    })
                } else {
                    r == ran(rest, acted(action, typed, size, pins), size, pins, chords)
                },
            }
        }),
{
    law_control_chord_swallowed(chords, keys, i, k, action);
    let scan = scanned(chords, keys, 0);
    assert(scan.typed == keys.take(i));
    let typed = World {
        fx: if i > 0 {
            w.fx.push(EffectView::Write { pane: w.tab().focused, bytes: keys.take(i) })
        } else {
            w.fx
        },
        ..w
    };
    assert(w.asking(crate::keys::typing(w.tab().focused, scan.typed)).fx =~= typed.fx);
    assert(w.asking(crate::keys::typing(w.tab().focused, scan.typed)) == typed);
}

/// A chord of a command types the program and Enter into the focused pane, in
/// its place among what else is typed.
pub proof fn law_command_typed(
    keys: Seq<u8>,
    i: int,
    k: int,
    cmd: Seq<char>,
    w: World,
    size: (u16, u16),
    pins: Seq<Seq<char>>,
    chords: Seq<BindingView>,
)
    requires
        crate::config::chords_ok(chords),
        0 <= i < keys.len(),
        forall|j: int| 0 <= j < i ==> #[trigger] chord_at(chords, keys, j, 0) is None,
        chord_at(chords, keys, i, 0) == Some(k),
        chords[k].action == ActionView::Run(cmd),
        i + chords[k].seq.len() == keys.len(),
    ensures
        ran(keys, w, size, pins, chords) == (Handled {
            world: World {
                fx: w.fx.push(
                    EffectView::Write {
                        pane: w.tab().focused,
                        bytes: keys.take(i) + encode_utf8(cmd) + seq![0x0du8],
                    },
                ),
                ..w
            },
            mode: ModeView::Running,
            detach: false,
        }),
{
    law_command_chord_types(chords, keys, i, k, cmd);
    let bytes = keys.take(i) + encode_utf8(cmd) + seq![0x0du8];
    let scan = scanned(chords, keys, 0);
    assert(scan.typed =~= bytes);
    let r = ran(keys, w, size, pins, chords);
    assert(r.world.fx =~= w.fx.push(EffectView::Write { pane: w.tab().focused, bytes }));
}

/// Typing in the viewed tab first takes the visible selection away and
/// scrolls the focused pane to its live end; no input does neither. Any other
/// view of a client leaves panes and selection alone.
pub proof fn law_typing_snaps_back(
    keys: Seq<u8>,
    select: SelectState,
    w: World,
    size: (u16, u16),
    pins: Seq<Seq<char>>,
    chords: Seq<BindingView>,
)
    requires
        w.ok(),
        w.viewing(),
    ensures
        ({
            let snap = (match select.selected_pane {
                Some(p) => if exists|a: int, b: int| #[trigger] crate::world::holds(w.sessions, a, b, p) {
                    seq![EffectView::ClearSelection { pane: p }]
                } else {
                    Seq::empty()
                },
                None => Seq::empty(),
            }).push(EffectView::ScrollBottom { pane: w.tab().focused });
            let h = handled(keys, ModeView::Running, select, w, size, pins, chords);
            &&& keys.len() > 0 ==> h == ran(
                keys,
                World { fx: w.fx + snap, ..w },
                size,
                pins,
                chords,
            )
            &&& keys.len() == 0 ==> h.world == w && h.mode is Running && !h.detach
            &&& crate::input::select_after(keys, ModeView::Running, select) == if keys.len() > 0 {
                SelectState { gesture: None, selected_pane: None, ..select }
            } else {
                select
            }
        }),
{
    assert(w.sessions[w.active].live());
    assert(w.tab().live());
    if let Some(p) = select.selected_pane {
        if crate::select::in_sessions(w.sessions, p) {
            let a = choose|a: int|
                0 <= a < w.sessions.len() && crate::select::in_tabs(
                    (#[trigger] w.sessions[a]).tabs,
                    p,
                );
            let b = choose|b: int|
                0 <= b < w.sessions[a].tabs.len() && (
                #[trigger] w.sessions[a].tabs[b]).layout.has_pane(p);
            assert(crate::world::holds(w.sessions, a, b, p));
        }
        if exists|a: int, b: int| #[trigger] crate::world::holds(w.sessions, a, b, p) {
            let (a, b) = choose|a: int, b: int| #[trigger]
                crate::world::holds(w.sessions, a, b, p);
            assert(w.sessions[a].tabs[b].layout.has_pane(p));
            assert(crate::select::in_tabs(w.sessions[a].tabs, p));
        }
    }
    let snap = (match select.selected_pane {
        Some(p) => if exists|a: int, b: int| #[trigger] crate::world::holds(w.sessions, a, b, p) {
            seq![EffectView::ClearSelection { pane: p }]
        } else {
            Seq::empty()
        },
        None => Seq::empty(),
    }).push(EffectView::ScrollBottom { pane: w.tab().focused });
    assert(crate::input::snapped(select, w).fx =~= w.fx + snap);
    assert(crate::input::snapped(select, w) == (World { fx: w.fx + snap, ..w }));
    if keys.len() == 0 {
        assert(ran(keys, w, size, pins, chords).world.fx =~= w.fx);
    }
}

/// A chord that acts on the viewed session changes that session as it says,
/// asks for what it says, and uses up a pane's number when it adds a pane; the
/// other sessions and what is viewed stay as they are.
pub proof fn law_chord_acts_on_viewed(
    action: InputAction,
    w: World,
    size: (u16, u16),
    pins: Seq<Seq<char>>,
)
    requires
        w.viewing(),
        w.fresh.room(1),
        !(action is OpenSession),
    ensures
        ({
            let after = acted(action, w, size, pins);
            let r = acted_on(w.session(), action, size, w.fresh.pane);
            &&& after.active == w.active
            &&& after.sessions.len() == w.sessions.len()
            &&& after.session() == r.session
            &&& forall|i: int|
                0 <= i < w.sessions.len() && i != w.active ==> #[trigger] after.sessions[i]
                    == w.sessions[i]
            &&& after.fx == w.fx + r.fx
            &&& after.fresh.session == w.fresh.session && after.fresh.now == w.fresh.now
            &&& after.fresh.pane == w.fresh.pane + (if action is SplitH || action is SplitV {
                1int
            } else {
                0
            })
        }),
{
}

/// The chord found at a place in the input is the first of the bindings whose
/// bytes stand there.
pub proof fn law_chord_found(b: Seq<BindingView>, buf: Seq<u8>, i: int)
    requires
        0 <= i <= buf.len(),
    ensures
        match chord_at(b, buf, i, 0) {
            Some(k) => 0 <= k < b.len() && b[k].seq.is_prefix_of(buf.skip(i)) && (forall|j: int|
                0 <= j < k ==> !(#[trigger] b[j]).seq.is_prefix_of(buf.skip(i))),
            None => forall|j: int|
                0 <= j < b.len() ==> !(#[trigger] b[j]).seq.is_prefix_of(buf.skip(i)),
        },
{
    lemma_chord_found(b, buf, i, 0);
}

proof fn lemma_chord_found(b: Seq<BindingView>, buf: Seq<u8>, i: int, k: int)
    requires
        0 <= i <= buf.len(),
        0 <= k,
    ensures
        match chord_at(b, buf, i, k) {
            Some(m) => k <= m < b.len() && b[m].seq.is_prefix_of(buf.skip(i)) && (forall|j: int|
                k <= j < m ==> !(#[trigger] b[j]).seq.is_prefix_of(buf.skip(i))),
            None => forall|j: int|
                k <= j < b.len() ==> !(#[trigger] b[j]).seq.is_prefix_of(buf.skip(i)),
        },
    decreases b.len() - k,
{
    if k < b.len() {
        let p = b[k].seq;
        if crate::text::begins_at(buf, i, p) {
            assert(buf.skip(i).take(p.len() as int) =~= buf.subrange(i, i + p.len()));
            assert(p.is_prefix_of(buf.skip(i)));
        } else {
            if p.is_prefix_of(buf.skip(i)) {
                assert(buf.subrange(i, i + p.len()) =~= p);
            }
            lemma_chord_found(b, buf, i, k + 1);
        }
    }
}

/// Input goes to what the client shows: to the panes, or to the keys of the
/// overlay that is open.
pub proof fn law_input_goes_to_view(
    keys: Seq<u8>,
    mode: ModeView,
    select: SelectState,
    w: World,
    size: (u16, u16),
    pins: Seq<Seq<char>>,
    chords: Seq<BindingView>,
)
    ensures
        ({
            let h = handled(keys, mode, select, w, size, pins, chords);
            match mode {
                ModeView::Running => true,
                ModeView::Manager { overlay, selected } => h == overlaid(
                    keys,
                    overlay,
                    selected,
                    w,
                    size,
                    pins,
                    chords,
                ),
                ModeView::Naming { overlay, name, rename } => h == crate::input::prompted(
                    crate::text::lossy_chars(keys),
                    overlay,
                    name,
                    rename,
                    w,
                    size,
                    pins,
                ),
                ModeView::Search { overlay, text, selected } => h == crate::input::sought(
                    crate::text::lossy_chars(keys),
                    overlay,
                    text,
                    selected,
                    w,
                    size,
                    pins,
                ),
            }
        }),
        !(mode is Running) ==> crate::input::select_after(keys, mode, select) == select,
{
}

} // verus!
