//! Handling one chunk of a client's input: mouse events, the manager
//! overlays, the name prompt, and the chords that act on the viewed session.

use crate::actions::{
    act, acted_on, crossed, law_focus_steps, law_strip_steps, law_tabs_form_a_strip, next_on_strip,
    plain_strip, stepped,
};
use crate::config::{
    chords_ok, ActionView, BarPosition, BindingView, Config, InputAction, Overlay,
};
use crate::effect::{effects, request, Effect, EffectView};
use crate::keys::{
    chord_at, forward_input, law_control_chord_swallowed, law_selection_in_range,
    law_unbound_input_passes, manager_actions, manager_applied, manager_apply, manager_chord_at,
    manager_keys, named, naming_keys, scanned, typing, MgrAction, MgrOutcome, NamingOutcome,
};
use crate::layout::{law_panes_tile, whole, NavDir, SplitDir};
use crate::model::{
    default_session_name, default_tab_name, session_name, session_views, tab_name, Fresh, Session,
    SessionView, Tab, TabView,
};
use crate::mouse::{extract_mouse, extracted, mouse_views, MouseEvent, MouseView};
use crate::protocol::push_bytes;
use crate::render::{above, bar_row, content, lowered, placed};
use crate::select::{
    apply_scroll, apply_select, clear_selection, focus_moved, hit, info_from, law_click_focuses,
    lemma_hit, on_panes, pointed, scroll_requests, selected, selected_idle, to_panes,
    unselect_requests, PaneInfo, SelectState, SelectStep,
};
use crate::search::{
    find_rows, law_rows_found, name_views, rows_found, search_keys, searched, SearchOutcome,
};
use crate::sessions::{
    create_session, entry_views, find_id, find_named, manager_entries, manager_list, named_from,
    with_id_from, EntryView, SessionEntry,
};
use crate::text::{decode_lossy, lossy_chars, to_chars, trim, trimmed};
use crate::world::{
    holds, law_create_ok, lemma_add_tab, lemma_drop_session, lemma_drop_tab, lemma_mark,
    lemma_set_tab, world, World,
};
use vstd::prelude::*;
use vstd::slice::slice_subrange;
use vstd::utf8::{decode_utf8, valid_utf8};

verus! {

/// What a rename prompt applies to.
#[derive(Clone, Copy, PartialEq, Eq, Structural)]
pub enum RenameTarget {
    /// A session, by id (stable across list changes).
    Session(u64),
    /// A tab of the viewed session, by index.
    Tab(usize),
}

/// What a client is currently showing.
pub enum Mode {
    /// The viewed tab's panes.
    Running,
    /// A manager overlay, with the highlighted entry.
    Manager { overlay: Overlay, selected: usize },
    /// The name prompt for a session/tab being created or renamed.
    Naming {
        overlay: Overlay,
        name: String,
        /// `None` = creating something new; `Some` = renaming this.
        rename: Option<RenameTarget>,
    },
    /// A manager overlay that is searched: only the entries whose names hold
    /// the typed text are shown, with the highlighted one among them.
    Search { overlay: Overlay, text: String, selected: usize },
}

/// What a client shows, with a typed name or search as a sequence of characters.
pub enum ModeView {
    Running,
    Manager { overlay: Overlay, selected: usize },
    Naming { overlay: Overlay, name: Seq<char>, rename: Option<RenameTarget> },
    Search { overlay: Overlay, text: Seq<char>, selected: usize },
}

impl View for Mode {
    type V = ModeView;

    open spec fn view(&self) -> ModeView {
        match *self {
            Mode::Running => ModeView::Running,
            Mode::Manager { overlay, selected } => ModeView::Manager { overlay, selected },
            Mode::Naming { overlay, name, rename } => ModeView::Naming {
                overlay,
                name: name@,
                rename,
            },
            Mode::Search { overlay, text, selected } => ModeView::Search {
                overlay,
                text: text@,
                selected,
            },
        }
    }
}

/// A next mode, if there is one.
pub open spec fn next_view(m: Option<Mode>) -> Option<ModeView> {
    match m {
        Some(m) => Some(m@),
        None => None,
    }
}

impl Default for Mode {
    fn default() -> (r: Mode)
        ensures
            r@ == ModeView::Running,
    {
        Mode::Running
    }
}

/// The keys that scroll events from `i` on stand for, one for each event:
/// `up` or `down`.
pub open spec fn scroll_keys(events: Seq<MouseView>, i: int, up: Seq<u8>, down: Seq<u8>) -> Seq<u8>
    decreases events.len() - i,
{
    if i >= events.len() {
        Seq::empty()
    } else {
        let rest = scroll_keys(events, i + 1, up, down);
        match events[i] {
            MouseView::Wheel { up: upward, .. } => (if upward {
                up
            } else {
                down
            }) + rest,
            MouseView::Page { up: upward } => (if upward {
                up
            } else {
                down
            }) + rest,
            _ => rest,
        }
    }
}

/// The keys and the mouse events in a chunk of input. In a manager, wheel
/// and page keys move the selection; in the name prompt they do nothing.
pub open spec fn input_parts(buf: Seq<u8>, mode: ModeView) -> (Seq<u8>, Seq<MouseView>) {
    let (clean, events) = extracted(buf, 0);
    match mode {
        ModeView::Running => (clean, events),
        ModeView::Manager { .. } => (
            scroll_keys(events, 0, seq![0x6bu8], seq![0x6au8]) + clean,
            Seq::empty(),
        ),
        ModeView::Naming { .. } => (clean, Seq::empty()),
        // While searching, letters are typed: the arrow keys move.
        ModeView::Search { .. } => (
            scroll_keys(
                events,
                0,
                seq![0x1bu8, 0x5bu8, 0x41u8],
                seq![0x1bu8, 0x5bu8, 0x42u8],
            ) + clean,
            Seq::empty(),
        ),
    }
}

/// The keys that scroll events stand for, then what else was typed.
fn scrolled(events: &Vec<MouseEvent>, up: &[u8], down: &[u8], clean: &[u8]) -> (keys: Vec<u8>)
    ensures
        keys@ == scroll_keys(mouse_views(events@), 0, up@, down@) + clean@,
{
    let ghost v = mouse_views(events@);
    let mut keys: Vec<u8> = Vec::new();
    let mut i: usize = 0;
    assert(keys@ + scroll_keys(v, 0, up@, down@) =~= scroll_keys(v, 0, up@, down@));
    while i < events.len()
        invariant
            i <= events@.len(),
            v == mouse_views(events@),
            keys@ + scroll_keys(v, i as int, up@, down@) == scroll_keys(v, 0, up@, down@),
        decreases events@.len() - i,
    {
        let ghost before = keys@;
        assert(v[i as int] == events@[i as int]@);
        let moved: Option<bool> = match &events[i] {
            MouseEvent::Wheel { up, .. } => Some(*up),
            MouseEvent::Page { up } => Some(*up),
            _ => None,
        };
        if let Some(upward) = moved {
            if upward {
                push_bytes(&mut keys, up);
            } else {
                push_bytes(&mut keys, down);
            }
        }
        assert(keys@ + scroll_keys(v, i + 1, up@, down@) =~= before + scroll_keys(
            v,
            i as int,
            up@,
            down@,
        ));
        i = i + 1;
    }
    assert(keys@ =~= scroll_keys(v, 0, up@, down@));
    push_bytes(&mut keys, clean);
    keys
}

/// Split a chunk of input into keys and mouse events.
pub fn split_input(buf: &[u8], mode: &Mode) -> (r: (Vec<u8>, Vec<MouseEvent>))
    ensures
        r.0@ == input_parts(buf@, mode@).0,
        mouse_views(r.1@) == input_parts(buf@, mode@).1,
{
    let (clean, events): (Vec<u8>, Vec<MouseEvent>) = extract_mouse(buf);
    let none: Vec<MouseEvent> = Vec::new();
    assert(mouse_views(none@) =~= Seq::<MouseView>::empty());
    match mode {
        Mode::Running => (clean, events),
        Mode::Manager { .. } => {
            let k: [u8; 1] = [0x6b];
            let j: [u8; 1] = [0x6a];
            assert(k@ =~= seq![0x6bu8]);
            assert(j@ =~= seq![0x6au8]);
            (scrolled(&events, &k, &j, clean.as_slice()), none)
        },
        Mode::Naming { .. } => (clean, none),
        Mode::Search { .. } => {
            let up: [u8; 3] = [0x1b, 0x5b, 0x41];
            let down: [u8; 3] = [0x1b, 0x5b, 0x42];
            assert(up@ =~= seq![0x1bu8, 0x5bu8, 0x41u8]);
            assert(down@ =~= seq![0x1bu8, 0x5bu8, 0x42u8]);
            (scrolled(&events, &up, &down, clean.as_slice()), none)
        },
    }
}

/// What a mouse event does in the viewed tab: scroll events go to the
/// focused pane, the others to the pane that they point at. `size` is the
/// pane area, which starts below `above` rows of the screen.
pub open spec fn moused(
    event: MouseView,
    select: SelectState,
    s: Seq<SessionView>,
    active: int,
    size: (u16, u16),
    above: u16,
    enabled: bool,
    infos: Seq<PaneInfo>,
) -> crate::select::Selected {
    if event is Wheel || event is Page {
        let tab = s[active].tab();
        selected_idle(
            select,
            if tab.layout.has_pane(tab.focused) {
                scroll_requests(event, info_from(infos, tab.focused, 0))
            } else {
                Seq::empty()
            },
        )
    } else {
        match on_panes(event, above, select.gesture is Some) {
            Some(e) => selected(e, select, s, active, size, enabled, infos),
            None => selected_idle(select, Seq::empty()),
        }
    }
}

/// Apply a mouse event to the viewed tab. `size` is the pane area, which
/// starts below `above` rows of the screen.
pub fn mouse_input(
    event: &MouseEvent,
    select: &mut SelectState,
    sessions: &mut Vec<Session>,
    active: usize,
    size: (u16, u16),
    above: u16,
    enabled: bool,
    infos: &Vec<PaneInfo>,
    fx: &mut Vec<Effect>,
) -> (step: SelectStep)
    requires
        active < old(sessions)@.len(),
        old(sessions)@[active as int]@.active_tab < old(sessions)@[active as int]@.tabs.len(),
    ensures
        ({
            let s = session_views(old(sessions)@);
            let r = moused(event@, *old(select), s, active as int, size, above, enabled, infos@);
            &&& *final(select) == r.select
            &&& session_views(final(sessions)@) == focus_moved(s, active as int, r.focus)
            &&& effects(final(fx)@) == effects(old(fx)@) + r.fx
            &&& step == r.step
        }),
{
    let scroll: bool = match event {
        MouseEvent::Wheel { .. } => true,
        MouseEvent::Page { .. } => true,
        _ => false,
    };
    if scroll {
        apply_scroll(event, sessions, active, infos, fx);
        return SelectStep::Idle;
    }
    match to_panes(event, above, select.gesture.is_some()) {
        Some(e) => apply_select(&e, select, sessions, active, size, enabled, infos, fx),
        // The tab bar.
        None => {
            assert(effects(fx@) + Seq::<EffectView>::empty() =~= effects(fx@));
            SelectStep::Idle
        },
    }
}

/// A click on a pane where it is shown gives it the focus, whichever side
/// the tab bar is on, unless the pane tracks the mouse itself.
pub proof fn law_shown_click_focuses(
    event: MouseView,
    select: SelectState,
    s: Seq<SessionView>,
    active: int,
    size: (u16, u16),
    bar: BarPosition,
    enabled: bool,
    infos: Seq<PaneInfo>,
    k: int,
)
    requires
        event is Press,
        s[active].tab().live(),
        0 <= k < placed(s[active].tab(), size, bar).len(),
        placed(s[active].tab(), size, bar)[k].1.has(
            (pointed(event)->0).0 as int,
            (pointed(event)->0).1 as int,
        ),
        info_from(infos, placed(s[active].tab(), size, bar)[k].0, 0).tracking != Some(true),
    ensures
        moused(
            event,
            select,
            s,
            active,
            content(size),
            above(bar, size),
            enabled,
            infos,
        ).focus == Some(placed(s[active].tab(), size, bar)[k].0),
{
    let tab = s[active].tab();
    law_panes_tile(tab.layout, whole(content(size)));
    let n = above(bar, size);
    let r = tab.visible(content(size))[k].1;
    assert(r.within(whole(content(size))));
    assert(placed(tab, size, bar)[k].1 == lowered(r, n));
    let e = on_panes(event, n, select.gesture is Some)->0;
    law_click_focuses(e, select, s, active, content(size), enabled, infos, k);
}

/// A click on the row of the tab bar does nothing, whichever side the bar
/// is on.
pub proof fn law_bar_click_idle(
    event: MouseView,
    select: SelectState,
    s: Seq<SessionView>,
    active: int,
    size: (u16, u16),
    bar: BarPosition,
    enabled: bool,
    infos: Seq<PaneInfo>,
)
    requires
        event is Press,
        size.1 >= 2,
        (pointed(event)->0).1 == bar_row(bar, size),
    ensures
        moused(
            event,
            select,
            s,
            active,
            content(size),
            above(bar, size),
            enabled,
            infos,
        ) == selected_idle(select, Seq::empty()),
{
    let tab = s[active].tab();
    if bar == BarPosition::Bottom {
        law_panes_tile(tab.layout, whole(content(size)));
        let (x, y, _) = pointed(event)->0;
        lemma_hit(tab.visible(content(size)), x, y, 0);
        if let Some(k) = hit(tab.visible(content(size)), x, y, 0) {
            assert(tab.visible(content(size))[k].1.within(whole(content(size))));
        }
    }
}

/// Whether an overlay shows the agent sessions.
pub open spec fn shows_agents(overlay: Overlay) -> bool {
    overlay == (Overlay::Sessions { agents: true })
}

/// How many entries an overlay lists.
pub open spec fn entry_count(overlay: Overlay, w: World, pins: Seq<Seq<char>>) -> nat {
    match overlay {
        Overlay::Sessions { agents } => manager_list(pins, w.sessions, agents).len(),
        Overlay::Tabs => w.session().tabs.len(),
    }
}

/// The running session that entry `i` of a session manager stands for.
pub open spec fn entry_session(
    overlay: Overlay,
    s: Seq<SessionView>,
    pins: Seq<Seq<char>>,
    i: usize,
) -> Option<int> {
    let entries = manager_list(pins, s, shows_agents(overlay));
    if i < entries.len() {
        entries[i as int].running
    } else {
        None
    }
}

/// At most `max`, at least 0.
pub open spec fn at_most(n: usize, max: int) -> usize {
    if n <= max {
        n
    } else if max < 0 {
        0
    } else {
        max as usize
    }
}

/// What manager keys lead to: the world, the selection, and the mode to
/// switch to if any.
pub struct Managed {
    pub world: World,
    pub selected: usize,
    pub next: Option<ModeView>,
}

/// Switching to entry `i`: a pinned session that isn't running is started.
pub open spec fn switched(
    overlay: Overlay,
    i: usize,
    w: World,
    size: (u16, u16),
    pins: Seq<Seq<char>>,
) -> World {
    match overlay {
        Overlay::Sessions { agents } => {
            let entries = manager_list(pins, w.sessions, agents);
            if i < entries.len() {
                match entries[i as int].running {
                    Some(si) => World { active: si, ..w },
                    None => w.with_created(pins, size, entries[i as int].name),
                }
            } else {
                w
            }
        },
        Overlay::Tabs => w.with_viewed(SessionView { active_tab: i, ..w.session() }),
    }
}

/// The rename prompt for entry `i`, if there is something to rename.
pub open spec fn rename_prompt(
    overlay: Overlay,
    i: usize,
    w: World,
    pins: Seq<Seq<char>>,
) -> Option<ModeView> {
    match overlay {
        Overlay::Sessions { .. } => match entry_session(overlay, w.sessions, pins, i) {
            Some(si) => Some(
                ModeView::Naming {
                    overlay,
                    name: w.sessions[si].name,
                    rename: Some(RenameTarget::Session(w.sessions[si].id)),
                },
            ),
            None => None,
        },
        Overlay::Tabs => if i < w.session().tabs.len() {
            Some(
                ModeView::Naming {
                    overlay,
                    name: w.session().tabs[i as int].name,
                    rename: Some(RenameTarget::Tab(i)),
                },
            )
        } else {
            None
        },
    }
}

/// The world without session `si`. The viewed session stays viewed; when it
/// is the one that goes, the first one is.
pub open spec fn without_session(w: World, si: int) -> World {
    let rest = w.sessions.remove(si);
    let viewed = w.session().id;
    World {
        sessions: rest,
        active: if !(0 <= w.active < w.sessions.len()) {
            w.active
        } else if viewed == w.sessions[si].id {
            0
        } else {
            match with_id_from(rest, viewed, 0) {
                Some(k) => k,
                None => 0,
            }
        },
        ..w
    }
}

/// A session without tab `i`; the open tab stays open where it can.
pub open spec fn without_tab(s: SessionView, i: usize) -> SessionView {
    let at = if i < s.active_tab {
        (s.active_tab - 1) as usize
    } else {
        s.active_tab
    };
    SessionView {
        tabs: s.tabs.remove(i as int),
        active_tab: at_most(at, s.tabs.len() - 2),
        ..s
    }
}

/// Killing entry `i` with the selection at `selected`.
pub open spec fn killed(
    overlay: Overlay,
    i: usize,
    selected: usize,
    w: World,
    pins: Seq<Seq<char>>,
) -> Managed {
    match overlay {
        Overlay::Sessions { .. } => {
            let after = match entry_session(overlay, w.sessions, pins, i) {
                Some(si) => without_session(w, si),
                None => w,
            };
            Managed {
                world: after,
                selected: at_most(selected, entry_count(overlay, after, pins) - 1),
                next: None,
            }
        },
        Overlay::Tabs => {
            let n = w.session().tabs.len();
            if n > 1 && i < n {
                Managed {
                    world: w.with_viewed(without_tab(w.session(), i)),
                    selected: at_most(selected, n - 2),
                    next: None,
                }
            } else if n == 1 && i == 0 {
                Managed {
                    world: World { sessions: w.sessions.remove(w.active), active: 0, ..w },
                    selected,
                    next: Some(ModeView::Running),
                }
            } else {
                Managed { world: w, selected, next: None }
            }
        },
    }
}

/// What manager keys lead to in an overlay.
pub open spec fn managed(
    actions: Seq<MgrAction>,
    overlay: Overlay,
    selected: usize,
    w: World,
    size: (u16, u16),
    pins: Seq<Seq<char>>,
) -> Managed {
    let n = entry_count(overlay, w, pins);
    let count = if n == 0 {
        1
    } else {
        n as usize
    };
    let (at, outcome) = manager_applied(actions, 0, selected, count);
    match outcome {
        MgrOutcome::Stay => Managed { world: w, selected: at, next: None },
        MgrOutcome::Close => Managed { world: w, selected: at, next: Some(ModeView::Running) },
        MgrOutcome::ToggleAgents => match overlay {
            Overlay::Sessions { agents } => Managed {
                world: w,
                selected: 0,
                next: Some(
                    ModeView::Manager {
                        overlay: Overlay::Sessions { agents: !agents },
                        selected: 0,
                    },
                ),
            },
            Overlay::Tabs => Managed { world: w, selected: at, next: None },
        },
        MgrOutcome::Switch(i) => Managed {
            world: switched(overlay, i, w, size, pins),
            selected: at,
            next: Some(ModeView::Running),
        },
        MgrOutcome::StartNaming => Managed {
            world: w,
            selected: at,
            next: Some(ModeView::Naming { overlay, name: Seq::empty(), rename: None }),
        },
        MgrOutcome::Rename(i) => Managed {
            world: w,
            selected: at,
            next: rename_prompt(overlay, i, w, pins),
        },
        MgrOutcome::Kill(i) => killed(overlay, i, at, w, pins),
        MgrOutcome::StartSearch(i) => Managed {
            world: w,
            selected: at,
            next: Some(ModeView::Search { overlay, text: Seq::empty(), selected: i }),
        },
    }
}

fn cap(n: usize, max: usize) -> (r: usize)
    ensures
        r == at_most(n, max as int),
{
    if n <= max {
        n
    } else {
        max
    }
}

/// Kill the session that an entry stands for; its shells go with it.
fn kill_session(sessions: &mut Vec<Session>, active: &mut usize, si: usize)
    requires
        si < old(sessions)@.len(),
    ensures
        forall|fresh: Fresh, fx: Seq<Effect>|
            #![trigger world(old(sessions)@, *old(active), fresh, fx)]
            world(final(sessions)@, *final(active), fresh, fx) == without_session(
                world(old(sessions)@, *old(active), fresh, fx),
                si as int,
            ),
{
    let ghost v = session_views(sessions@);
    let seen: bool = *active < sessions.len();
    let viewed: u64 = if seen {
        sessions[*active].id
    } else {
        0
    };
    let gone: Session = sessions.remove(si);
    assert(session_views(sessions@) =~= v.remove(si as int));
    if seen {
        if viewed == gone.id {
            *active = 0;
        } else {
            *active = match find_id(sessions, viewed) {
                Some(k) => k,
                None => 0,
            };
        }
    }
}

/// Switch to an entry of the list that an overlay shows; a pinned session
/// that isn't running is started.
fn switch_to(
    overlay: Overlay,
    i: usize,
    sessions: &mut Vec<Session>,
    active: &mut usize,
    size: (u16, u16),
    config: &Config,
    fresh: &mut Fresh,
    fx: &mut Vec<Effect>,
)
    requires
        overlay is Tabs ==> *old(active) < old(sessions)@.len(),
        old(fresh).room(1),
    ensures
        world(final(sessions)@, *final(active), *final(fresh), final(fx)@) == switched(
            overlay,
            i,
            world(old(sessions)@, *old(active), *old(fresh), old(fx)@),
            size,
            config.names(),
        ),
{
    let ghost w = world(sessions@, *active, *fresh, fx@);
    match overlay {
        Overlay::Sessions { agents } => {
            let entries: Vec<SessionEntry> = manager_entries(&config.pins, sessions, agents);
            let ghost list = manager_list(config.names(), w.sessions, agents);
            assert(list.len() == entries@.len());
            if i < entries.len() {
                assert(list[i as int] == entries@[i as int]@);
                *active = match entries[i].running {
                    Some(si) => si,
                    None => create_session(
                        sessions,
                        config,
                        size,
                        entries[i].name.clone(),
                        fresh,
                        fx,
                    ),
                };
            }
        },
        Overlay::Tabs => {
            sessions[*active].active_tab = i;
            assert(session_views(sessions@) =~= w.with_viewed(
                SessionView { active_tab: i, ..w.session() },
            ).sessions);
        },
    }
}

/// Apply manager key presses to whichever list the overlay shows.
/// Returns the mode to switch to, or `None` to stay in the manager with
/// the (possibly moved) selection. Selecting a pinned session that isn't
/// running starts it.
pub fn run_manager(
    actions: &Vec<MgrAction>,
    overlay: Overlay,
    selected: &mut usize,
    sessions: &mut Vec<Session>,
    active: &mut usize,
    size: (u16, u16),
    config: &Config,
    fresh: &mut Fresh,
    fx: &mut Vec<Effect>,
) -> (next: Option<Mode>)
    requires
        overlay is Tabs ==> *old(active) < old(sessions)@.len(),
        old(fresh).room(1),
    ensures
        ({
            let r = managed(
                actions@,
                overlay,
                *old(selected),
                world(old(sessions)@, *old(active), *old(fresh), old(fx)@),
                size,
                config.names(),
            );
            &&& world(final(sessions)@, *final(active), *final(fresh), final(fx)@) == r.world
            &&& *final(selected) == r.selected
            &&& next_view(next) == r.next
        }),
{
    let ghost w = world(sessions@, *active, *fresh, fx@);
    let ghost pins = config.names();
    let agents: bool = match overlay {
        Overlay::Sessions { agents } => agents,
        Overlay::Tabs => false,
    };
    let entries: Vec<SessionEntry> = manager_entries(&config.pins, sessions, agents);
    let ghost list = manager_list(pins, w.sessions, agents);
    assert(list.len() == entries@.len());
    let count: usize = match overlay {
        Overlay::Sessions { .. } => entries.len(),
        Overlay::Tabs => sessions[*active].tabs.len(),
    };
    assert(count == entry_count(overlay, w, pins));
    let outcome: MgrOutcome = manager_apply(
        actions,
        selected,
        if count == 0 {
            1
        } else {
            count
        },
    );
    match outcome {
        MgrOutcome::Stay => None,
        MgrOutcome::Close => Some(Mode::Running),
        MgrOutcome::ToggleAgents => match overlay {
            Overlay::Sessions { agents } => {
                *selected = 0;
                Some(
                    Mode::Manager { overlay: Overlay::Sessions { agents: !agents }, selected: 0 },
                )
            },
            Overlay::Tabs => None,
        },
        MgrOutcome::Switch(i) => {
            switch_to(overlay, i, sessions, active, size, config, fresh, fx);
            Some(Mode::Running)
        },
        MgrOutcome::StartNaming => Some(
            Mode::Naming { overlay, name: String::new(), rename: None },
        ),
        MgrOutcome::StartSearch(i) => Some(
            Mode::Search { overlay, text: String::new(), selected: i },
        ),
        MgrOutcome::Rename(i) => match overlay {
            Overlay::Sessions { .. } => {
                if i < entries.len() {
                    assert(list[i as int] == entries@[i as int]@);
                    match entries[i].running {
                        Some(si) => {
                            proof {
                                lemma_entry_range(pins, w.sessions, agents, i as int);
                            }
                            Some(
                                Mode::Naming {
                                    overlay,
                                    name: sessions[si].name.clone(),
                                    rename: Some(RenameTarget::Session(sessions[si].id)),
                                },
                            )
                        },
                        // A stopped pin's name comes from the config.
                        None => None,
                    }
                } else {
                    None
                }
            },
            Overlay::Tabs => {
                if i < sessions[*active].tabs.len() {
                    assert(w.session().tabs[i as int]
                        == sessions@[*active as int].tabs@[i as int]@);
                    Some(
                        Mode::Naming {
                            overlay,
                            name: sessions[*active].tabs[i].name.clone(),
                            rename: Some(RenameTarget::Tab(i)),
                        },
                    )
                } else {
                    None
                }
            },
        },
        MgrOutcome::Kill(i) => match overlay {
            Overlay::Sessions { .. } => {
                if i < entries.len() {
                    assert(list[i as int] == entries@[i as int]@);
                    if let Some(si) = entries[i].running {
                        proof {
                            lemma_entry_range(pins, w.sessions, agents, i as int);
                        }
                        kill_session(sessions, active, si);
                    }
                }
                let left: Vec<SessionEntry> = manager_entries(&config.pins, sessions, agents);
                assert(left@.len() == manager_list(
                    pins,
                    session_views(sessions@),
                    agents,
                ).len());
                *selected = cap(*selected, left.len().saturating_sub(1));
                // Stay in the manager.
                None
            },
            Overlay::Tabs => {
                let n: usize = sessions[*active].tabs.len();
                if n > 1 && i < n {
                    let mut at: usize = sessions[*active].active_tab;
                    if i < at {
                        at = at - 1;
                    }
                    let _gone: Tab = sessions[*active].tabs.remove(i);
                    sessions[*active].active_tab = cap(at, n - 2);
                    *selected = cap(*selected, n - 2);
                    proof {
                        let t = sessions@[*active as int];
                        assert(t@ =~= without_tab(w.session(), i));
                        assert(session_views(sessions@) =~= w.with_viewed(
                            without_tab(w.session(), i),
                        ).sessions);
                    }
                    None
                } else if n == 1 && i == 0 {
                    // Killing the last tab kills the session.
                    let _gone: Session = sessions.remove(*active);
                    assert(session_views(sessions@) =~= w.sessions.remove(w.active));
                    *active = 0;
                    Some(Mode::Running)
                } else {
                    None
                }
            },
        },
    }
}

/// An entry that stands for a running session gives its place.
pub proof fn lemma_entry_range(pins: Seq<Seq<char>>, s: Seq<SessionView>, agents: bool, i: int)
    requires
        0 <= i < manager_list(pins, s, agents).len(),
    ensures
        manager_list(pins, s, agents)[i].running matches Some(si) ==> 0 <= si < s.len(),
{
    if agents {
        crate::sessions::lemma_agent_order(s, s.len() as int);
        let order = crate::sessions::agent_order(s, s.len() as int);
        assert(0 <= order[i] < s.len());
    } else {
        let p = crate::sessions::pinned_entries(pins, s);
        if i < p.len() {
            crate::sessions::lemma_named_from(s, pins[i], 0);
        } else {
            crate::sessions::lemma_unpinned(pins, s, s.len() as int);
            let u = crate::sessions::unpinned_entries(pins, s, s.len() as int);
            assert(manager_list(pins, s, agents)[i] == u[i - p.len()]);
        }
    }
}

/// What a chord other than detaching or opening a manager does.
pub open spec fn acted(action: InputAction, w: World, size: (u16, u16), pins: Seq<Seq<char>>)
    -> World {
    match action {
        InputAction::OpenSession(pi) => if pi < pins.len() {
            match named_from(w.sessions, pins[pi as int], 0) {
                Some(si) => World { active: si, ..w },
                None => w.with_created(pins, size, pins[pi as int]),
            }
        } else {
            w
        },
        _ => {
            let r = acted_on(w.session(), action, size, w.fresh.pane);
            World {
                sessions: w.sessions.update(w.active, r.session),
                active: w.active,
                fresh: if r.added {
                    w.fresh.after_pane()
                } else {
                    w.fresh
                },
                fx: w.fx + r.fx,
            }
        },
    }
}

/// Apply a chord other than detaching or opening a manager.
fn apply_action(
    action: InputAction,
    sessions: &mut Vec<Session>,
    active: &mut usize,
    size: (u16, u16),
    config: &Config,
    fresh: &mut Fresh,
    fx: &mut Vec<Effect>,
)
    requires
        *old(active) < old(sessions)@.len(),
        old(sessions)@[*old(active) as int]@.active_tab < old(sessions)@[*old(
            active,
        ) as int]@.tabs.len(),
        old(fresh).room(1),
    ensures
        world(final(sessions)@, *final(active), *final(fresh), final(fx)@) == acted(
            action,
            world(old(sessions)@, *old(active), *old(fresh), old(fx)@),
            size,
            config.names(),
        ),
{
    let ghost w = world(sessions@, *active, *fresh, fx@);
    let ghost pins = config.names();
    match action {
        InputAction::OpenSession(pi) => {
            if pi < config.pins.len() {
                assert(pins[pi as int] == config.pins@[pi as int].name@);
                *active = match find_named(sessions, &config.pins[pi].name) {
                    Some(si) => si,
                    None => create_session(
                        sessions,
                        config,
                        size,
                        config.pins[pi].name.clone(),
                        fresh,
                        fx,
                    ),
                };
            }
        },
        _ => {
            let at: usize = *active;
            assert(w.session() == sessions@[at as int]@);
            act(&mut sessions[at], action, size, fresh, fx);
            assert(session_views(sessions@) =~= w.sessions.update(
                w.active,
                sessions@[at as int]@,
            ));
        },
    }
}

/// A chord keeps the world in order and a session in view.
pub proof fn law_action_ok(action: InputAction, w: World, size: (u16, u16), pins: Seq<Seq<char>>)
    requires
        w.ok(),
        w.viewing(),
        w.fresh.room(1),
    ensures
        acted(action, w, size, pins).ok(),
        acted(action, w, size, pins).viewing(),
        acted(action, w, size, pins).fresh.session <= w.fresh.session + 1,
        acted(action, w, size, pins).fresh.pane <= w.fresh.pane + 1,
{
    let s = w.session();
    assert(s.live());
    let tab = s.tab();
    assert(tab.live());
    let plain = tab.with_zoom(false);
    assert(plain.live());
    let new = w.fresh.pane;
    match action {
        InputAction::OpenSession(pi) => if pi < pins.len() {
            crate::sessions::lemma_named_from(w.sessions, pins[pi as int], 0);
            law_create_ok(w, pins, size, pins[pi as int]);
        },
        InputAction::Fullscreen => {
            lemma_set_tab(w, w.active, s.active_tab as int, tab.with_zoom(!tab.zoomed), false);
        },
        InputAction::SplitH => {
            lemma_split_ok(w, SplitDir::Horizontal);
        },
        InputAction::SplitV => {
            lemma_split_ok(w, SplitDir::Vertical);
        },
        InputAction::FocusNext => {
            crate::model::law_focus_live(plain, NavDir::Left, size);
            lemma_set_tab(w, w.active, s.active_tab as int, plain.with_focus_next(), false);
        },
        InputAction::FocusDir(dir) => {
            crate::model::law_focus_live(plain, dir, size);
            lemma_set_tab(
                w,
                w.active,
                s.active_tab as int,
                plain.with_focus_dir(dir, size),
                false,
            );
            lemma_set_tab(w, w.active, s.active_tab as int, plain, false);
            let z = s.with_tab(plain);
            let w1 = World { sessions: w.sessions.update(w.active, z), ..w };
            if dir is Left || dir is Right {
                law_tabs_form_a_strip(z.active_tab, z.tabs.len());
                let y = SessionView {
                    active_tab: next_on_strip(z.active_tab, z.tabs.len(), dir),
                    ..z
                };
                lemma_mark(w1, w.active, y);
                let w2 = World { sessions: w1.sessions.update(w.active, y), ..w1 };
                let back = if dir is Left {
                    NavDir::Right
                } else {
                    NavDir::Left
                };
                assert(y.live());
                crate::model::law_focus_live(y.tab(), back, size);
                lemma_set_tab(
                    w2,
                    w.active,
                    y.active_tab as int,
                    y.tab().with_focus_edge(back, size),
                    false,
                );
                assert(w2.sessions.update(w.active, crossed(z, dir, size))
                    =~= w.sessions.update(w.active, crossed(z, dir, size)));
            }
        },
        _ => {
            assert(w.sessions.update(w.active, s) =~= w.sessions);
        },
    }
}

proof fn lemma_split_ok(w: World, dir: SplitDir)
    requires
        w.ok(),
        w.viewing(),
        w.fresh.room(1),
    ensures
        ({
            let t = w.tab().with_zoom(false).with_split(dir, w.fresh.pane);
            (World {
                sessions: w.sessions.update(w.active, w.session().with_tab(t)),
                fresh: w.fresh.after_pane(),
                ..w
            }).ok()
        }),
{
    let s = w.session();
    assert(s.live());
    let tab = s.tab();
    let plain = tab.with_zoom(false);
    let new = w.fresh.pane;
    assert(!holds(w.sessions, w.active, s.active_tab as int, new));
    crate::model::law_split_live(plain, dir, new);
    crate::layout::law_split_adds(plain.layout, plain.focused, dir, new);
    lemma_set_tab(w, w.active, s.active_tab as int, plain.with_split(dir, new), true);
}

/// What handling a chunk of keys leads to.
pub struct Handled {
    pub world: World,
    pub mode: ModeView,
    pub detach: bool,
}

/// Keys while panes are shown: typed into the focused pane up to the first
/// control chord; what follows a chord that opens a manager is already
/// manager input.
pub open spec fn ran(
    buf: Seq<u8>,
    w: World,
    size: (u16, u16),
    pins: Seq<Seq<char>>,
    chords: Seq<BindingView>,
) -> Handled
    decreases buf.len(),
{
    let scan = scanned(chords, buf, 0);
    let typed = w.asking(typing(w.tab().focused, scan.typed));
    match scan.action {
        None => Handled { world: typed, mode: ModeView::Running, detach: false },
        Some((InputAction::Detach, _)) => Handled {
            world: typed,
            mode: ModeView::Running,
            detach: true,
        },
        Some((InputAction::Manager(overlay), rest)) => overlaid(
            buf.skip(rest),
            overlay,
            home_selection(overlay, typed),
            typed,
            size,
            pins,
            chords,
        ),
        Some((action, rest)) => {
            let after = acted(action, typed, size, pins);
            if 0 < rest < buf.len() {
                ran(buf.skip(rest), after, size, pins, chords)
            } else {
                Handled { world: after, mode: ModeView::Running, detach: false }
            }
        },
    }
}

/// The entry that is highlighted when a manager opens.
pub open spec fn home_selection(overlay: Overlay, w: World) -> usize {
    match overlay {
        Overlay::Sessions { .. } => w.active as usize,
        Overlay::Tabs => w.session().active_tab,
    }
}

/// Keys while a manager is shown.
pub open spec fn overlaid(
    buf: Seq<u8>,
    overlay: Overlay,
    selected: usize,
    w: World,
    size: (u16, u16),
    pins: Seq<Seq<char>>,
    chords: Seq<BindingView>,
) -> Handled {
    let r = managed(manager_keys(chords, buf, 0), overlay, selected, w, size, pins);
    Handled {
        world: r.world,
        mode: match r.next {
            Some(m) => m,
            None => ModeView::Manager { overlay, selected: r.selected },
        },
        detach: false,
    }
}

/// Finishing a rename: an empty name changes nothing.
pub open spec fn renamed(target: RenameTarget, typed: Seq<char>, w: World) -> World {
    if typed.len() == 0 {
        w
    } else {
        match target {
            RenameTarget::Session(id) => match with_id_from(w.sessions, id, 0) {
                Some(k) => World {
                    sessions: w.sessions.update(
                        k,
                        SessionView { name: typed, ..w.sessions[k] },
                    ),
                    ..w
                },
                None => w,
            },
            RenameTarget::Tab(ti) => if ti < w.session().tabs.len() {
                let s = w.session();
                w.with_viewed(
                    SessionView {
                        tabs: s.tabs.update(
                            ti as int,
                            TabView { name: typed, ..s.tabs[ti as int] },
                        ),
                        ..s
                    },
                )
            } else {
                w
            },
        }
    }
}

/// Creating what the prompt was opened for, under the typed name or a
/// numbered one, and viewing it.
pub open spec fn created(
    overlay: Overlay,
    typed: Seq<char>,
    w: World,
    size: (u16, u16),
    pins: Seq<Seq<char>>,
) -> World {
    match overlay {
        Overlay::Sessions { agents } => {
            let after = w.with_created(
                pins,
                size,
                if typed.len() == 0 {
                    session_name(w.sessions.len() + 1)
                } else {
                    typed
                },
            );
            after.with_viewed(SessionView { agent: agents, ..after.session() })
        },
        Overlay::Tabs => {
            let s = w.session();
            let name = if typed.len() == 0 {
                tab_name(s.tabs.len() + 1)
            } else {
                typed
            };
            World {
                fresh: w.fresh.after_pane(),
                fx: w.fx.push(
                    EffectView::Spawn { pane: w.fresh.pane, w: size.0, h: size.1 },
                ),
                ..w.with_viewed(
                    SessionView {
                        tabs: s.tabs.push(TabView::fresh(name, w.fresh.pane)),
                        active_tab: s.tabs.len() as usize,
                        ..s
                    },
                )
            }
        },
    }
}

/// Keys while the name prompt is shown: Esc goes back to the manager, Enter
/// renames or creates.
pub open spec fn prompted(
    keys: Seq<char>,
    overlay: Overlay,
    name: Seq<char>,
    rename: Option<RenameTarget>,
    w: World,
    size: (u16, u16),
    pins: Seq<Seq<char>>,
) -> Handled {
    let (typed, outcome) = named(keys, 0, name);
    match outcome {
        NamingOutcome::Pending => Handled {
            world: w,
            mode: ModeView::Naming { overlay, name: typed, rename },
            detach: false,
        },
        NamingOutcome::Cancel => Handled {
            world: w,
            mode: ModeView::Manager { overlay, selected: home_selection(overlay, w) },
            detach: false,
        },
        NamingOutcome::Create => match rename {
            Some(target) => Handled {
                world: renamed(target, trimmed(typed), w),
                mode: ModeView::Manager {
                    overlay,
                    selected: match target {
                        RenameTarget::Session(_) => w.active as usize,
                        RenameTarget::Tab(ti) => ti,
                    },
                },
                detach: false,
            },
            None => Handled {
                world: created(overlay, trimmed(typed), w, size, pins),
                mode: ModeView::Running,
                detach: false,
            },
        },
    }
}

/// The names of the entries that an overlay lists, with the session at `at`
/// viewed.
pub open spec fn row_names(
    overlay: Overlay,
    s: Seq<SessionView>,
    at: int,
    pins: Seq<Seq<char>>,
) -> Seq<Seq<char>> {
    match overlay {
        Overlay::Sessions { agents } => manager_list(pins, s, agents).map_values(
            |e: EntryView| e.name,
        ),
        Overlay::Tabs => s[at].tabs.map_values(|t: TabView| t.name),
    }
}

/// Keys while a manager is searched: Esc goes back to the manager with the
/// highlighted entry still highlighted, Enter switches to it; where nothing
/// is found, Enter does nothing.
pub open spec fn sought(
    keys: Seq<char>,
    overlay: Overlay,
    text: Seq<char>,
    selected: usize,
    w: World,
    size: (u16, u16),
    pins: Seq<Seq<char>>,
) -> Handled {
    let names = row_names(overlay, w.sessions, w.active, pins);
    let r = searched(keys, 0, names, text, selected);
    let rows = rows_found(names, r.text);
    let stay = Handled {
        world: w,
        mode: ModeView::Search { overlay, text: r.text, selected: r.selected },
        detach: false,
    };
    match r.outcome {
        SearchOutcome::Pending => stay,
        SearchOutcome::Cancel => Handled {
            world: w,
            mode: ModeView::Manager {
                overlay,
                selected: if r.selected < rows.len() {
                    rows[r.selected as int] as usize
                } else {
                    0
                },
            },
            detach: false,
        },
        SearchOutcome::Accept => if r.selected < rows.len() {
            Handled {
                world: switched(overlay, rows[r.selected as int] as usize, w, size, pins),
                mode: ModeView::Running,
                detach: false,
            }
        } else {
            stay
        },
    }
}

/// Whether a name prompt is for a tab of the viewed session.
pub open spec fn prompt_about_viewed(overlay: Overlay, rename: Option<RenameTarget>) -> bool {
    overlay is Tabs || match rename {
        Some(RenameTarget::Tab(_)) => true,
        _ => false,
    }
}

/// Whether keys in a mode are about the viewed session, so that there has to
/// be one.
pub open spec fn about_viewed(mode: ModeView) -> bool {
    match mode {
        ModeView::Running => true,
        ModeView::Manager { overlay, .. } => overlay is Tabs,
        ModeView::Naming { overlay, rename, .. } => prompt_about_viewed(overlay, rename),
        ModeView::Search { overlay, .. } => overlay is Tabs,
    }
}

/// Typing snaps the view back to the live bottom and drops any visible
/// selection.
pub open spec fn snapped(select: SelectState, w: World) -> World {
    let tab = w.tab();
    w.asking(
        unselect_requests(select, w.sessions) + (if tab.layout.has_pane(tab.focused) {
            seq![EffectView::ScrollBottom { pane: tab.focused }]
        } else {
            Seq::empty()
        }),
    )
}

/// What a chunk of keys leads to.
pub open spec fn handled(
    keys: Seq<u8>,
    mode: ModeView,
    select: SelectState,
    w: World,
    size: (u16, u16),
    pins: Seq<Seq<char>>,
    chords: Seq<BindingView>,
) -> Handled {
    match mode {
        ModeView::Running => ran(
            keys,
            if keys.len() > 0 {
                snapped(select, w)
            } else {
                w
            },
            size,
            pins,
            chords,
        ),
        ModeView::Manager { overlay, selected } => overlaid(
            keys,
            overlay,
            selected,
            w,
            size,
            pins,
            chords,
        ),
        ModeView::Naming { overlay, name, rename } => prompted(
            lossy_chars(keys),
            overlay,
            name,
            rename,
            w,
            size,
            pins,
        ),
        ModeView::Search { overlay, text, selected } => sought(
            lossy_chars(keys),
            overlay,
            text,
            selected,
            w,
            size,
            pins,
        ),
    }
}

/// The selection state after a chunk of keys.
pub open spec fn select_after(keys: Seq<u8>, mode: ModeView, select: SelectState) -> SelectState {
    if mode is Running && keys.len() > 0 {
        SelectState { gesture: None, selected_pane: None, ..select }
    } else {
        select
    }
}

/// Finish the name prompt: rename, or create and view.
fn finish_naming(
    overlay: Overlay,
    typed: String,
    rename: Option<RenameTarget>,
    sessions: &mut Vec<Session>,
    active: &mut usize,
    size: (u16, u16),
    config: &Config,
    fresh: &mut Fresh,
    fx: &mut Vec<Effect>,
) -> (next: Mode)
    requires
        prompt_about_viewed(overlay, rename) ==> *old(active) < old(sessions)@.len(),
        old(fresh).room(1),
    ensures
        ({
            let w = world(old(sessions)@, *old(active), *old(fresh), old(fx)@);
            let after = world(final(sessions)@, *final(active), *final(fresh), final(fx)@);
            match rename {
                Some(target) => after == renamed(target, typed@, w) && next@
                    == (ModeView::Manager {
                    overlay,
                    selected: match target {
                        RenameTarget::Session(_) => *old(active),
                        RenameTarget::Tab(ti) => ti,
                    },
                }),
                None => after == created(overlay, typed@, w, size, config.names()) && next@
                    == ModeView::Running,
            }
        }),
{
    let ghost w = world(sessions@, *active, *fresh, fx@);
    let empty: bool = typed.as_str().is_empty();
    let at: usize = *active;
    match rename {
        Some(RenameTarget::Session(id)) => {
            if !empty {
                if let Some(k) = find_id(sessions, id) {
                    sessions[k].name = typed;
                    assert(session_views(sessions@) =~= renamed(
                        RenameTarget::Session(id),
                        typed@,
                        w,
                    ).sessions);
                }
            }
            Mode::Manager { overlay, selected: at }
        },
        Some(RenameTarget::Tab(ti)) => {
            if !empty && ti < sessions[at].tabs.len() {
                sessions[at].tabs[ti].name = typed;
                proof {
                    let z = sessions@[at as int]@;
                    assert(z.tabs =~= w.session().tabs.update(
                        ti as int,
                        TabView { name: typed@, ..w.session().tabs[ti as int] },
                    ));
                    assert(session_views(sessions@) =~= renamed(
                        RenameTarget::Tab(ti),
                        typed@,
                        w,
                    ).sessions);
                }
            }
            Mode::Manager { overlay, selected: ti }
        },
        None => {
            match overlay {
                Overlay::Sessions { agents } => {
                    let name: String = if empty {
                        default_session_name(sessions.len() as u128 + 1)
                    } else {
                        typed
                    };
                    let pos: usize = create_session(sessions, config, size, name, fresh, fx);
                    let ghost made = session_views(sessions@);
                    *active = pos;
                    // Created from the agent view = an agent session.
                    sessions[pos].agent = agents;
                    assert(session_views(sessions@) =~= made.update(
                        pos as int,
                        SessionView { agent: agents, ..made[pos as int] },
                    ));
                },
                Overlay::Tabs => {
                    let n: usize = sessions[at].tabs.len();
                    let name: String = if empty {
                        default_tab_name(n as u128 + 1)
                    } else {
                        typed
                    };
                    let tab: Tab = Tab::new(size, name, fresh, fx);
                    sessions[at].tabs.push(tab);
                    sessions[at].active_tab = n;
                    proof {
                        let z = sessions@[at as int]@;
                        assert(z.tabs =~= w.session().tabs.push(
                            TabView::fresh(name@, w.fresh.pane),
                        ));
                        assert(session_views(sessions@) =~= created(
                            overlay,
                            typed@,
                            w,
                            size,
                            config.names(),
                        ).sessions);
                    }
                },
            }
            Mode::Running
        },
    }
}

/// Apply typed characters while the name prompt is shown. Returns the mode
/// to switch to, or `None` to stay in the prompt with the (possibly changed)
/// name.
pub fn handle_prompt(
    keys: &Vec<char>,
    overlay: Overlay,
    name: &mut String,
    rename: Option<RenameTarget>,
    sessions: &mut Vec<Session>,
    active: &mut usize,
    size: (u16, u16),
    config: &Config,
    fresh: &mut Fresh,
    fx: &mut Vec<Effect>,
) -> (next: Option<Mode>)
    requires
        prompt_about_viewed(overlay, rename) ==> *old(active) < old(sessions)@.len(),
        old(fresh).room(1),
    ensures
        ({
            let r = prompted(
                keys@,
                overlay,
                old(name)@,
                rename,
                world(old(sessions)@, *old(active), *old(fresh), old(fx)@),
                size,
                config.names(),
            );
            &&& world(final(sessions)@, *final(active), *final(fresh), final(fx)@) == r.world
            &&& match next {
                Some(m) => m@ == r.mode && r.mode !is Naming,
                None => r.mode == (ModeView::Naming { overlay, name: final(name)@, rename }),
            }
        }),
{
    match naming_keys(keys, name) {
        NamingOutcome::Pending => None,
        NamingOutcome::Cancel => {
            let selected: usize = match overlay {
                Overlay::Sessions { .. } => *active,
                Overlay::Tabs => sessions[*active].active_tab,
            };
            Some(Mode::Manager { overlay, selected })
        },
        NamingOutcome::Create => {
            let typed: String = trim(name.as_str());
            Some(
                finish_naming(
                    overlay,
                    typed,
                    rename,
                    sessions,
                    active,
                    size,
                    config,
                    fresh,
                    fx,
                ),
            )
        },
    }
}

/// The names of the entries that an overlay lists.
pub fn list_names(
    overlay: Overlay,
    sessions: &Vec<Session>,
    active: usize,
    config: &Config,
) -> (r: Vec<String>)
    requires
        overlay is Tabs ==> active < sessions@.len(),
    ensures
        name_views(r@) == row_names(
            overlay,
            session_views(sessions@),
            active as int,
            config.names(),
        ),
{
    let ghost want = row_names(
        overlay,
        session_views(sessions@),
        active as int,
        config.names(),
    );
    let mut r: Vec<String> = Vec::new();
    let mut i: usize = 0;
    match overlay {
        Overlay::Sessions { agents } => {
            let entries: Vec<SessionEntry> = manager_entries(&config.pins, sessions, agents);
            assert(want.len() == entries@.len());
            assert(name_views(r@) =~= want.take(0));
            while i < entries.len()
                invariant
                    i <= entries@.len(),
                    want.len() == entries@.len(),
                    want == entry_views(entries@).map_values(|e: EntryView| e.name),
                    name_views(r@) == want.take(i as int),
                decreases entries@.len() - i,
            {
                let ghost before = name_views(r@);
                r.push(entries[i].name.clone());
                i = i + 1;
                assert(entry_views(entries@)[i - 1] == entries@[i - 1]@);
                assert(name_views(r@) =~= before.push(want[i - 1]));
                assert(name_views(r@) =~= want.take(i as int));
            }
        },
        Overlay::Tabs => {
            let session: &Session = &sessions[active];
            assert(session_views(sessions@)[active as int] == session@);
            assert(want.len() == session.tabs@.len());
            assert(name_views(r@) =~= want.take(0));
            while i < session.tabs.len()
                invariant
                    i <= session.tabs@.len(),
                    want.len() == session.tabs@.len(),
                    want == session@.tabs.map_values(|t: TabView| t.name),
                    name_views(r@) == want.take(i as int),
                decreases session.tabs@.len() - i,
            {
                let ghost before = name_views(r@);
                r.push(session.tabs[i].name.clone());
                i = i + 1;
                assert(session@.tabs[i - 1] == session.tabs@[i - 1]@);
                assert(name_views(r@) =~= before.push(want[i - 1]));
                assert(name_views(r@) =~= want.take(i as int));
            }
        },
    }
    assert(want.take(i as int) =~= want);
    r
}

/// Apply typed characters while a manager is searched. Returns the mode to
/// switch to, or `None` to go on searching with the (possibly changed) text
/// and highlight.
pub fn handle_search(
    keys: &Vec<char>,
    overlay: Overlay,
    text: &mut String,
    selected: &mut usize,
    sessions: &mut Vec<Session>,
    active: &mut usize,
    size: (u16, u16),
    config: &Config,
    fresh: &mut Fresh,
    fx: &mut Vec<Effect>,
) -> (next: Option<Mode>)
    requires
        overlay is Tabs ==> *old(active) < old(sessions)@.len(),
        old(fresh).room(1),
    ensures
        ({
            let r = sought(
                keys@,
                overlay,
                old(text)@,
                *old(selected),
                world(old(sessions)@, *old(active), *old(fresh), old(fx)@),
                size,
                config.names(),
            );
            &&& world(final(sessions)@, *final(active), *final(fresh), final(fx)@) == r.world
            &&& match next {
                Some(m) => m@ == r.mode && r.mode !is Search,
                None => r.mode == (ModeView::Search {
                    overlay,
                    text: final(text)@,
                    selected: *final(selected),
                }),
            }
        }),
{
    let names: Vec<String> = list_names(overlay, sessions, *active, config);
    let outcome: SearchOutcome = search_keys(keys, &names, text, selected);
    let rows: Vec<usize> = find_rows(&names, text.as_str());
    let at: usize = *selected;
    proof {
        let found = rows_found(name_views(names@), text@);
        assert(found.len() == rows@.len());
        if at < rows@.len() {
            assert(found[at as int] == rows@[at as int]);
        }
    }
    match outcome {
        SearchOutcome::Pending => None,
        SearchOutcome::Cancel => Some(
            Mode::Manager {
                overlay,
                selected: if at < rows.len() {
                    rows[at]
                } else {
                    0
                },
            },
        ),
        SearchOutcome::Accept => {
            if at < rows.len() {
                switch_to(overlay, rows[at], sessions, active, size, config, fresh, fx);
                Some(Mode::Running)
            } else {
                None
            }
        },
    }
}

/// Apply keys while panes are shown. Returns the mode to go on in, and
/// whether the client asked to detach.
#[verifier::rlimit(30)]
fn handle_running(
    keys: &[u8],
    sessions: &mut Vec<Session>,
    active: &mut usize,
    size: (u16, u16),
    config: &Config,
    fresh: &mut Fresh,
    fx: &mut Vec<Effect>,
) -> (r: (Mode, bool))
    requires
        chords_ok(config.chords()),
        world(old(sessions)@, *old(active), *old(fresh), old(fx)@).ok(),
        world(old(sessions)@, *old(active), *old(fresh), old(fx)@).viewing(),
        old(fresh).room(keys@.len() + 1),
    ensures
        ({
            let h = ran(
                keys@,
                world(old(sessions)@, *old(active), *old(fresh), old(fx)@),
                size,
                config.names(),
                config.chords(),
            );
            &&& world(final(sessions)@, *final(active), *final(fresh), final(fx)@) == h.world
            &&& r.0@ == h.mode
            &&& r.1 == h.detach
        }),
{
    let ghost w0 = world(sessions@, *active, *fresh, fx@);
    let ghost pins = config.names();
    let ghost chords = config.chords();
    let mut from: usize = 0;
    assert(keys@.skip(0) =~= keys@);
    loop
        invariant
            from <= keys@.len(),
            w0 == world(old(sessions)@, *old(active), *old(fresh), old(fx)@),
            pins == config.names(),
            chords == config.chords(),
            chords_ok(chords),
            world(sessions@, *active, *fresh, fx@).ok(),
            world(sessions@, *active, *fresh, fx@).viewing(),
            fresh.room((keys@.len() - from + 1) as nat),
            ran(keys@, w0, size, pins, chords) == ran(
                keys@.skip(from as int),
                world(sessions@, *active, *fresh, fx@),
                size,
                pins,
                chords,
            ),
        decreases keys@.len() - from,
    {
        let ghost w = world(sessions@, *active, *fresh, fx@);
        let ghost buf = keys@.skip(from as int);
        let at: usize = *active;
        assert(w.sessions[at as int].live());
        let open: usize = sessions[at].active_tab;
        let focused: u64 = sessions[at].tabs[open].focused;
        assert(w.tab() == sessions@[at as int].tabs@[open as int]@);
        let rest: &[u8] = slice_subrange(keys, from, keys.len());
        assert(rest@ =~= buf);
        let found: Option<(InputAction, usize)> = forward_input(
            focused,
            &config.bindings,
            rest,
            fx,
        );
        let ghost typed = w.asking(typing(focused, scanned(chords, buf, 0).typed));
        assert(world(sessions@, *active, *fresh, fx@) =~= typed);
        proof {
            crate::keys::lemma_scanned_range(chords, buf, 0);
        }
        match found {
            None => {
                return (Mode::Running, false);
            },
            Some((action, n)) => {
                match action {
                    InputAction::Detach => {
                        return (Mode::Running, true);
                    },
                    InputAction::Manager(overlay) => {
                        // Bytes typed right after the chord are already
                        // manager input.
                        let tail: &[u8] = slice_subrange(rest, n, rest.len());
                        assert(tail@ =~= buf.skip(n as int));
                        let mut selected: usize = match overlay {
                            Overlay::Sessions { .. } => at,
                            Overlay::Tabs => open,
                        };
                        let actions: Vec<MgrAction> = manager_actions(tail, &config.bindings);
                        let next: Option<Mode> = run_manager(
                            &actions,
                            overlay,
                            &mut selected,
                            sessions,
                            active,
                            size,
                            config,
                            fresh,
                            fx,
                        );
                        let mode: Mode = match next {
                            Some(m) => m,
                            None => Mode::Manager { overlay, selected },
                        };
                        return (mode, false);
                    },
                    _ => {
                        proof {
                            law_action_ok(action, typed, size, pins);
                        }
                        apply_action(action, sessions, active, size, config, fresh, fx);
                        from = from + n;
                        assert(keys@.skip(from as int) =~= buf.skip(n as int));
                        if from == keys.len() {
                            return (Mode::Running, false);
                        }
                    },
                }
            },
        }
    }
}

/// Handle one chunk of client keys against the client's viewed session.
///
/// `active` is the index of the viewed session and may change (manager
/// switches); `mode` is the client's overlay state. Returns true when
/// the client asked to detach. There has to be a viewed session where the
/// keys are about it.
pub fn handle_input(
    keys: &[u8],
    mode: &mut Mode,
    sessions: &mut Vec<Session>,
    active: &mut usize,
    size: (u16, u16),
    config: &Config,
    select: &mut SelectState,
    fresh: &mut Fresh,
    fx: &mut Vec<Effect>,
) -> (detach: bool)
    requires
        old(mode)@ is Running || old(mode)@ is Manager ==> chords_ok(config.chords()),
        old(mode)@ is Running ==> world(old(sessions)@, *old(active), *old(fresh), old(fx)@).ok(),
        about_viewed(old(mode)@) ==> world(
            old(sessions)@,
            *old(active),
            *old(fresh),
            old(fx)@,
        ).viewing(),
        old(fresh).room(keys@.len() + 1),
    ensures
        ({
            let h = handled(
                keys@,
                old(mode)@,
                *old(select),
                world(old(sessions)@, *old(active), *old(fresh), old(fx)@),
                size,
                config.names(),
                config.chords(),
            );
            &&& world(final(sessions)@, *final(active), *final(fresh), final(fx)@) == h.world
            &&& final(mode)@ == h.mode
            &&& detach == h.detach
            &&& *final(select) == select_after(keys@, old(mode)@, *old(select))
        }),
        (old(mode)@ is Naming || old(mode)@ is Search) && valid_utf8(keys@) ==> lossy_chars(keys@)
            == decode_utf8(keys@),
{
    let ghost w = world(sessions@, *active, *fresh, fx@);
    let mut taken: Mode = Mode::Running;
    std::mem::swap(&mut taken, mode);
    match taken {
        Mode::Running => {
            if keys.len() > 0 {
                // Typing snaps the view back to the live bottom and drops
                // any visible selection.
                let at: usize = *active;
                assert(w.sessions[at as int].live());
                let open: usize = sessions[at].active_tab;
                clear_selection(select, sessions, fx);
                let focused: u64 = sessions[at].tabs[open].focused;
                assert(w.tab() == sessions@[at as int].tabs@[open as int]@);
                if sessions[at].tabs[open].layout.contains(focused) {
                    request(fx, Effect::ScrollBottom { pane: focused });
                }
                assert(world(sessions@, *active, *fresh, fx@) =~= snapped(*old(select), w));
            }
            let (next, detach): (Mode, bool) = handle_running(
                keys,
                sessions,
                active,
                size,
                config,
                fresh,
                fx,
            );
            *mode = next;
            detach
        },
        Mode::Manager { overlay, selected } => {
            let mut at: usize = selected;
            let actions: Vec<MgrAction> = manager_actions(keys, &config.bindings);
            let next: Option<Mode> = run_manager(
                &actions,
                overlay,
                &mut at,
                sessions,
                active,
                size,
                config,
                fresh,
                fx,
            );
            *mode = match next {
                Some(m) => m,
                None => Mode::Manager { overlay, selected: at },
            };
            false
        },
        Mode::Naming { overlay, name, rename } => {
            let mut typed: String = name;
            let chars: Vec<char> = to_chars(decode_lossy(keys).as_str());
            let next: Option<Mode> = handle_prompt(
                &chars,
                overlay,
                &mut typed,
                rename,
                sessions,
                active,
                size,
                config,
                fresh,
                fx,
            );
            *mode = match next {
                Some(m) => m,
                None => Mode::Naming { overlay, name: typed, rename },
            };
            false
        },
        Mode::Search { overlay, text, selected } => {
            let mut typed: String = text;
            let mut at: usize = selected;
            let chars: Vec<char> = to_chars(decode_lossy(keys).as_str());
            let next: Option<Mode> = handle_search(
                &chars,
                overlay,
                &mut typed,
                &mut at,
                sessions,
                active,
                size,
                config,
                fresh,
                fx,
            );
            *mode = match next {
                Some(m) => m,
                None => Mode::Search { overlay, text: typed, selected: at },
            };
            false
        },
    }
}

/// The world is in order, and a session is viewed unless none is left.
pub open spec fn settled(w: World) -> bool {
    w.ok() && (w.viewing() || w.sessions.len() == 0)
}

/// The selection of a manager that shows tabs is one of them.
pub open spec fn selection_ok(mode: ModeView, w: World) -> bool {
    mode matches ModeView::Manager { overlay: Overlay::Tabs, selected } ==> selected
        < w.session().tabs.len()
}

/// Killing a session keeps the world in order. A viewed session that is
/// not the one killed stays viewed.
pub proof fn law_kill_session(w: World, si: int)
    requires
        w.ok(),
        w.viewing(),
        0 <= si < w.sessions.len(),
    ensures
        settled(without_session(w, si)),
        si != w.active ==> without_session(w, si).viewing() && without_session(w, si).session()
            == w.session(),
{
    let after = without_session(w, si);
    lemma_drop_session(w, si, after.active);
    let rest = w.sessions.remove(si);
    let viewed = w.session().id;
    crate::sessions::lemma_with_id_from(rest, viewed, 0);
    if si != w.active {
        let k = if w.active < si {
            w.active
        } else {
            w.active - 1
        };
        assert(rest[k] == w.session());
        assert(w.sessions[si].id != viewed);
        let f = with_id_from(rest, viewed, 0)->0;
        assert(rest[f].id == viewed);
        let g = if f < si {
            f
        } else {
            f + 1
        };
        assert(rest[f] == w.sessions[g]);
    }
}

/// Killing another tab than the open one leaves the open tab open.
pub proof fn law_kill_tab(s: SessionView, i: usize)
    requires
        s.live(),
        1 < s.tabs.len(),
        i < s.tabs.len(),
    ensures
        without_tab(s, i).live(),
        without_tab(s, i).tabs == s.tabs.remove(i as int),
        i != s.active_tab ==> without_tab(s, i).tab() == s.tab(),
{
    let z = without_tab(s, i);
    assert forall|j: int| 0 <= j < z.tabs.len() implies (#[trigger] z.tabs[j]).live() by {
        if j < i {
            assert(z.tabs[j] == s.tabs[j]);
        } else {
            assert(z.tabs[j] == s.tabs[j + 1]);
        }
    }
}

/// Manager keys keep the world in order, and the selection of a tab manager
/// within its tabs.
pub proof fn law_manager_ok(
    actions: Seq<MgrAction>,
    overlay: Overlay,
    selected: usize,
    w: World,
    size: (u16, u16),
    pins: Seq<Seq<char>>,
)
    requires
        settled(w),
        w.fresh.room(1),
        overlay is Tabs ==> w.viewing() && selected < w.session().tabs.len(),
    ensures
        ({
            let r = managed(actions, overlay, selected, w, size, pins);
            &&& settled(r.world)
            &&& overlay is Tabs && r.next is None ==> r.selected < r.world.session().tabs.len()
            &&& r.next matches Some(m) ==> selection_ok(m, r.world)
        }),
{
    let s = w.session();
    if w.viewing() {
        assert(s.live());
    }
    let n = entry_count(overlay, w, pins);
    let count = if n == 0 {
        1
    } else {
        n as usize
    };
    let r = managed(actions, overlay, selected, w, size, pins);
    if overlay is Tabs {
        law_selection_in_range(actions, 0, selected, count);
    }
    let (at, outcome) = manager_applied(actions, 0, selected, count);
    match outcome {
        MgrOutcome::Switch(i) => match overlay {
            Overlay::Sessions { agents } => {
                let entries = manager_list(pins, w.sessions, agents);
                if i < entries.len() {
                    lemma_entry_range(pins, w.sessions, agents, i as int);
                    law_create_ok(w, pins, size, entries[i as int].name);
                    assert((World { active: w.active, ..w }).ok());
                }
            },
            Overlay::Tabs => {
                lemma_mark(w, w.active, SessionView { active_tab: i, ..s });
            },
        },
        MgrOutcome::Kill(i) => match overlay {
            Overlay::Sessions { agents } => {
                let entries = manager_list(pins, w.sessions, agents);
                if i < entries.len() {
                    lemma_entry_range(pins, w.sessions, agents, i as int);
                    if let Some(si) = entries[i as int].running {
                        law_kill_session(w, si);
                    }
                }
            },
            Overlay::Tabs => {
                if s.tabs.len() > 1 {
                    law_kill_tab(s, i);
                    lemma_drop_tab(w, w.active, i as int, without_tab(s, i));
                } else {
                    lemma_drop_session(w, w.active, 0);
                }
            },
        },
        _ => {},
    }
}

/// Opening a manager never leaves its selection out of range, and keys while
/// panes are shown keep the world in order.
proof fn lemma_ran_ok(
    buf: Seq<u8>,
    w: World,
    size: (u16, u16),
    pins: Seq<Seq<char>>,
    chords: Seq<BindingView>,
)
    requires
        chords_ok(chords),
        w.ok(),
        w.viewing(),
        w.fresh.room(buf.len() + 1),
    ensures
        settled(ran(buf, w, size, pins, chords).world),
        selection_ok(
            ran(buf, w, size, pins, chords).mode,
            ran(buf, w, size, pins, chords).world,
        ),
    decreases buf.len(),
{
    let scan = scanned(chords, buf, 0);
    let typed = w.asking(typing(w.tab().focused, scan.typed));
    crate::keys::lemma_scanned_range(chords, buf, 0);
    assert(w.session().live());
    match scan.action {
        None => {},
        Some((InputAction::Detach, _)) => {},
        Some((InputAction::Manager(overlay), rest)) => {
            law_manager_ok(
                manager_keys(chords, buf.skip(rest), 0),
                overlay,
                home_selection(overlay, typed),
                typed,
                size,
                pins,
            );
        },
        Some((action, rest)) => {
            law_action_ok(action, typed, size, pins);
            if 0 < rest < buf.len() {
                lemma_ran_ok(
                    buf.skip(rest),
                    acted(action, typed, size, pins),
                    size,
                    pins,
                    chords,
                );
            }
        },
    }
}

/// Switching to a row that a search found keeps the world in order.
pub proof fn law_search_ok(
    keys: Seq<char>,
    overlay: Overlay,
    text: Seq<char>,
    selected: usize,
    w: World,
    size: (u16, u16),
    pins: Seq<Seq<char>>,
)
    requires
        settled(w),
        w.fresh.room(1),
        overlay is Tabs ==> w.viewing(),
    ensures
        ({
            let h = sought(keys, overlay, text, selected, w, size, pins);
            settled(h.world) && selection_ok(h.mode, h.world)
        }),
{
    let s = w.session();
    if w.viewing() {
        assert(s.live());
    }
    let names = row_names(overlay, w.sessions, w.active, pins);
    let r = searched(keys, 0, names, text, selected);
    let rows = rows_found(names, r.text);
    law_rows_found(names, r.text);
    if r.selected < rows.len() {
        let i = rows[r.selected as int];
        assert(0 <= i < names.len());
        match overlay {
            Overlay::Sessions { agents } => {
                let entries = manager_list(pins, w.sessions, agents);
                if (i as usize) < entries.len() {
                    lemma_entry_range(pins, w.sessions, agents, i as usize as int);
                    law_create_ok(w, pins, size, entries[i as usize as int].name);
                }
            },
            Overlay::Tabs => {
                lemma_mark(w, w.active, SessionView { active_tab: i as usize, ..s });
            },
        }
    }
}

/// Finishing the name prompt keeps the world in order.
pub proof fn law_naming_ok(
    overlay: Overlay,
    typed: Seq<char>,
    target: RenameTarget,
    w: World,
    size: (u16, u16),
    pins: Seq<Seq<char>>,
)
    requires
        settled(w),
        w.fresh.room(1),
        w.viewing() ==> w.session().tabs.len() < usize::MAX,
    ensures
        target is Session || w.viewing() ==> settled(renamed(target, typed, w)),
        overlay is Sessions || w.viewing() ==> created(overlay, typed, w, size, pins).ok()
            && created(overlay, typed, w, size, pins).viewing(),
{
    let s = w.session();
    if w.viewing() {
        assert(s.live());
    }
    match target {
        RenameTarget::Session(id) => {
            crate::sessions::lemma_with_id_from(w.sessions, id, 0);
            if let Some(k) = with_id_from(w.sessions, id, 0) {
                assert(w.sessions[k].live());
                lemma_mark(w, k, SessionView { name: typed, ..w.sessions[k] });
            }
        },
        RenameTarget::Tab(ti) => {
            if w.viewing() && ti < s.tabs.len() {
                lemma_mark(
                    w,
                    w.active,
                    SessionView {
                        tabs: s.tabs.update(
                            ti as int,
                            TabView { name: typed, ..s.tabs[ti as int] },
                        ),
                        ..s
                    },
                );
            }
        },
    }
    match overlay {
        Overlay::Sessions { agents } => {
            let name = if typed.len() == 0 {
                session_name(w.sessions.len() + 1)
            } else {
                typed
            };
            law_create_ok(w, pins, size, name);
            let after = w.with_created(pins, size, name);
            lemma_mark(after, after.active, SessionView { agent: agents, ..after.session() });
        },
        Overlay::Tabs => {
            let name = if typed.len() == 0 {
                tab_name(s.tabs.len() + 1)
            } else {
                typed
            };
            if w.viewing() {
                lemma_add_tab(
                    w,
                    w.active,
                    name,
                    SessionView {
                        tabs: s.tabs.push(TabView::fresh(name, w.fresh.pane)),
                        active_tab: s.tabs.len() as usize,
                        ..s
                    },
                );
            }
        },
    }
}

/// A chunk of keys keeps the world in order: every session keeps live tabs,
/// ids and panes stay apart, and a session is viewed unless none is left.
pub proof fn law_input_ok(
    keys: Seq<u8>,
    mode: ModeView,
    select: SelectState,
    w: World,
    size: (u16, u16),
    pins: Seq<Seq<char>>,
    chords: Seq<BindingView>,
)
    requires
        chords_ok(chords),
        settled(w),
        about_viewed(mode) ==> w.viewing(),
        w.fresh.room(keys.len() + 1),
        w.viewing() ==> w.session().tabs.len() < usize::MAX,
        selection_ok(mode, w),
    ensures
        settled(handled(keys, mode, select, w, size, pins, chords).world),
{
    match mode {
        ModeView::Running => {
            lemma_ran_ok(
                keys,
                if keys.len() > 0 {
                    snapped(select, w)
                } else {
                    w
                },
                size,
                pins,
                chords,
            );
        },
        ModeView::Manager { overlay, selected } => {
            law_manager_ok(manager_keys(chords, keys, 0), overlay, selected, w, size, pins);
        },
        ModeView::Naming { overlay, name, rename } => {
            let typed = trimmed(named(lossy_chars(keys), 0, name).0);
            law_naming_ok(
                overlay,
                typed,
                match rename {
                    Some(target) => target,
                    None => RenameTarget::Tab(0),
                },
                w,
                size,
                pins,
            );
        },
        ModeView::Search { overlay, text, selected } => {
            law_search_ok(lossy_chars(keys), overlay, text, selected, w, size, pins);
        },
    }
}

/// A pin's key opens its session from anywhere, starting it if needed:
/// a session with that name is viewed afterwards, the others are as they
/// were, and the same key once more changes nothing.
pub proof fn law_open_pinned(w: World, pi: usize, size: (u16, u16), pins: Seq<Seq<char>>)
    requires
        w.ok(),
        w.fresh.room(1),
        pi < pins.len(),
    ensures
        ({
            let action = InputAction::OpenSession(pi);
            let after = acted(action, w, size, pins);
            &&& after.viewing()
            &&& after.session().name == pins[pi as int]
            &&& after.sessions == w.sessions || after.sessions.remove(after.active) == w.sessions
            &&& acted(action, after, size, pins) == after
        }),
{
    let name = pins[pi as int];
    crate::sessions::lemma_named_from(w.sessions, name, 0);
    if named_from(w.sessions, name, 0) is None {
        law_create_ok(w, pins, size, name);
        let after = w.with_created(pins, size, name);
        let at = after.active;
        crate::sessions::lemma_place(pins, w.sessions, name);
        assert(after.sessions.remove(at) =~= w.sessions);
        crate::sessions::lemma_named_from(after.sessions, name, 0);
        let k = named_from(after.sessions, name, 0)->0;
        assert(after.sessions[at].name == name);
        if k < at {
            assert(after.sessions[k] == w.sessions[k]);
        } else if k > at {
            assert(after.sessions[k] == w.sessions[k - 1]);
        }
    }
}

/// Fullscreen twice leaves the session as it was.
pub proof fn law_fullscreen_toggles(s: SessionView, size: (u16, u16), new: u64)
    requires
        s.live(),
    ensures
        ({
            let once = acted_on(s, InputAction::Fullscreen, size, new).session;
            &&& once.tab().zoomed != s.tab().zoomed
            &&& acted_on(once, InputAction::Fullscreen, size, new).session == s
        }),
{
    let once = acted_on(s, InputAction::Fullscreen, size, new).session;
    assert(acted_on(once, InputAction::Fullscreen, size, new).session =~= s);
}

/// Typing reaches the shell untouched: keys in which no chord stands are
/// typed into the focused pane as they are, after the view has snapped to
/// the bottom, and nothing else happens.
pub proof fn law_typing_reaches_shell(
    keys: Seq<u8>,
    select: SelectState,
    w: World,
    size: (u16, u16),
    pins: Seq<Seq<char>>,
    chords: Seq<BindingView>,
)
    requires
        w.ok(),
        w.viewing(),
        keys.len() > 0,
        forall|i: int| 0 <= i < keys.len() ==> #[trigger] chord_at(chords, keys, i, 0) is None,
    ensures
        handled(keys, ModeView::Running, select, w, size, pins, chords) == (Handled {
            world: w.asking(
                unselect_requests(select, w.sessions) + seq![
                    EffectView::ScrollBottom { pane: w.tab().focused },
                    EffectView::Write { pane: w.tab().focused, bytes: keys },
                ],
            ),
            mode: ModeView::Running,
            detach: false,
        }),
{
    law_unbound_input_passes(chords, keys);
    assert(w.session().live());
    let p = w.tab().focused;
    assert(snapped(select, w).fx + typing(p, keys) =~= w.fx + (unselect_requests(
        select,
        w.sessions,
    ) + seq![
        EffectView::ScrollBottom { pane: p },
        EffectView::Write { pane: p, bytes: keys },
    ]));
}

/// `keys` are `k` chords, one behind another, each bound to an action.
pub open spec fn chorded(b: Seq<BindingView>, keys: Seq<u8>, action: InputAction, k: nat) -> bool
    decreases k,
{
    if k == 0 {
        keys.len() == 0
    } else {
        keys.len() > 0 && match chord_at(b, keys, 0, 0) {
            Some(j) => b[j].action == ActionView::Control(action) && chorded(
                b,
                keys.skip(b[j].seq.len() as int),
                action,
                (k - 1) as nat,
            ),
            None => false,
        }
    }
}

/// The tab that is open after `k` chords that move the focus left or right,
/// in a session with `n` tabs of which tab `t` was open.
pub open spec fn strip_tab(t: usize, n: nat, dir: NavDir, k: nat) -> int {
    match dir {
        NavDir::Left => (t + n * k - k) % n as int,
        _ => (t + k) % n as int,
    }
}

proof fn lemma_strip_tab(t: usize, n: nat, dir: NavDir, k: nat)
    requires
        t < n <= usize::MAX,
        k > 0,
        dir is Left || dir is Right,
    ensures
        strip_tab(t, n, dir, 0) == t,
        strip_tab(next_on_strip(t, n, dir), n, dir, (k - 1) as nat) == strip_tab(t, n, dir, k),
{
    let m = (k - 1) as nat;
    let c = n as int;
    let a = t as int;
    law_tabs_form_a_strip(t, n);
    assert(a % c == a) by (nonlinear_arith)
        requires
            0 <= a < c,
    ;
    assert(n * 0 == 0);
    vstd::arithmetic::div_mod::lemma_add_mod_noop_right(m as int, a + 1, c);
    vstd::arithmetic::div_mod::lemma_add_mod_noop_right(c * m - m, a + c - 1, c);
    assert(c * k == c * m + c) by (nonlinear_arith)
        requires
            k == m + 1,
    ;
}

proof fn lemma_ran_strip(
    keys: Seq<u8>,
    dir: NavDir,
    k: nat,
    w: World,
    size: (u16, u16),
    pins: Seq<Seq<char>>,
    chords: Seq<BindingView>,
)
    requires
        chords_ok(chords),
        w.viewing(),
        plain_strip(w.session()),
        dir is Left || dir is Right,
        chorded(chords, keys, InputAction::FocusDir(dir), k),
    ensures
        ({
            let h = ran(keys, w, size, pins, chords);
            let s = w.session();
            &&& h.mode is Running
            &&& !h.detach
            &&& h.world.active == w.active
            &&& h.world.fresh == w.fresh
            &&& h.world.sessions == w.sessions.update(w.active, h.world.session())
            &&& h.world.session().active_tab == strip_tab(s.active_tab, s.tabs.len(), dir, k)
            &&& h.world.session().tabs.len() == s.tabs.len()
            &&& plain_strip(h.world.session())
        }),
    decreases k,
{
    let s = w.session();
    let action = InputAction::FocusDir(dir);
    let h = ran(keys, w, size, pins, chords);
    if k == 0 {
        lemma_strip_tab(s.active_tab, s.tabs.len(), dir, 1);
        assert(w.sessions.update(w.active, s) =~= w.sessions);
    } else {
        let j = chord_at(chords, keys, 0, 0)->0;
        let n = chords[j].seq.len() as int;
        law_control_chord_swallowed(chords, keys, 0, j, action);
        crate::keys::lemma_scanned_range(chords, keys, 0);
        let scan = scanned(chords, keys, 0);
        assert(scan.typed =~= Seq::<u8>::empty());
        let typed = w.asking(typing(w.tab().focused, scan.typed));
        let after = acted(action, typed, size, pins);
        law_focus_steps(s, dir, size, w.fresh.pane);
        lemma_strip_tab(s.active_tab, s.tabs.len(), dir, k);
        if n < keys.len() {
            lemma_ran_strip(keys.skip(n), dir, (k - 1) as nat, after, size, pins, chords);
            assert(after.sessions.update(w.active, h.world.session()) =~= w.sessions.update(
                w.active,
                h.world.session(),
            ));
        } else {
            reveal_with_fuel(chorded, 2);
            assert(keys.skip(n).len() == 0);
            assert(k == 1);
            lemma_strip_tab(after.session().active_tab, s.tabs.len(), dir, 1);
        }
    }
}

/// Left and right cross tab boundaries, wrapping: where every tab has one
/// pane, `k` chords that move the focus right open the tab `k` further on,
/// and `k` that move it left the tab `k` further back, modulo the number of
/// tabs. The other sessions stay as they are, and panes stay shown.
pub proof fn law_chords_step_along_strip(
    keys: Seq<u8>,
    dir: NavDir,
    k: nat,
    select: SelectState,
    w: World,
    size: (u16, u16),
    pins: Seq<Seq<char>>,
    chords: Seq<BindingView>,
)
    requires
        chords_ok(chords),
        w.viewing(),
        plain_strip(w.session()),
        dir is Left || dir is Right,
        chorded(chords, keys, InputAction::FocusDir(dir), k),
    ensures
        ({
            let h = handled(keys, ModeView::Running, select, w, size, pins, chords);
            let s = w.session();
            &&& h.mode is Running
            &&& !h.detach
            &&& h.world.active == w.active
            &&& h.world.fresh == w.fresh
            &&& h.world.sessions == w.sessions.update(w.active, h.world.session())
            &&& h.world.session().active_tab == strip_tab(s.active_tab, s.tabs.len(), dir, k)
            &&& h.world.session().tabs.len() == s.tabs.len()
            &&& plain_strip(h.world.session())
        }),
{
    let start = if keys.len() > 0 {
        snapped(select, w)
    } else {
        w
    };
    lemma_ran_strip(keys, dir, k, start, size, pins, chords);
}

/// There and back: `k` chords in one direction and then, in another chunk,
/// `k` chords in the other end on the tab that was open.
pub proof fn law_strip_there_and_back(
    there: Seq<u8>,
    back: Seq<u8>,
    rightward: bool,
    k: nat,
    first: SelectState,
    second: SelectState,
    w: World,
    size: (u16, u16),
    pins: Seq<Seq<char>>,
    chords: Seq<BindingView>,
)
    requires
        chords_ok(chords),
        w.viewing(),
        plain_strip(w.session()),
        chorded(
            chords,
            there,
            InputAction::FocusDir(
                if rightward {
                    NavDir::Right
                } else {
                    NavDir::Left
                },
            ),
            k,
        ),
        chorded(
            chords,
            back,
            InputAction::FocusDir(
                if rightward {
                    NavDir::Left
                } else {
                    NavDir::Right
                },
            ),
            k,
        ),
    ensures
        ({
            let h = handled(there, ModeView::Running, first, w, size, pins, chords);
            let g = handled(back, h.mode, second, h.world, size, pins, chords);
            g.mode is Running && !g.detach && g.world.active == w.active
                && g.world.session().active_tab == w.session().active_tab
        }),
{
    let (to, fro) = if rightward {
        (NavDir::Right, NavDir::Left)
    } else {
        (NavDir::Left, NavDir::Right)
    };
    let s = w.session();
    let h = handled(there, ModeView::Running, first, w, size, pins, chords);
    law_chords_step_along_strip(there, to, k, first, w, size, pins, chords);
    law_chords_step_along_strip(back, fro, k, second, h.world, size, pins, chords);
    law_strip_steps(s.active_tab, s.tabs.len(), k);
    let mid = h.world.session().active_tab;
    law_strip_steps(mid, s.tabs.len(), k);
    assert(mid == stepped(s.active_tab, s.tabs.len(), to, k));
}

/// The key `/` starts a search of the list that a manager shows.
pub proof fn law_slash_searches(
    overlay: Overlay,
    selected: usize,
    w: World,
    size: (u16, u16),
    pins: Seq<Seq<char>>,
    chords: Seq<BindingView>,
)
    requires
        manager_chord_at(chords, seq![0x2fu8], 0, 0) is None,
    ensures
        overlaid(seq![0x2fu8], overlay, selected, w, size, pins, chords) == (Handled {
            world: w,
            mode: ModeView::Search { overlay, text: Seq::empty(), selected },
            detach: false,
        }),
{
    let buf = seq![0x2fu8];
    reveal_with_fuel(manager_keys, 2);
    let keys = manager_keys(chords, buf, 0);
    assert(keys =~= seq![MgrAction::Search]);
}

} // verus!
