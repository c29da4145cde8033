//! Shells that could not be started: what was made for them is taken back,
//! and the list of sessions and the view are as they were.

use crate::config::{InputAction, Overlay};
use crate::input::{acted, created, managed};
use crate::keys::MgrAction;
use crate::layout::{Layout, SplitDir};
use crate::model::{session_views, Fresh, Session, SessionView, TabView};
use crate::sessions::{manager_list, named_from, place, with_session};
use crate::world::{holds, law_create_ok, world, World};
use vstd::prelude::*;

verus! {

/// What a client views: the session at `active`, its open tab, and the pane
/// with the focus.
#[derive(Clone, Copy, PartialEq, Eq, Structural)]
pub struct Seen {
    pub active: usize,
    pub tab: usize,
    pub focused: u64,
}

/// What is viewed in a world. Where there is no viewed session, only the
/// index is told.
pub open spec fn seen(w: World) -> Seen {
    if w.viewing() && w.session().active_tab < w.session().tabs.len() {
        Seen { active: w.active as usize, tab: w.session().active_tab, focused: w.tab().focused }
    } else {
        Seen { active: w.active as usize, tab: 0, focused: 0 }
    }
}

/// Note what is viewed, before something is started.
pub fn look(sessions: &Vec<Session>, active: usize) -> (r: Seen)
    ensures
        forall|fresh: Fresh, fx: Seq<crate::effect::Effect>|
            r == seen(#[trigger] world(sessions@, active, fresh, fx)),
{
    if active < sessions.len() {
        let session: &Session = &sessions[active];
        assert(session_views(sessions@)[active as int] == session@);
        if session.active_tab < session.tabs.len() {
            let tab: usize = session.active_tab;
            assert(session@.tabs[tab as int] == session.tabs@[tab as int]@);
            return Seen { active, tab, focused: session.tabs[tab].focused };
        }
    }
    Seen { active, tab: 0, focused: 0 }
}

/// The first tab from `j` on with a pane.
pub open spec fn tab_with(tabs: Seq<TabView>, pane: u64, j: int) -> Option<int>
    decreases tabs.len() - j,
{
    if j >= tabs.len() {
        None
    } else if tabs[j].layout.has_pane(pane) {
        Some(j)
    } else {
        tab_with(tabs, pane, j + 1)
    }
}

/// The first session from `i` on with a pane, and its tab.
pub open spec fn home_of(s: Seq<SessionView>, pane: u64, i: int) -> Option<(int, int)>
    decreases s.len() - i,
{
    if i >= s.len() {
        None
    } else {
        match tab_with(s[i].tabs, pane, 0) {
            Some(j) => Some((i, j)),
            None => home_of(s, pane, i + 1),
        }
    }
}

/// The session that goes again when the shell of a pane could not be started:
/// the one whose only pane it is.
pub open spec fn dropped_session(s: Seq<SessionView>, pane: u64) -> Option<int> {
    match home_of(s, pane, 0) {
        Some((i, j)) => if s[i].tabs.len() > 1 || s[i].tabs[j].layout is Split {
            None
        } else {
            Some(i)
        },
        None => None,
    }
}

/// The sessions once the shell of a pane could not be started: a session that
/// was made for it is gone again, and so is a tab, or the half of a split.
pub open spec fn sessions_back(s: Seq<SessionView>, pane: u64, before: Seen) -> Seq<SessionView> {
    match home_of(s, pane, 0) {
        None => s,
        Some((i, j)) => {
            let t = s[i].tabs[j];
            if t.layout is Split {
                let back = TabView {
                    layout: t.layout.without(pane),
                    focused: if t.focused == pane {
                        before.focused
                    } else {
                        t.focused
                    },
                    ..t
                };
                s.update(i, SessionView { tabs: s[i].tabs.update(j, back), ..s[i] })
            } else if s[i].tabs.len() > 1 {
                s.update(
                    i,
                    SessionView { tabs: s[i].tabs.remove(j), active_tab: before.tab, ..s[i] },
                )
            } else {
                s.remove(i)
            }
        },
    }
}

/// The world once the shell of a pane could not be started: what was made for
/// it is gone again, and the view is what it was.
pub open spec fn taken_back(w: World, pane: u64, before: Seen) -> World {
    World {
        sessions: sessions_back(w.sessions, pane, before),
        active: if dropped_session(w.sessions, pane) is Some {
            before.active as int
        } else {
            w.active
        },
        ..w
    }
}

fn find_tab(session: &Session, pane: u64) -> (r: Option<usize>)
    ensures
        match r {
            Some(j) => j < session@.tabs.len() && tab_with(session@.tabs, pane, 0) == Some(j as int)
                && session@.tabs[j as int].layout.has_pane(pane),
            None => tab_with(session@.tabs, pane, 0) is None,
        },
{
    let ghost v = session@.tabs;
    let mut j: usize = 0;
    while j < session.tabs.len()
        invariant
            j <= session.tabs@.len(),
            v == session@.tabs,
            tab_with(v, pane, 0) == tab_with(v, pane, j as int),
        decreases session.tabs@.len() - j,
    {
        assert(v[j as int] == session.tabs@[j as int]@);
        if session.tabs[j].layout.contains(pane) {
            return Some(j);
        }
        j = j + 1;
    }
    None
}

/// Find the session with a pane, and its tab.
pub fn find_home(sessions: &Vec<Session>, pane: u64) -> (r: Option<(usize, usize)>)
    ensures
        match r {
            Some((i, j)) => i < sessions@.len() && j < sessions@[i as int]@.tabs.len() && home_of(
                session_views(sessions@),
                pane,
                0,
            ) == Some((i as int, j as int)) && sessions@[i as int]@.tabs[j as int].layout.has_pane(
                pane,
            ),
            None => home_of(session_views(sessions@), pane, 0) is None,
        },
{
    let ghost v = session_views(sessions@);
    let mut i: usize = 0;
    while i < sessions.len()
        invariant
            i <= sessions@.len(),
            v == session_views(sessions@),
            home_of(v, pane, 0) == home_of(v, pane, i as int),
        decreases sessions@.len() - i,
    {
        assert(v[i as int] == sessions@[i as int]@);
        if let Some(j) = find_tab(&sessions[i], pane) {
            return Some((i, j));
        }
        i = i + 1;
    }
    None
}

/// Take back what was made for a pane whose shell could not be started;
/// `before` is what was viewed until then.
pub fn start_failed(
    pane: u64,
    before: Seen,
    sessions: &mut Vec<Session>,
    active: &mut usize,
)
    ensures
        session_views(final(sessions)@) == sessions_back(
            session_views(old(sessions)@),
            pane,
            before,
        ),
        *final(active) == if dropped_session(session_views(old(sessions)@), pane) is Some {
            before.active
        } else {
            *old(active)
        },
{
    let ghost v = session_views(sessions@);
    if let Some((i, j)) = find_home(sessions, pane) {
        let ghost s = v[i as int];
        let ghost t = s.tabs[j as int];
        assert(s == sessions@[i as int]@);
        assert(t == sessions@[i as int].tabs@[j as int]@);
        let split: bool = matches!(sessions[i].tabs[j].layout, Layout::Split { .. });
        if split {
            let focused: u64 = sessions[i].tabs[j].focused;
            let zoomed: bool = sessions[i].tabs[j].zoomed;
            sessions[i].tabs[j].remove_pane(pane);
            sessions[i].tabs[j].focused = if focused == pane {
                before.focused
            } else {
                focused
            };
            sessions[i].tabs[j].zoomed = zoomed;
            proof {
                let back = TabView {
                    layout: t.layout.without(pane),
                    focused: if t.focused == pane {
                        before.focused
                    } else {
                        t.focused
                    },
                    ..t
                };
                let z = SessionView { tabs: s.tabs.update(j as int, back), ..s };
                assert(sessions@[i as int].tabs@[j as int]@ == back);
                assert(sessions@[i as int]@.tabs =~= z.tabs);
                assert(session_views(sessions@) =~= v.update(i as int, z));
            }
        } else if sessions[i].tabs.len() > 1 {
            let _gone = sessions[i].tabs.remove(j);
            sessions[i].active_tab = before.tab;
            proof {
                let z = SessionView { tabs: s.tabs.remove(j as int), active_tab: before.tab, ..s };
                assert(sessions@[i as int]@.tabs =~= z.tabs);
                assert(session_views(sessions@) =~= v.update(i as int, z));
            }
        } else {
            let _gone: Session = sessions.remove(i);
            *active = before.active;
            assert(session_views(sessions@) =~= v.remove(i as int));
        }
    }
}

proof fn lemma_tab_with(tabs: Seq<TabView>, pane: u64, from: int, j: int)
    requires
        0 <= from <= j < tabs.len(),
        tabs[j].layout.has_pane(pane),
        forall|k: int| from <= k < j ==> !(#[trigger] tabs[k]).layout.has_pane(pane),
    ensures
        tab_with(tabs, pane, from) == Some(j),
    decreases j - from,
{
    if from < j {
        lemma_tab_with(tabs, pane, from + 1, j);
    }
}

proof fn lemma_no_tab(tabs: Seq<TabView>, pane: u64, from: int)
    requires
        0 <= from,
        forall|k: int| from <= k < tabs.len() ==> !(#[trigger] tabs[k]).layout.has_pane(pane),
    ensures
        tab_with(tabs, pane, from) is None,
    decreases tabs.len() - from,
{
    if from < tabs.len() {
        lemma_no_tab(tabs, pane, from + 1);
    }
}

/// A pane that stands in one tab only is found there.
pub(crate) proof fn lemma_home(s: Seq<SessionView>, pane: u64, from: int, i: int, j: int)
    requires
        0 <= from <= i < s.len(),
        holds(s, i, j, pane),
        forall|k: int, l: int| #[trigger] holds(s, k, l, pane) ==> k == i && l == j,
    ensures
        home_of(s, pane, from) == Some((i, j)),
    decreases i - from,
{
    if from < i {
        assert forall|k: int| 0 <= k < s[from].tabs.len() implies !(
        #[trigger] s[from].tabs[k]).layout.has_pane(pane) by {
            if s[from].tabs[k].layout.has_pane(pane) {
                assert(holds(s, from, k, pane));
            }
        }
        lemma_no_tab(s[from].tabs, pane, 0);
        lemma_home(s, pane, from + 1, i, j);
    } else {
        assert forall|k: int| 0 <= k < j implies !(#[trigger] s[i].tabs[k]).layout.has_pane(
            pane,
        ) by {
            if s[i].tabs[k].layout.has_pane(pane) {
                assert(holds(s, i, k, pane));
            }
        }
        lemma_tab_with(s[i].tabs, pane, 0, j);
    }
}

/// A session that could not be started leaves no trace: the list of sessions
/// and the view are as they were before it was made.
pub proof fn law_failed_session_taken_back(
    w: World,
    pins: Seq<Seq<char>>,
    size: (u16, u16),
    name: Seq<char>,
)
    requires
        w.ok(),
        w.fresh.room(1),
        0 <= w.active <= usize::MAX,
    ensures
        ({
            let back = taken_back(w.with_created(pins, size, name), w.fresh.pane, seen(w));
            back.sessions == w.sessions && back.active == w.active
        }),
{
    lemma_session_taken_back(w, pins, size, name, w.with_created(pins, size, name), false);
}

/// The pane of a session that was just created is found in its only tab.
pub proof fn lemma_created_home(
    w: World,
    pins: Seq<Seq<char>>,
    size: (u16, u16),
    name: Seq<char>,
)
    requires
        w.ok(),
        w.fresh.room(1),
    ensures
        home_of(w.with_created(pins, size, name).sessions, w.fresh.pane, 0) == Some(
            (place(pins, w.sessions, name), 0int),
        ),
{
    let made = w.with_created(pins, size, name);
    let at = made.active;
    law_create_ok(w, pins, size, name);
    assert(made.sessions.update(at, made.session()) =~= made.sessions);
    lemma_found_created(w, pins, name, made.sessions);
}

proof fn lemma_found_created(
    w: World,
    pins: Seq<Seq<char>>,
    name: Seq<char>,
    v: Seq<SessionView>,
)
    requires
        w.ok(),
        ({
            let x = with_session(pins, w.sessions, name, w.fresh);
            let at = place(pins, w.sessions, name);
            &&& v.len() == x.len()
            &&& v[at].tabs == x[at].tabs
            &&& forall|k: int| 0 <= k < v.len() && k != at ==> #[trigger] v[k] == x[k]
        }),
    ensures
        home_of(v, w.fresh.pane, 0) == Some((place(pins, w.sessions, name), 0int)),
{
    let pane = w.fresh.pane;
    let at = place(pins, w.sessions, name);
    crate::sessions::lemma_place(pins, w.sessions, name);
    let x = SessionView::fresh(name, w.fresh);
    let t = TabView::fresh(crate::model::tab_name(1), pane);
    assert(x.tabs[0] == t);
    assert(t.layout.pane_seq()[0] == pane);
    assert(holds(v, at, 0, pane));
    assert forall|k: int, l: int| #[trigger] holds(v, k, l, pane) implies k == at && l == 0 by {
        if k < at {
            assert(v[k] == w.sessions[k]);
            assert(holds(w.sessions, k, l, pane));
        } else if k > at {
            assert(v[k] == w.sessions[k - 1]);
            assert(holds(w.sessions, k - 1, l, pane));
        }
    }
    lemma_home(v, pane, 0, at, 0);
}

/// `after` is the world with a session created, an agent's or not.
proof fn lemma_session_taken_back(
    w: World,
    pins: Seq<Seq<char>>,
    size: (u16, u16),
    name: Seq<char>,
    after: World,
    agent: bool,
)
    requires
        w.ok(),
        w.fresh.room(1),
        0 <= w.active <= usize::MAX,
        ({
            let made = w.with_created(pins, size, name);
            after.sessions == made.sessions.update(
                made.active,
                SessionView { agent, ..made.session() },
            )
        }) || (after == w.with_created(pins, size, name)),
    ensures
        ({
            let back = taken_back(after, w.fresh.pane, seen(w));
            back.sessions == w.sessions && back.active == w.active
        }),
{
    let at = place(pins, w.sessions, name);
    crate::sessions::lemma_place(pins, w.sessions, name);
    law_create_ok(w, pins, size, name);
    lemma_found_created(w, pins, name, after.sessions);
    assert(after.sessions.remove(at) =~= w.sessions);
}

/// Selecting a pinned session that could not be started changes nothing: the
/// list of sessions and the view are as they were.
pub proof fn law_failed_switch_taken_back(
    selected: usize,
    agents: bool,
    w: World,
    size: (u16, u16),
    pins: Seq<Seq<char>>,
)
    requires
        w.ok(),
        w.fresh.room(1),
        0 <= w.active <= usize::MAX,
        selected < manager_list(pins, w.sessions, agents).len() <= usize::MAX,
        manager_list(pins, w.sessions, agents)[selected as int].running is None,
    ensures
        ({
            let r = managed(
                seq![MgrAction::Select],
                Overlay::Sessions { agents },
                selected,
                w,
                size,
                pins,
            );
            let back = taken_back(r.world, w.fresh.pane, seen(w));
            back.sessions == w.sessions && back.active == w.active
        }),
{
    let name = manager_list(pins, w.sessions, agents)[selected as int].name;
    law_failed_session_taken_back(w, pins, size, name);
}

/// A pin's key whose session could not be started changes nothing.
pub proof fn law_failed_pin_taken_back(
    w: World,
    pi: usize,
    size: (u16, u16),
    pins: Seq<Seq<char>>,
)
    requires
        w.ok(),
        w.fresh.room(1),
        0 <= w.active <= usize::MAX,
        pi < pins.len(),
        named_from(w.sessions, pins[pi as int], 0) is None,
    ensures
        ({
            let after = acted(InputAction::OpenSession(pi), w, size, pins);
            let back = taken_back(after, w.fresh.pane, seen(w));
            back.sessions == w.sessions && back.active == w.active
        }),
{
    law_failed_session_taken_back(w, pins, size, pins[pi as int]);
}

/// A session or a tab that was to be created from the name prompt and could
/// not be started leaves the sessions and the view as they were.
pub proof fn law_failed_creation_taken_back(
    overlay: Overlay,
    typed: Seq<char>,
    w: World,
    size: (u16, u16),
    pins: Seq<Seq<char>>,
)
    requires
        w.ok(),
        w.fresh.room(1),
        0 <= w.active <= usize::MAX,
        overlay is Tabs ==> w.viewing() && w.session().tabs.len() < usize::MAX,
    ensures
        ({
            let after = created(overlay, typed, w, size, pins);
            let back = taken_back(after, w.fresh.pane, seen(w));
            back.sessions == w.sessions && back.active == w.active
        }),
{
    let after = created(overlay, typed, w, size, pins);
    let pane = w.fresh.pane;
    match overlay {
        Overlay::Sessions { agents } => {
            let name = if typed.len() == 0 {
                crate::model::session_name(w.sessions.len() + 1)
            } else {
                typed
            };
            lemma_session_taken_back(w, pins, size, name, after, agents);
        },
        Overlay::Tabs => {
            let s = w.session();
            assert(s.live());
            let i = w.active;
            let n = s.tabs.len() as int;
            let v = after.sessions;
            assert(v[i].tabs[n].layout.pane_seq()[0] == pane);
            assert(holds(v, i, n, pane));
            assert forall|k: int, l: int| #[trigger] holds(v, k, l, pane) implies k == i && l
                == n by {
                if k != i {
                    assert(v[k] == w.sessions[k]);
                    assert(holds(w.sessions, k, l, pane));
                } else if l < n {
                    assert(v[k].tabs[l] == s.tabs[l]);
                    assert(holds(w.sessions, k, l, pane));
                }
            }
            lemma_home(v, pane, 0, i, n);
            let back = taken_back(after, pane, seen(w));
            assert(v[i].tabs.remove(n) =~= s.tabs);
            assert(back.sessions =~= w.sessions);
        },
    }
}

/// A split whose shell could not be started is undone: the open tab is out of
/// fullscreen, and nothing else has changed.
pub proof fn law_failed_split_taken_back(
    dir: SplitDir,
    w: World,
    size: (u16, u16),
    pins: Seq<Seq<char>>,
)
    requires
        w.ok(),
        w.viewing(),
        w.fresh.room(1),
        w.active <= usize::MAX,
    ensures
        ({
            let action = match dir {
                SplitDir::Horizontal => InputAction::SplitH,
                SplitDir::Vertical => InputAction::SplitV,
            };
            let back = taken_back(acted(action, w, size, pins), w.fresh.pane, seen(w));
            back.sessions == w.with_tab(w.tab().with_zoom(false)).sessions && back.active
                == w.active
        }),
{
    let action = match dir {
        SplitDir::Horizontal => InputAction::SplitH,
        SplitDir::Vertical => InputAction::SplitV,
    };
    let pane = w.fresh.pane;
    let s = w.session();
    let i = w.active;
    let j = s.active_tab as int;
    assert(s.live());
    let plain = w.tab().with_zoom(false);
    assert(!holds(w.sessions, i, j, pane));
    let after = acted(action, w, size, pins);
    let v = after.sessions;
    let t = plain.with_split(dir, pane);
    crate::layout::law_split_adds(plain.layout, plain.focused, dir, pane);
    crate::layout::law_split_then_remove(plain.layout, plain.focused, dir, pane);
    assert(v[i].tabs[j] == t);
    assert(holds(v, i, j, pane));
    assert forall|k: int, l: int| #[trigger] holds(v, k, l, pane) implies k == i && l == j by {
        if k != i {
            assert(v[k] == w.sessions[k]);
            assert(holds(w.sessions, k, l, pane));
        } else if l != j {
            assert(v[k].tabs[l] == s.tabs[l]);
            assert(holds(w.sessions, k, l, pane));
        }
    }
    lemma_home(v, pane, 0, i, j);
    assert(t.layout is Split) by {
        if plain.layout is Pane {
            assert(plain.layout.pane_seq()[0] == plain.focused);
        }
    }
    let back = taken_back(after, pane, seen(w));
    assert(back.sessions[i].tabs =~= w.with_tab(plain).sessions[i].tabs);
    assert(back.sessions =~= w.with_tab(plain).sessions);
}

} // verus!
