//! All the sessions together with the one that a client views.

use crate::effect::{effects, Effect, EffectView};
use crate::model::{session_views, Fresh, Session, SessionView, TabView};
use crate::sessions::{place, with_session};
use vstd::prelude::*;

verus! {

/// The sessions, the index of the viewed one, the next free ids, and what
/// has been asked of the panes so far.
#[verifier::ext_equal]
pub struct World {
    pub sessions: Seq<SessionView>,
    pub active: int,
    pub fresh: Fresh,
    pub fx: Seq<EffectView>,
}

/// The world that these make up.
pub open spec fn world(s: Seq<Session>, active: usize, fresh: Fresh, fx: Seq<Effect>) -> World {
    World { sessions: session_views(s), active: active as int, fresh, fx: effects(fx) }
}

impl World {
    /// The viewed session.
    pub open spec fn session(self) -> SessionView {
        self.sessions[self.active]
    }

    /// The viewed tab.
    pub open spec fn tab(self) -> TabView {
        self.session().tab()
    }

    /// With more asked of the panes.
    pub open spec fn asking(self, fx: Seq<EffectView>) -> World {
        World { fx: self.fx + fx, ..self }
    }

    /// With the viewed session replaced.
    pub open spec fn with_viewed(self, s: SessionView) -> World {
        World { sessions: self.sessions.update(self.active, s), ..self }
    }

    /// With the viewed tab replaced.
    pub open spec fn with_tab(self, t: TabView) -> World {
        self.with_viewed(self.session().with_tab(t))
    }

    /// With a new session in its place, viewed.
    pub open spec fn with_created(
        self,
        pins: Seq<Seq<char>>,
        size: (u16, u16),
        name: Seq<char>,
    ) -> World {
        World {
            sessions: with_session(pins, self.sessions, name, self.fresh),
            active: place(pins, self.sessions, name),
            fresh: self.fresh.after_session(),
            fx: self.fx.push(EffectView::Spawn { pane: self.fresh.pane, w: size.0, h: size.1 }),
        }
    }
}

/// Session `i` has a tab `j` with a pane.
pub open spec fn holds(s: Seq<SessionView>, i: int, j: int, pane: u64) -> bool {
    0 <= i < s.len() && 0 <= j < s[i].tabs.len() && s[i].tabs[j].layout.has_pane(pane)
}

/// Every pane has a number below `next`, and stands in one tab only.
pub open spec fn panes_apart(s: Seq<SessionView>, next: u64) -> bool {
    &&& forall|i: int, j: int, p: u64| #[trigger] holds(s, i, j, p) ==> p < next
    &&& forall|i: int, j: int, k: int, l: int, p: u64| #[trigger]
        holds(s, i, j, p) && #[trigger] holds(s, k, l, p) ==> i == k && j == l
}

/// Every session has a number below `next` of its own.
pub open spec fn ids_apart(s: Seq<SessionView>, next: u64) -> bool {
    &&& forall|i: int| 0 <= i < s.len() ==> (#[trigger] s[i]).id < next
    &&& forall|i: int, j: int|
        0 <= i < s.len() && 0 <= j < s.len() && (#[trigger] s[i]).id == (#[trigger] s[j]).id ==> i
            == j
}

/// Every session is live.
pub open spec fn all_live(s: Seq<SessionView>) -> bool {
    forall|i: int| 0 <= i < s.len() ==> (#[trigger] s[i]).live()
}

impl World {
    /// Every session has live tabs only, no two sessions share an id and no
    /// two tabs share a pane.
    pub open spec fn ok(self) -> bool {
        &&& all_live(self.sessions)
        &&& ids_apart(self.sessions, self.fresh.session)
        &&& panes_apart(self.sessions, self.fresh.pane)
    }

    /// There is a viewed session.
    pub open spec fn viewing(self) -> bool {
        0 <= self.active < self.sessions.len()
    }
}

/// Panes stay apart when tabs move to places of their own and only panes
/// with new numbers come in, all in one tab.
proof fn lemma_panes_moved(
    s: Seq<SessionView>,
    t: Seq<SessionView>,
    next: u64,
    after: u64,
    from: spec_fn(int, int) -> (int, int),
    home: (int, int),
)
    requires
        panes_apart(s, next),
        next <= after,
        forall|i: int, j: int, p: u64| #[trigger]
            holds(t, i, j, p) ==> holds(s, from(i, j).0, from(i, j).1, p) || (next <= p < after
                && (i, j) == home),
        forall|i: int, j: int, k: int, l: int| #[trigger]
            from(i, j) == #[trigger] from(k, l) && 0 <= i < t.len() && 0 <= j < t[i].tabs.len() && 0
                <= k < t.len() && 0 <= l < t[k].tabs.len() ==> i == k && j == l,
    ensures
        panes_apart(t, after),
{
    assert forall|i: int, j: int, k: int, l: int, p: u64| #[trigger]
        holds(t, i, j, p) && #[trigger] holds(t, k, l, p) implies i == k && j == l by {
        if p < next {
            let (a, b) = from(i, j);
            let (c, d) = from(k, l);
            assert(holds(s, a, b, p));
            assert(holds(s, c, d, p));
        } else {
            assert(!holds(s, from(i, j).0, from(i, j).1, p));
            assert(!holds(s, from(k, l).0, from(k, l).1, p));
        }
    }
}

/// Replacing a tab by one with the same panes, or with one new pane more,
/// keeps the world in order.
pub proof fn lemma_set_tab(w: World, i: int, j: int, t: TabView, added: bool)
    requires
        w.ok(),
        0 <= i < w.sessions.len(),
        0 <= j < w.sessions[i].tabs.len(),
        t.live(),
        added ==> w.fresh.pane < u64::MAX,
        forall|p: u64| #[trigger]
            t.layout.has_pane(p) ==> w.sessions[i].tabs[j].layout.has_pane(p) || (added && p
                == w.fresh.pane),
    ensures
        ({
            let s = w.sessions[i];
            let fresh = if added {
                w.fresh.after_pane()
            } else {
                w.fresh
            };
            (World {
                sessions: w.sessions.update(i, SessionView { tabs: s.tabs.update(j, t), ..s }),
                fresh,
                ..w
            }).ok()
        }),
{
    let s = w.sessions[i];
    let z = SessionView { tabs: s.tabs.update(j, t), ..s };
    let after = if added {
        (w.fresh.pane + 1) as u64
    } else {
        w.fresh.pane
    };
    let v = w.sessions.update(i, z);
    assert forall|k: int| 0 <= k < z.tabs.len() implies (#[trigger] z.tabs[k]).live() by {
        if k != j {
            assert(z.tabs[k] == s.tabs[k]);
        }
    }
    assert(z.live());
    assert forall|a: int, b: int, p: u64| #[trigger] holds(v, a, b, p) implies holds(
        w.sessions,
        a,
        b,
        p,
    ) || (w.fresh.pane <= p < after && (a, b) == (i, j)) by {
        if a == i && b == j {
            assert(t.layout.has_pane(p));
        }
    }
    lemma_panes_moved(w.sessions, v, w.fresh.pane, after, |a: int, b: int| (a, b), (i, j));
    assert forall|a: int| 0 <= a < v.len() implies (#[trigger] v[a]).id == w.sessions[a].id by {}
}

/// Changing names, the open tab or other marks of a session keeps the world
/// in order.
pub proof fn lemma_mark(w: World, i: int, z: SessionView)
    requires
        w.ok(),
        0 <= i < w.sessions.len(),
        z.id == w.sessions[i].id,
        z.tabs.len() == w.sessions[i].tabs.len(),
        z.active_tab < z.tabs.len(),
        forall|j: int|
            0 <= j < z.tabs.len() ==> (#[trigger] z.tabs[j]) == (TabView {
                name: z.tabs[j].name,
                ..w.sessions[i].tabs[j]
            }),
    ensures
        (World { sessions: w.sessions.update(i, z), ..w }).ok(),
{
    let s = w.sessions[i];
    let v = w.sessions.update(i, z);
    assert forall|j: int| 0 <= j < z.tabs.len() implies (#[trigger] z.tabs[j]).live() by {
        assert(s.tabs[j].live());
    }
    assert(z.live());
    assert forall|a: int, b: int, p: u64| #[trigger] holds(v, a, b, p) implies holds(
        w.sessions,
        a,
        b,
        p,
    ) by {
        if a == i {
            assert(z.tabs[b] == v[a].tabs[b]);
        }
    }
    lemma_panes_moved(
        w.sessions,
        v,
        w.fresh.pane,
        w.fresh.pane,
        |a: int, b: int| (a, b),
        (i, 0int),
    );
    assert forall|a: int| 0 <= a < v.len() implies (#[trigger] v[a]).id == w.sessions[a].id by {}
}

/// Creating a session keeps the world in order and views the new session.
pub proof fn law_create_ok(w: World, pins: Seq<Seq<char>>, size: (u16, u16), name: Seq<char>)
    requires
        w.ok(),
        w.fresh.room(1),
    ensures
        w.with_created(pins, size, name).ok(),
        w.with_created(pins, size, name).viewing(),
        w.with_created(pins, size, name).session() == SessionView::fresh(name, w.fresh),
{
    let at = place(pins, w.sessions, name);
    crate::sessions::lemma_place(pins, w.sessions, name);
    let x = SessionView::fresh(name, w.fresh);
    let v = w.sessions.insert(at, x);
    let after = (w.fresh.pane + 1) as u64;
    let t = TabView::fresh(crate::model::tab_name(1), w.fresh.pane);
    assert(x.tabs[0] == t);
    assert(t.layout.pane_seq()[0] == w.fresh.pane);
    assert(t.live());
    assert(x.live());
    assert forall|i: int| 0 <= i < v.len() implies (#[trigger] v[i]).live() by {
        if i < at {
            assert(v[i] == w.sessions[i]);
        } else if i > at {
            assert(v[i] == w.sessions[i - 1]);
        }
    }
    let from = |a: int, b: int|
        if a < at {
            (a, b)
        } else if a > at {
            (a - 1, b)
        } else {
            (-1int, b)
        };
    assert forall|a: int, b: int, p: u64| #[trigger] holds(v, a, b, p) implies holds(
        w.sessions,
        from(a, b).0,
        from(a, b).1,
        p,
    ) || (w.fresh.pane <= p < after && (a, b) == (at, 0int)) by {
        if a < at {
            assert(v[a] == w.sessions[a]);
        } else if a > at {
            assert(v[a] == w.sessions[a - 1]);
        } else {
            assert(v[a].tabs[b] == t);
            assert(t.layout.pane_seq().contains(p));
        }
    }
    lemma_panes_moved(w.sessions, v, w.fresh.pane, after, from, (at, 0int));
    assert forall|i: int, j: int|
        0 <= i < v.len() && 0 <= j < v.len() && (#[trigger] v[i]).id == (
        #[trigger] v[j]).id implies i == j by {
        let a = if i < at {
            i
        } else {
            i - 1
        };
        let b = if j < at {
            j
        } else {
            j - 1
        };
        if i != at {
            assert(v[i] == w.sessions[a]);
        }
        if j != at {
            assert(v[j] == w.sessions[b]);
        }
    }
    assert forall|i: int| 0 <= i < v.len() implies (#[trigger] v[i]).id < w.fresh.session + 1 by {
        if i < at {
            assert(v[i] == w.sessions[i]);
        } else if i > at {
            assert(v[i] == w.sessions[i - 1]);
        }
    }
}

/// Dropping a session keeps the world in order.
pub proof fn lemma_drop_session(w: World, at: int, active: int)
    requires
        w.ok(),
        0 <= at < w.sessions.len(),
    ensures
        (World { sessions: w.sessions.remove(at), active, ..w }).ok(),
{
    let v = w.sessions.remove(at);
    let from = |a: int, b: int|
        if a < at {
            (a, b)
        } else {
            (a + 1, b)
        };
    assert forall|i: int| 0 <= i < v.len() implies (#[trigger] v[i]).live() by {
        assert(v[i] == w.sessions[from(i, 0).0]);
    }
    assert forall|a: int, b: int, p: u64| #[trigger] holds(v, a, b, p) implies holds(
        w.sessions,
        from(a, b).0,
        from(a, b).1,
        p,
    ) by {
        assert(v[a] == w.sessions[from(a, b).0]);
    }
    lemma_panes_moved(w.sessions, v, w.fresh.pane, w.fresh.pane, from, (0int, 0int));
    assert forall|i: int, j: int|
        0 <= i < v.len() && 0 <= j < v.len() && (#[trigger] v[i]).id == (
        #[trigger] v[j]).id implies i == j by {
        assert(v[i] == w.sessions[from(i, 0).0]);
        assert(v[j] == w.sessions[from(j, 0).0]);
    }
    assert forall|i: int| 0 <= i < v.len() implies (#[trigger] v[i]).id < w.fresh.session by {
        assert(v[i] == w.sessions[from(i, 0).0]);
    }
}

/// Dropping a tab of several keeps the world in order.
pub proof fn lemma_drop_tab(w: World, i: int, at: int, z: SessionView)
    requires
        w.ok(),
        0 <= i < w.sessions.len(),
        0 <= at < w.sessions[i].tabs.len(),
        z.id == w.sessions[i].id,
        z.tabs == w.sessions[i].tabs.remove(at),
        z.active_tab < z.tabs.len(),
    ensures
        (World { sessions: w.sessions.update(i, z), ..w }).ok(),
{
    let s = w.sessions[i];
    let v = w.sessions.update(i, z);
    let from = |a: int, b: int|
        if a != i || b < at {
            (a, b)
        } else {
            (a, b + 1)
        };
    assert forall|j: int| 0 <= j < z.tabs.len() implies (#[trigger] z.tabs[j]).live() by {
        assert(z.tabs[j] == s.tabs[from(i, j).1]);
    }
    assert(z.live());
    assert forall|a: int, b: int, p: u64| #[trigger] holds(v, a, b, p) implies holds(
        w.sessions,
        from(a, b).0,
        from(a, b).1,
        p,
    ) by {
        if a == i {
            assert(z.tabs[b] == s.tabs[from(a, b).1]);
        }
    }
    lemma_panes_moved(w.sessions, v, w.fresh.pane, w.fresh.pane, from, (0int, 0int));
    assert forall|a: int| 0 <= a < v.len() implies (#[trigger] v[a]).id == w.sessions[a].id by {}
}

/// Adding a new tab keeps the world in order.
pub proof fn lemma_add_tab(w: World, i: int, name: Seq<char>, z: SessionView)
    requires
        w.ok(),
        w.fresh.room(1),
        0 <= i < w.sessions.len(),
        z.id == w.sessions[i].id,
        z.tabs == w.sessions[i].tabs.push(TabView::fresh(name, w.fresh.pane)),
        z.active_tab < z.tabs.len() <= usize::MAX,
    ensures
        (World { sessions: w.sessions.update(i, z), fresh: w.fresh.after_pane(), ..w }).ok(),
{
    let s = w.sessions[i];
    let v = w.sessions.update(i, z);
    let n = s.tabs.len() as int;
    let t = TabView::fresh(name, w.fresh.pane);
    let after = (w.fresh.pane + 1) as u64;
    assert(t.layout.pane_seq()[0] == w.fresh.pane);
    assert(t.live());
    assert forall|j: int| 0 <= j < z.tabs.len() implies (#[trigger] z.tabs[j]).live() by {
        if j < n {
            assert(z.tabs[j] == s.tabs[j]);
        }
    }
    assert(z.live());
    assert forall|a: int, b: int, p: u64| #[trigger] holds(v, a, b, p) implies holds(
        w.sessions,
        a,
        b,
        p,
    ) || (w.fresh.pane <= p < after && (a, b) == (i, n)) by {
        if a == i {
            if b < n {
                assert(z.tabs[b] == s.tabs[b]);
            } else {
                assert(t.layout.pane_seq().contains(p));
            }
        }
    }
    lemma_panes_moved(w.sessions, v, w.fresh.pane, after, |a: int, b: int| (a, b), (i, n));
    assert forall|a: int| 0 <= a < v.len() implies (#[trigger] v[a]).id == w.sessions[a].id by {}
}

} // verus!
