//! What the server's rounds keep: sessions stay in order and have at most one
//! client each, whatever clients ask for and whatever becomes of the shells.

use crate::clients::ClientView;
use crate::config::{ActionView, BindingView, InputAction};
use crate::input::{handled, law_input_ok, selection_ok, ModeView};
use crate::keys::{chord_at, law_control_chord_swallowed};
use crate::model::{law_remove_live, Fresh, SessionView, TabView};
use crate::render::content;
use crate::server::{
    after_input, all_marked, attached_by_name, cleaned, drained, homeless, input_seen,
    kept_sessions, kept_tabs, lemma_fewer_served, lemma_kept_tabs_len, lemma_rehomed_len,
    lemma_seating_one, listed, marked, one_per_session, pruned, refit_requests, refreshed, rehomed,
    resized, resized_hub, settled_view, swept_client, with_rehomed, Hub, Seats,
};
use crate::sessions::{named_from, place, resorted, with_id_from};
use crate::world::{all_live, holds, ids_apart, law_create_ok, panes_apart, World};
use vstd::prelude::*;

pub mod cells;
pub mod chords;
pub mod drawing;
pub mod geometry;
pub mod lists;
pub mod managers;
pub mod pointing;
pub mod serving;
pub mod texts;

verus! {

/// The sessions of a hub are in order.
pub open spec fn in_order(s: Seq<SessionView>, fresh: Fresh) -> bool {
    all_live(s) && ids_apart(s, fresh.session) && panes_apart(s, fresh.pane)
}

/// A session that may have lost panes: each tab is live or has no panes.
pub open spec fn worn(s: SessionView) -> bool {
    &&& s.active_tab < s.tabs.len() <= usize::MAX
    &&& forall|j: int|
        0 <= j < s.tabs.len() ==> (#[trigger] s.tabs[j]).live() || s.tabs[j].layout is Empty
}

/// Sessions that may have lost panes.
pub open spec fn all_worn(s: Seq<SessionView>, fresh: Fresh) -> bool {
    &&& forall|i: int| 0 <= i < s.len() ==> worn(#[trigger] s[i])
    &&& ids_apart(s, fresh.session)
    &&& panes_apart(s, fresh.pane)
}

/// Attaching keeps the sessions in order.
pub proof fn law_attach_in_order(
    h: Hub,
    ci: int,
    cols: u16,
    rows: u16,
    name: Seq<char>,
    pins: Seq<Seq<char>>,
)
    requires
        in_order(h.sessions, h.fresh),
        h.fresh.room(1),
    ensures
        ({
            let after = attached_by_name(h, ci, cols, rows, name, pins);
            in_order(after.sessions, after.fresh)
        }),
{
    let w = World { sessions: h.sessions, active: 0, fresh: h.fresh, fx: h.fx };
    law_create_ok(w, pins, (0, 0), name);
}

/// A client's keys keep the sessions in order.
pub proof fn law_input_in_order(
    h: Hub,
    ci: int,
    active: int,
    keys: Seq<u8>,
    copied: Option<Seq<char>>,
    pins: Seq<Seq<char>>,
    chords: Seq<BindingView>,
)
    requires
        in_order(h.sessions, h.fresh),
        crate::config::chords_ok(chords),
        h.fresh.room(keys.len() + 1),
        0 <= ci < h.clients.len(),
        0 <= active < h.sessions.len(),
        h.sessions[active].tabs.len() < usize::MAX,
        selection_ok(
            h.clients[ci].mode,
            World { sessions: h.sessions, active, fresh: h.fresh, fx: h.fx },
        ),
    ensures
        ({
            let after = after_input(h, ci, active, keys, copied, pins, chords);
            in_order(after.sessions, after.fresh)
        }),
{
    let c = h.clients[ci];
    let w = World { sessions: h.sessions, active, fresh: h.fresh, fx: h.fx };
    law_input_ok(keys, c.mode, c.select, w, content(c.size), pins, chords);
}

/// Reading a shell leaves sessions that at most have lost panes.
pub proof fn law_drain_wears(
    s: Seq<SessionView>,
    fresh: Fresh,
    si: int,
    ti: int,
    pane: u64,
    alive: bool,
    changed: Seq<u64>,
    removed: bool,
)
    requires
        all_worn(s, fresh),
        0 <= si < s.len(),
        0 <= ti < s[si].tabs.len(),
    ensures
        all_worn(drained(s, si, ti, pane, alive, changed, removed).sessions, fresh),
{
    let t = drained(s, si, ti, pane, alive, changed, removed).sessions;
    let x = s[si];
    let tab = x.tabs[ti];
    assert(worn(x));
    if tab.layout.has_pane(pane) && !alive {
        assert(tab.live()) by {
            if tab.layout is Empty {
                assert(tab.layout.pane_seq().len() == 0);
            }
        }
        law_remove_live(tab, pane);
        crate::layout::law_remove_removes(tab.layout, pane);
        let z = t[si];
        assert forall|j: int| 0 <= j < z.tabs.len() implies (#[trigger] z.tabs[j]).live()
            || z.tabs[j].layout is Empty by {
            if j != ti {
                assert(z.tabs[j] == x.tabs[j]);
            }
        }
        assert(worn(z));
        assert forall|i: int| 0 <= i < t.len() implies worn(#[trigger] t[i]) by {
            if i != si {
                assert(t[i] == s[i]);
            }
        }
        assert forall|i: int, j: int, p: u64| #[trigger] holds(t, i, j, p) implies holds(
            s,
            i,
            j,
            p,
        ) by {
            if i == si && j == ti {
                assert(tab.layout.without(pane).has_pane(p));
            }
        }
        assert forall|i: int| 0 <= i < t.len() implies (#[trigger] t[i]).id == s[i].id by {}
    }
}

/// No pane stands in two of these tabs.
spec fn tabs_apart(tabs: Seq<TabView>) -> bool {
    forall|j: int, l: int, p: u64|
        0 <= j < tabs.len() && 0 <= l < tabs.len() && (#[trigger] tabs[j].layout.has_pane(p)) && (
        #[trigger] tabs[l].layout.has_pane(p)) ==> j == l
}

proof fn lemma_kept_tabs(tabs: Seq<TabView>, n: int)
    requires
        0 <= n <= tabs.len(),
        tabs_apart(tabs),
        forall|j: int|
            0 <= j < tabs.len() ==> (#[trigger] tabs[j]).live() || tabs[j].layout is Empty,
    ensures
        forall|j: int|
            0 <= j < kept_tabs(tabs, n).len() ==> (#[trigger] kept_tabs(tabs, n)[j]).live(),
        forall|j: int, p: u64|
            0 <= j < kept_tabs(tabs, n).len() && (#[trigger] kept_tabs(
                tabs,
                n,
            )[j].layout.has_pane(p)) ==> exists|b: int|
                0 <= b < n && (#[trigger] tabs[b]).layout.has_pane(p),
        tabs_apart(kept_tabs(tabs, n)),
    decreases n,
{
    if n > 0 {
        lemma_kept_tabs(tabs, n - 1);
        let before = kept_tabs(tabs, n - 1);
        let after = kept_tabs(tabs, n);
        if !(tabs[n - 1].layout is Empty) {
            let m = before.len() as int;
            assert(after[m] == tabs[n - 1]);
            assert forall|j: int| 0 <= j < after.len() implies (#[trigger] after[j]).live() by {
                if j < m {
                    assert(after[j] == before[j]);
                }
            }
            assert forall|j: int, p: u64|
                0 <= j < after.len() && (#[trigger] after[j].layout.has_pane(p)) implies exists|
                b: int,
            | 0 <= b < n && (#[trigger] tabs[b]).layout.has_pane(p) by {
                if j < m {
                    assert(after[j] == before[j]);
                    let b = choose|b: int|
                        0 <= b < n - 1 && (#[trigger] tabs[b]).layout.has_pane(p);
                    assert(tabs[b].layout.has_pane(p));
                } else {
                    assert(tabs[n - 1].layout.has_pane(p));
                }
            }
            assert forall|j: int, l: int, p: u64|
                0 <= j < after.len() && 0 <= l < after.len() && (
                #[trigger] after[j].layout.has_pane(p)) && (
                #[trigger] after[l].layout.has_pane(p)) implies j == l by {
                if j < m {
                    assert(after[j] == before[j]);
                }
                if l < m {
                    assert(after[l] == before[l]);
                }
                if j < m && l == m {
                    let b = choose|b: int|
                        0 <= b < n - 1 && (#[trigger] tabs[b]).layout.has_pane(p);
                    assert(tabs[n - 1].layout.has_pane(p));
                }
                if l < m && j == m {
                    let b = choose|b: int|
                        0 <= b < n - 1 && (#[trigger] tabs[b]).layout.has_pane(p);
                    assert(tabs[n - 1].layout.has_pane(p));
                }
            }
        }
    }
}

/// Pruning a session that kept a pane makes it live.
proof fn lemma_pruned_live(s: SessionView)
    requires
        worn(s),
        tabs_apart(s.tabs),
        pruned(s).tabs.len() > 0,
    ensures
        pruned(s).live(),
        tabs_apart(pruned(s).tabs),
{
    lemma_kept_tabs(s.tabs, s.tabs.len() as int);
    lemma_kept_tabs_len(s.tabs, s.active_tab as int, s.tabs.len() as int);
}

proof fn lemma_session_tabs_apart(s: Seq<SessionView>, next: u64, i: int)
    requires
        panes_apart(s, next),
        0 <= i < s.len(),
    ensures
        tabs_apart(s[i].tabs),
{
    assert forall|j: int, l: int, p: u64|
        0 <= j < s[i].tabs.len() && 0 <= l < s[i].tabs.len() && (
        #[trigger] s[i].tabs[j].layout.has_pane(p)) && (
        #[trigger] s[i].tabs[l].layout.has_pane(p)) implies j == l by {
        assert(holds(s, i, j, p));
        assert(holds(s, i, l, p));
    }
}

/// A kept session comes from one among the first `n`.
spec fn comes_from(s: Seq<SessionView>, n: int, x: SessionView) -> bool {
    exists|a: int| 0 <= a < n && #[trigger] pruned(s[a]) == x && x.tabs.len() > 0
}

proof fn lemma_kept_sessions(s: Seq<SessionView>, fresh: Fresh, n: int)
    requires
        all_worn(s, fresh),
        0 <= n <= s.len(),
    ensures
        in_order(kept_sessions(s, n), fresh),
        forall|i: int|
            0 <= i < kept_sessions(s, n).len() ==> comes_from(
                s,
                n,
                #[trigger] kept_sessions(s, n)[i],
            ),
    decreases n,
{
    if n > 0 {
        lemma_kept_sessions(s, fresh, n - 1);
        let before = kept_sessions(s, n - 1);
        let after = kept_sessions(s, n);
        let m = before.len() as int;
        let x = pruned(s[n - 1]);
        assert forall|i: int| 0 <= i < m implies comes_from(s, n, #[trigger] before[i]) by {
            assert(comes_from(s, n - 1, before[i]));
            let a = choose|a: int|
                0 <= a < n - 1 && #[trigger] pruned(s[a]) == before[i] && before[i].tabs.len()
                    > 0;
            assert(pruned(s[a]) == before[i]);
        }
        if x.tabs.len() > 0 {
            lemma_session_tabs_apart(s, fresh.pane, n - 1);
            lemma_pruned_live(s[n - 1]);
            lemma_kept_tabs(s[n - 1].tabs, s[n - 1].tabs.len() as int);
            assert(after[m] == x);
            assert(comes_from(s, n, x));
            assert forall|i: int| 0 <= i < after.len() implies comes_from(
                s,
                n,
                #[trigger] after[i],
            ) && after[i].live() && after[i].id < fresh.session by {
                if i < m {
                    assert(after[i] == before[i]);
                }
            }
            assert forall|i: int, j: int|
                0 <= i < after.len() && 0 <= j < after.len() && (#[trigger] after[i]).id == (
                #[trigger] after[j]).id implies i == j by {
                if i < m {
                    assert(after[i] == before[i]);
                    lemma_older(s, fresh, n, before[i]);
                }
                if j < m {
                    assert(after[j] == before[j]);
                    lemma_older(s, fresh, n, before[j]);
                }
            }
            assert forall|i: int, j: int, p: u64| #[trigger] holds(after, i, j, p) implies p
                < fresh.pane by {
                if i < m {
                    assert(holds(before, i, j, p));
                } else {
                    let b = choose|b: int|
                        0 <= b < s[n - 1].tabs.len() && (
                        #[trigger] s[n - 1].tabs[b]).layout.has_pane(p);
                    assert(holds(s, n - 1, b, p));
                }
            }
            assert forall|i: int, j: int, k: int, l: int, p: u64| #[trigger]
                holds(after, i, j, p) && #[trigger] holds(after, k, l, p) implies i == k && j
                == l by {
                if i < m {
                    assert(holds(before, i, j, p));
                    lemma_older(s, fresh, n, before[i]);
                }
                if k < m {
                    assert(holds(before, k, l, p));
                    lemma_older(s, fresh, n, before[k]);
                }
                if i == m && k < m {
                    assert(x.tabs[j].layout.has_pane(p));
                    lemma_pane_origin(s, n - 1, j, p);
                    assert(before[k].tabs[l].layout.has_pane(p));
                }
                if k == m && i < m {
                    assert(x.tabs[l].layout.has_pane(p));
                    lemma_pane_origin(s, n - 1, l, p);
                    assert(before[i].tabs[j].layout.has_pane(p));
                }
                if i == m && k == m {
                    assert(x.tabs[j].layout.has_pane(p));
                    assert(x.tabs[l].layout.has_pane(p));
                }
            }
        }
    }
}

/// A pane of a pruned session is a pane of the session.
proof fn lemma_pane_origin(s: Seq<SessionView>, a: int, j: int, p: u64)
    requires
        0 <= a < s.len(),
        worn(s[a]),
        tabs_apart(s[a].tabs),
        0 <= j < pruned(s[a]).tabs.len(),
        pruned(s[a]).tabs[j].layout.has_pane(p),
    ensures
        exists|b: int| #[trigger] holds(s, a, b, p),
{
    lemma_kept_tabs(s[a].tabs, s[a].tabs.len() as int);
    let b = choose|b: int|
        0 <= b < s[a].tabs.len() && (#[trigger] s[a].tabs[b]).layout.has_pane(p);
    assert(holds(s, a, b, p));
}

/// An earlier kept session shares neither its id nor a pane with session
/// `n - 1`.
proof fn lemma_older(s: Seq<SessionView>, fresh: Fresh, n: int, x: SessionView)
    requires
        all_worn(s, fresh),
        0 < n <= s.len(),
        comes_from(s, n - 1, x),
    ensures
        x.id != s[n - 1].id,
        forall|j: int, b: int, p: u64|
            0 <= j < x.tabs.len() && (#[trigger] x.tabs[j].layout.has_pane(p)) ==> !(
            #[trigger] holds(s, n - 1, b, p)),
{
    let a = choose|a: int| 0 <= a < n - 1 && #[trigger] pruned(s[a]) == x && x.tabs.len() > 0;
    assert(s[a].id == x.id);
    lemma_session_tabs_apart(s, fresh.pane, a);
    assert forall|j: int, b: int, p: u64|
        0 <= j < x.tabs.len() && (#[trigger] x.tabs[j].layout.has_pane(p)) implies !(
    #[trigger] holds(s, n - 1, b, p)) by {
        lemma_pane_origin(s, a, j, p);
        let c = choose|c: int| #[trigger] holds(s, a, c, p);
        assert(holds(s, a, c, p));
    }
}

/// Cleaning up after shells have exited puts the sessions in order again: no
/// empty tab and no session without tabs is left.
pub proof fn law_sweep_restores_order(s: Seq<SessionView>, fresh: Fresh)
    requires
        all_worn(s, fresh),
    ensures
        in_order(kept_sessions(s, s.len() as int), fresh),
{
    lemma_kept_sessions(s, fresh, s.len() as int);
}

/// Sessions in order have lost nothing.
pub proof fn law_in_order_worn(s: Seq<SessionView>, fresh: Fresh)
    requires
        in_order(s, fresh),
    ensures
        all_worn(s, fresh),
{
    assert forall|i: int| 0 <= i < s.len() implies worn(#[trigger] s[i]) by {
        assert(s[i].live());
    }
}

/// A reload that reorders the sessions keeps them in order.
pub proof fn law_reload_in_order(
    pins: Seq<Seq<char>>,
    old_s: Seq<SessionView>,
    new_s: Seq<SessionView>,
    fresh: Fresh,
)
    requires
        in_order(old_s, fresh),
        resorted(pins, old_s, new_s),
    ensures
        in_order(new_s, fresh),
{
    broadcast use vstd::seq_lib::group_to_multiset_ensures;

    assert(old_s.no_duplicates()) by {
        assert forall|i: int, j: int|
            0 <= i < old_s.len() && 0 <= j < old_s.len() && i != j implies old_s[i]
            != old_s[j] by {
            if old_s[i] == old_s[j] {
                assert(old_s[i].id == old_s[j].id);
            }
        }
    }
    old_s.lemma_multiset_has_no_duplicates();
    new_s.lemma_multiset_has_no_duplicates_conv();
    assert forall|i: int| 0 <= i < new_s.len() implies old_s.contains(#[trigger] new_s[i]) by {
        assert(new_s.contains(new_s[i]));
        assert(new_s.to_multiset().count(new_s[i]) > 0);
    }
    assert forall|i: int| 0 <= i < new_s.len() implies (#[trigger] new_s[i]).live()
        && new_s[i].id < fresh.session by {
        assert(old_s.contains(new_s[i]));
        let a = choose|a: int| 0 <= a < old_s.len() && old_s[a] == new_s[i];
        assert(old_s[a].live());
    }
    assert forall|i: int, j: int|
        0 <= i < new_s.len() && 0 <= j < new_s.len() && (#[trigger] new_s[i]).id == (
        #[trigger] new_s[j]).id implies i == j by {
        assert(old_s.contains(new_s[i]) && old_s.contains(new_s[j]));
        let a = choose|a: int| 0 <= a < old_s.len() && old_s[a] == new_s[i];
        let b = choose|b: int| 0 <= b < old_s.len() && old_s[b] == new_s[j];
        assert(old_s[a].id == old_s[b].id);
        assert(new_s[i] == new_s[j]);
    }
    assert forall|i: int, j: int, p: u64| #[trigger] holds(new_s, i, j, p) implies p
        < fresh.pane by {
        assert(old_s.contains(new_s[i]));
        let a = choose|a: int| 0 <= a < old_s.len() && old_s[a] == new_s[i];
        assert(holds(old_s, a, j, p));
    }
    assert forall|i: int, j: int, k: int, l: int, p: u64| #[trigger]
        holds(new_s, i, j, p) && #[trigger] holds(new_s, k, l, p) implies i == k && j == l by {
        assert(old_s.contains(new_s[i]) && old_s.contains(new_s[k]));
        let a = choose|a: int| 0 <= a < old_s.len() && old_s[a] == new_s[i];
        let b = choose|b: int| 0 <= b < old_s.len() && old_s[b] == new_s[k];
        assert(holds(old_s, a, j, p));
        assert(holds(old_s, b, l, p));
        assert(new_s[i] == new_s[k]);
    }
}

/// Attaching by name leaves at most one client on each session where there
/// was at most one before, and the attaching client is on its own.
pub proof fn law_attach_one_per_session(
    h: Hub,
    ci: int,
    cols: u16,
    rows: u16,
    name: Seq<char>,
    pins: Seq<Seq<char>>,
)
    requires
        0 <= ci < h.clients.len(),
        one_per_session(h.clients),
    ensures
        one_per_session(attached_by_name(h, ci, cols, rows, name, pins).clients),
{
    let c = resized(h.clients[ci], cols, rows);
    let sized = h.clients.update(ci, c);
    lemma_fewer_served(h.clients, sized);
    let after = attached_by_name(h, ci, cols, rows, name, pins);
    match named_from(h.sessions, name, 0) {
        Some(si) => lemma_seating_one(sized, ci, h.sessions[si].id),
        None => lemma_seating_one(
            sized,
            ci,
            after.sessions[place(pins, h.sessions, name)].id,
        ),
    }
}

/// Rehoming the first `n` clients, one after another, leaves at most one
/// client on each session, and none of these clients homeless.
pub proof fn lemma_rehomed(p: Seats, s: Seq<SessionView>, n: int)
    requires
        0 <= n <= p.clients.len(),
    ensures
        rehomed(p, s, n).clients.len() == p.clients.len(),
        one_per_session(p.clients) ==> one_per_session(rehomed(p, s, n).clients),
        forall|j: int|
            0 <= j < n ==> !homeless(#[trigger] rehomed(p, s, n).clients[j], s),
    decreases n,
{
    if n > 0 {
        lemma_rehomed(p, s, n - 1);
        let before = rehomed(p, s, n - 1);
        let after = rehomed(p, s, n);
        let ci = n - 1;
        let c = before.clients[ci];
        if homeless(c, s) {
            if s.len() == 0 {
                if one_per_session(p.clients) {
                    lemma_fewer_served(before.clients, after.clients);
                }
            } else {
                let running = before.clients.update(
                    ci,
                    ClientView { mode: ModeView::Running, ..c },
                );
                if one_per_session(p.clients) {
                    lemma_fewer_served(before.clients, running);
                    lemma_seating_one(running, ci, s[0].id);
                }
                assert(with_id_from(s, s[0].id, 0) == Some(0int));
            }
            assert forall|j: int| 0 <= j < n implies !homeless(
                #[trigger] after.clients[j],
                s,
            ) by {
                if j < ci {
                    assert(!homeless(before.clients[j], s));
                }
            }
        }
    }
}

/// Rehoming leaves at most one client on each session where there was at
/// most one before, and no served client is left without its session: each
/// that is attached views a session that there is.
pub proof fn law_rehome_one_per_session(h: Hub)
    ensures
        one_per_session(h.clients) ==> one_per_session(with_rehomed(h).clients),
        forall|j: int|
            0 <= j < with_rehomed(h).clients.len() ==> !homeless(
                #[trigger] with_rehomed(h).clients[j],
                h.sessions,
            ),
{
    lemma_rehomed(
        Seats { clients: h.clients, fx: h.fx },
        h.sessions,
        h.clients.len() as int,
    );
}

/// Cleaning up after shells have exited leaves at most one client on each
/// session where there was at most one before, and no served client without
/// its session.
pub proof fn law_clean_up_one_per_session(p: Seats, s: Seq<SessionView>)
    ensures
        one_per_session(p.clients) ==> one_per_session(cleaned(p, s).clients),
        forall|j: int|
            0 <= j < cleaned(p, s).clients.len() ==> !homeless(
                #[trigger] cleaned(p, s).clients[j],
                s,
            ),
{
    let c = p.clients.map_values(|c: ClientView| swept_client(c, s));
    if one_per_session(p.clients) {
        lemma_fewer_served(p.clients, c);
    }
    let n = c.len() as int;
    lemma_rehomed(Seats { clients: c, fx: p.fx + refit_requests(c, s, n) }, s, n);
}

/// A client's input leaves at most one client on each session where there
/// was at most one before, whatever it switches to or kills, and no served
/// client without its session.
pub proof fn law_input_one_per_session(
    h: Hub,
    ci: int,
    active: int,
    keys: Seq<u8>,
    copied: Option<Seq<char>>,
    pins: Seq<Seq<char>>,
    chords: Seq<BindingView>,
)
    requires
        0 <= ci < h.clients.len(),
    ensures
        ({
            let after = after_input(h, ci, active, keys, copied, pins, chords);
            &&& one_per_session(h.clients) ==> one_per_session(after.clients)
            &&& forall|j: int|
                0 <= j < after.clients.len() ==> !homeless(
                    #[trigger] after.clients[j],
                    after.sessions,
                )
        }),
{
    let c = h.clients[ci];
    let w = World { sessions: h.sessions, active, fresh: h.fresh, fx: h.fx };
    let r = handled(keys, c.mode, c.select, w, content(c.size), pins, chords);
    let seen = Hub {
        clients: h.clients.update(ci, input_seen(c, r.mode, keys, copied)),
        sessions: r.world.sessions,
        fresh: r.world.fresh,
        fx: r.world.fx,
    };
    let id = h.sessions[active].id;
    let settled = settled_view(seen, ci, r.world.active, id, r.detach);
    let placed = with_rehomed(settled);
    if one_per_session(h.clients) {
        lemma_fewer_served(h.clients, seen.clients);
        if r.detach || seen.sessions.len() == 0 {
            lemma_fewer_served(seen.clients, settled.clients);
        } else {
            let at = if r.world.active < seen.sessions.len() {
                r.world.active
            } else {
                seen.sessions.len() - 1
            };
            if seen.sessions[at].id != id {
                lemma_seating_one(seen.clients, ci, seen.sessions[at].id);
            }
        }
    }
    law_rehome_one_per_session(settled);
    lemma_rehomed_len(
        Seats { clients: settled.clients, fx: settled.fx },
        settled.sessions,
        settled.clients.len() as int,
    );
    let all = all_marked(placed);
    if one_per_session(placed.clients) {
        lemma_fewer_served(placed.clients, all.clients);
    }
    assert forall|j: int| 0 <= j < all.clients.len() implies !homeless(
        #[trigger] all.clients[j],
        seen.sessions,
    ) by {
        assert(!homeless(placed.clients[j], seen.sessions));
    }
}

/// A reload leaves at most one client on each session where there was at
/// most one before.
pub proof fn law_reload_one_per_session(c: Seq<ClientView>)
    requires
        one_per_session(c),
    ensures
        one_per_session(c.map_values(|c: ClientView| marked(c))),
{
    lemma_fewer_served(c, c.map_values(|c: ClientView| marked(c)));
}

/// Whatever else happens in a round leaves at most one client on each
/// session where there was at most one before: a client that announces a new
/// size, is answered with a listing or breaks off, the redraws after output,
/// and a new connection.
pub proof fn law_round_one_per_session(
    h: Hub,
    ci: int,
    cols: u16,
    rows: u16,
    listing: Seq<char>,
    changed: Seq<u64>,
)
    requires
        0 <= ci < h.clients.len(),
        one_per_session(h.clients),
    ensures
        one_per_session(resized_hub(h, ci, cols, rows).clients),
        one_per_session(h.with_client(ci, listed(h.clients[ci], listing)).clients),
        one_per_session(h.with_client(ci, ClientView { dead: true, ..h.clients[ci] }).clients),
        one_per_session(h.clients.map_values(|c: ClientView| refreshed(c, changed))),
        one_per_session(h.clients.push(ClientView::fresh())),
{
    let c = h.clients[ci];
    lemma_fewer_served(h.clients, resized_hub(h, ci, cols, rows).clients);
    lemma_fewer_served(h.clients, h.clients.update(ci, listed(c, listing)));
    lemma_fewer_served(h.clients, h.clients.update(ci, ClientView { dead: true, ..c }));
    lemma_fewer_served(h.clients, h.clients.map_values(|c: ClientView| refreshed(c, changed)));
    let more = h.clients.push(ClientView::fresh());
    assert forall|i: int, j: int|
        0 <= i < more.len() && 0 <= j < more.len() && (#[trigger] more[i]).served() && (
        #[trigger] more[j]).served() && more[i].attached is Some && more[i].attached
            == more[j].attached implies i == j by {
        assert(i < h.clients.len() && j < h.clients.len());
        assert(more[i] == h.clients[i] && more[j] == h.clients[j]);
    }
}

/// Detaching leaves the sessions running: the chord changes no session and
/// closes the client that typed it.
pub proof fn law_detach_keeps_sessions(
    h: Hub,
    ci: int,
    active: int,
    keys: Seq<u8>,
    pins: Seq<Seq<char>>,
    chords: Seq<BindingView>,
    k: int,
)
    requires
        0 <= ci < h.clients.len(),
        h.clients[ci].mode is Running,
        keys.len() > 0,
        chord_at(chords, keys, 0, 0) == Some(k),
        chords[k].action == ActionView::Control(InputAction::Detach),
    ensures
        ({
            let after = after_input(h, ci, active, keys, None, pins, chords);
            &&& after.sessions == h.sessions
            &&& after.fresh == h.fresh
            &&& after.clients[ci].closing
        }),
{
    law_control_chord_swallowed(chords, keys, 0, k, InputAction::Detach);
    let c = h.clients[ci];
    let w = World { sessions: h.sessions, active, fresh: h.fresh, fx: h.fx };
    let r = handled(keys, c.mode, c.select, w, content(c.size), pins, chords);
    let seen = Hub {
        clients: h.clients.update(ci, input_seen(c, r.mode, keys, None)),
        sessions: r.world.sessions,
        fresh: r.world.fresh,
        fx: r.world.fx,
    };
    let settled = settled_view(seen, ci, r.world.active, h.sessions[active].id, true);
    lemma_rehomed_len(
        Seats { clients: settled.clients, fx: settled.fx },
        settled.sessions,
        settled.clients.len() as int,
    );
    assert(settled.clients[ci].closing);
    assert(with_rehomed(settled).clients[ci] == settled.clients[ci]);
}

} // verus!
