//! What the control chords do to the viewed session.

use crate::config::InputAction;
use crate::effect::{effects, Effect, EffectView};
use crate::layout::{NavDir, SplitDir};
use crate::model::{resizes, Fresh, Session, SessionView, TabView};
use vstd::prelude::*;

verus! {

/// A session after a chord, what the chord asked of its panes, and how many
/// panes it added.
#[verifier::ext_equal]
pub struct Acted {
    pub session: SessionView,
    pub fx: Seq<EffectView>,
    pub added: bool,
}

/// The tab that moving left or right past the edge of the open tab leads
/// to: tabs form one strip, wrapping around.
pub open spec fn next_on_strip(active: usize, count: nat, dir: NavDir) -> usize {
    match dir {
        NavDir::Right => if active + 1 < count {
            (active + 1) as usize
        } else {
            0
        },
        NavDir::Left => if active > 0 {
            (active - 1) as usize
        } else {
            (count - 1) as usize
        },
        _ => active,
    }
}

/// The session with the focus moved past the edge of the open tab.
pub open spec fn crossed(s: SessionView, dir: NavDir, size: (u16, u16)) -> SessionView {
    let t = SessionView { active_tab: next_on_strip(s.active_tab, s.tabs.len(), dir), ..s };
    match dir {
        NavDir::Right => t.with_tab(t.tab().with_focus_edge(NavDir::Left, size)),
        NavDir::Left => t.with_tab(t.tab().with_focus_edge(NavDir::Right, size)),
        _ => s,
    }
}

/// What a chord does to the viewed session; `new` is the next pane.
pub open spec fn acted_on(
    s: SessionView,
    action: InputAction,
    size: (u16, u16),
    new: u64,
) -> Acted {
    let tab = s.tab();
    let plain = tab.with_zoom(false);
    match action {
        InputAction::Fullscreen => {
            let t = tab.with_zoom(!tab.zoomed);
            Acted { session: s.with_tab(t), fx: resizes(t.visible(size), true), added: false }
        },
        InputAction::SplitH => Acted {
            session: s.with_tab(plain.with_split(SplitDir::Horizontal, new)),
            fx: resizes(plain.visible(size), true) + plain.split_requests(
                SplitDir::Horizontal,
                size,
                new,
            ),
            added: true,
        },
        InputAction::SplitV => Acted {
            session: s.with_tab(plain.with_split(SplitDir::Vertical, new)),
            fx: resizes(plain.visible(size), true) + plain.split_requests(
                SplitDir::Vertical,
                size,
                new,
            ),
            added: true,
        },
        InputAction::FocusNext => Acted {
            session: s.with_tab(plain.with_focus_next()),
            fx: resizes(plain.visible(size), false),
            added: false,
        },
        InputAction::FocusDir(dir) => Acted {
            session: if plain.neighbor(dir, size) is Some {
                s.with_tab(plain.with_focus_dir(dir, size))
            } else {
                crossed(s.with_tab(plain), dir, size)
            },
            fx: resizes(plain.visible(size), true),
            added: false,
        },
        _ => Acted { session: s, fx: Seq::empty(), added: false },
    }
}

/// Apply a chord to the viewed session.
pub fn act(
    session: &mut Session,
    action: InputAction,
    size: (u16, u16),
    fresh: &mut Fresh,
    fx: &mut Vec<Effect>,
)
    requires
        old(session)@.active_tab < old(session)@.tabs.len(),
        old(fresh).room(1),
    ensures
        ({
            let r = acted_on(old(session)@, action, size, old(fresh).pane);
            &&& final(session)@ == r.session
            &&& effects(final(fx)@) == effects(old(fx)@) + r.fx
            &&& *final(fresh) == if r.added {
                old(fresh).after_pane()
            } else {
                *old(fresh)
            }
        }),
{
    let ghost s = session@;
    let ghost r = acted_on(s, action, size, fresh.pane);
    let ghost asked = effects(fx@);
    let at: usize = session.active_tab;
    assert(s.tab() == session.tabs@[at as int]@);
    match action {
        InputAction::Fullscreen => {
            let zoomed: bool = session.tabs[at].zoomed;
            session.tabs[at].set_zoom(!zoomed, size, true, fx);
            assert(session@ =~= r.session);
        },
        InputAction::SplitH | InputAction::SplitV => {
            let dir: SplitDir = match action {
                InputAction::SplitH => SplitDir::Horizontal,
                _ => SplitDir::Vertical,
            };
            session.tabs[at].set_zoom(false, size, true, fx);
            assert(session@ =~= s.with_tab(s.tab().with_zoom(false)));
            session.tabs[at].split(dir, size, fresh, fx);
            assert(session@ =~= r.session);
            assert(effects(fx@) =~= asked + r.fx);
        },
        InputAction::FocusNext => {
            session.tabs[at].set_zoom(false, size, false, fx);
            session.tabs[at].focus_next();
            assert(session@ =~= r.session);
        },
        InputAction::FocusDir(dir) => {
            session.tabs[at].set_zoom(false, size, true, fx);
            let moved: bool = session.tabs[at].focus_dir(dir, size);
            // At the tab's edge, left/right jump to the neighboring tab
            // (wrapping) and land on the pane nearest the edge we came in
            // over.
            if !moved {
                assert(session@ =~= s.with_tab(s.tab().with_zoom(false)));
                cross(session, dir, size);
            }
            assert(session@ =~= r.session);
        },
        _ => {
            assert(effects(fx@) =~= asked + r.fx);
        },
    }
}

fn cross(session: &mut Session, dir: NavDir, size: (u16, u16))
    requires
        old(session)@.active_tab < old(session)@.tabs.len(),
    ensures
        final(session)@ == crossed(old(session)@, dir, size),
{
    let ghost s = session@;
    let count: usize = session.tabs.len();
    let at: usize = session.active_tab;
    match dir {
        NavDir::Right => {
            let to: usize = if at < count - 1 {
                at + 1
            } else {
                0
            };
            session.active_tab = to;
            session.tabs[to].focus_edge(NavDir::Left, size);
            assert(session@ =~= crossed(s, dir, size));
        },
        NavDir::Left => {
            let to: usize = if at > 0 {
                at - 1
            } else {
                count - 1
            };
            session.active_tab = to;
            session.tabs[to].focus_edge(NavDir::Right, size);
            assert(session@ =~= crossed(s, dir, size));
        },
        NavDir::Up => {},
        NavDir::Down => {},
    }
}

/// Left and right cross tab boundaries, wrapping: going right past the edge
/// and then left past the edge (or the other way round) comes back to the
/// same tab; each step is a step modulo the number of tabs.
pub proof fn law_tabs_form_a_strip(active: usize, count: nat)
    requires
        active < count <= usize::MAX,
    ensures
        next_on_strip(active, count, NavDir::Right) < count,
        next_on_strip(active, count, NavDir::Left) < count,
        next_on_strip(active, count, NavDir::Right) == (active + 1) % count as int,
        next_on_strip(active, count, NavDir::Left) == (active + count - 1) % count as int,
        next_on_strip(next_on_strip(active, count, NavDir::Right), count, NavDir::Left) == active,
        next_on_strip(next_on_strip(active, count, NavDir::Left), count, NavDir::Right) == active,
{
    let n = count as int;
    assert((active + 1) % n == if active + 1 < n {
        active + 1
    } else {
        0
    }) by (nonlinear_arith)
        requires
            0 <= active < n,
    ;
    assert((active + n - 1) % n == if active > 0 {
        active - 1
    } else {
        n - 1
    }) by (nonlinear_arith)
        requires
            0 <= active < n,
    ;
}

/// The tab after `k` steps along the strip.
pub open spec fn stepped(active: usize, count: nat, dir: NavDir, k: nat) -> usize
    decreases k,
{
    if k == 0 {
        active
    } else {
        next_on_strip(stepped(active, count, dir, (k - 1) as nat), count, dir)
    }
}

/// Steps along the strip wrap around: `k` steps right go `k` tabs on, `k`
/// steps left go `k` tabs back, modulo the number of tabs, and one undoes the
/// other.
pub proof fn law_strip_steps(active: usize, count: nat, k: nat)
    requires
        active < count <= usize::MAX,
    ensures
        stepped(active, count, NavDir::Right, k) < count,
        stepped(active, count, NavDir::Left, k) < count,
        stepped(active, count, NavDir::Right, k) == (active + k) % count as int,
        stepped(active, count, NavDir::Left, k) == (active + count * k - k) % count as int,
        stepped(stepped(active, count, NavDir::Right, k), count, NavDir::Left, k) == active,
        stepped(stepped(active, count, NavDir::Left, k), count, NavDir::Right, k) == active,
{
    let n = count as int;
    lemma_stepped(active, count, k);
    let right = stepped(active, count, NavDir::Right, k);
    let left = stepped(active, count, NavDir::Left, k);
    lemma_stepped(right, count, k);
    lemma_stepped(left, count, k);
    let a = active as int;
    assert(a % n == a) by (nonlinear_arith)
        requires
            0 <= a < n,
    ;
    // There and back: (a + k) + (n * k - k) is a multiple of n past a.
    assert((right + (n * k - k)) % n == a) by {
        vstd::arithmetic::div_mod::lemma_add_mod_noop_right(n * k - k, a + k, n);
        assert(a + k + (n * k - k) == n * k + a);
        vstd::arithmetic::div_mod::lemma_mod_multiples_vanish(k as int, a, n);
    }
    assert((left + k) % n == a) by {
        vstd::arithmetic::div_mod::lemma_add_mod_noop_right(k as int, a + n * k - k, n);
        assert(a + n * k - k + k == n * k + a);
        vstd::arithmetic::div_mod::lemma_mod_multiples_vanish(k as int, a, n);
    }
}

proof fn lemma_stepped(active: usize, count: nat, k: nat)
    requires
        active < count <= usize::MAX,
    ensures
        stepped(active, count, NavDir::Right, k) < count,
        stepped(active, count, NavDir::Left, k) < count,
        stepped(active, count, NavDir::Right, k) == (active + k) % count as int,
        stepped(active, count, NavDir::Left, k) == (active + count * k - k) % count as int,
    decreases k,
{
    let n = count as int;
    let a = active as int;
    if k == 0 {
        assert(a % n == a) by (nonlinear_arith)
            requires
                0 <= a < n,
        ;
        assert(count * 0 == 0);
    } else {
        let m = (k - 1) as nat;
        lemma_stepped(active, count, m);
        let right = stepped(active, count, NavDir::Right, m);
        let left = stepped(active, count, NavDir::Left, m);
        law_tabs_form_a_strip(right, count);
        law_tabs_form_a_strip(left, count);
        vstd::arithmetic::div_mod::lemma_add_mod_noop_right(1, a + m, n);
        vstd::arithmetic::div_mod::lemma_add_mod_noop_right(n - 1, a + n * m - m, n);
        assert(n * k == n * m + n) by (nonlinear_arith)
            requires
                k == m + 1,
        ;
    }
}

/// A live tab with one pane.
pub open spec fn one_pane(t: TabView) -> bool {
    t.live() && t.layout.pane_seq().len() == 1
}

/// A session whose tabs all have one pane: its tabs are the strip.
pub open spec fn plain_strip(s: SessionView) -> bool {
    &&& s.active_tab < s.tabs.len() <= usize::MAX
    &&& forall|j: int| 0 <= j < s.tabs.len() ==> one_pane(#[trigger] s.tabs[j])
}

/// With one pane in every tab, moving the focus left or right is a step
/// along the strip.
pub proof fn law_focus_steps(s: SessionView, dir: NavDir, size: (u16, u16), new: u64)
    requires
        plain_strip(s),
        dir is Left || dir is Right,
    ensures
        ({
            let r = acted_on(s, InputAction::FocusDir(dir), size, new);
            &&& r.session.active_tab == next_on_strip(s.active_tab, s.tabs.len(), dir)
            &&& r.session.tabs.len() == s.tabs.len()
            &&& plain_strip(r.session)
            &&& r.session == (SessionView {
                tabs: r.session.tabs,
                active_tab: r.session.active_tab,
                ..s
            })
            &&& !r.added
        }),
{
    let tab = s.tab();
    assert(one_pane(s.tabs[s.active_tab as int]));
    let plain = tab.with_zoom(false);
    let whole = crate::layout::whole(size);
    let rs = plain.layout.rect_seq(whole);
    crate::layout::law_rects_are_panes(plain.layout, whole);
    assert(rs.len() == 1);
    crate::model::lemma_entry_of(rs, plain.focused, 0);
    reveal_with_fuel(crate::model::nearest, 2);
    assert(plain.neighbor(dir, size) is None);
    let z = s.with_tab(plain);
    law_tabs_form_a_strip(s.active_tab, s.tabs.len());
    let y = SessionView { active_tab: next_on_strip(z.active_tab, z.tabs.len(), dir), ..z };
    let back = if dir is Left {
        NavDir::Right
    } else {
        NavDir::Left
    };
    assert(one_pane(y.tab())) by {
        if y.active_tab != s.active_tab {
            assert(y.tab() == s.tabs[y.active_tab as int]);
        }
    }
    crate::model::law_focus_live(y.tab(), back, size);
    let after = crossed(z, dir, size);
    assert forall|j: int| 0 <= j < after.tabs.len() implies one_pane(#[trigger] after.tabs[j]) by {
        if j == y.active_tab {
            assert(after.tabs[j] == y.tab().with_focus_edge(back, size));
        } else if j == s.active_tab {
            assert(after.tabs[j] == plain);
        } else {
            assert(after.tabs[j] == s.tabs[j]);
        }
    }
}

} // verus!
