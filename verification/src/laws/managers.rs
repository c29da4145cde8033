//! What the keys of the manager overlays, of the name prompt and of the search
//! do.

use crate::config::{ActionView, BindingView, InputAction, Overlay};
use crate::effect::EffectView;
use crate::input::{
    created, managed, overlaid, prompted, renamed, sought, switched, ModeView, RenameTarget,
};
use crate::keys::{
    manager_applied, manager_chord_at, manager_keys, named, MgrAction, MgrOutcome, NamingOutcome,
};
use crate::model::{SessionView, TabView};
use crate::search::{rows_found, searched, SearchOutcome, Searched};
use crate::sessions::manager_list;
use crate::text::{begins_at, control, trimmed};
use crate::world::World;
use vstd::prelude::*;

verus! {

/// Whether a chord opens a manager.
pub open spec fn opens_manager(a: ActionView) -> bool {
    match a {
        ActionView::Control(InputAction::Manager(_)) => true,
        _ => false,
    }
}

/// Whether a chord that opens a manager stands at the start of `keys`.
pub open spec fn manager_chord_first(b: Seq<BindingView>, keys: Seq<u8>) -> bool {
    exists|k: int|
        0 <= k < b.len() && opens_manager((#[trigger] b[k]).action) && b[k].seq.is_prefix_of(keys)
}

proof fn lemma_manager_chord(b: Seq<BindingView>, keys: Seq<u8>, k: int)
    requires
        0 <= k,
        !manager_chord_first(b, keys),
    ensures
        manager_chord_at(b, keys, 0, k) is None,
    decreases b.len() - k,
{
    if k < b.len() {
        if b[k].action matches ActionView::Control(InputAction::Manager(_)) && begins_at(
            keys,
            0,
            b[k].seq,
        ) {
            assert(b[k].seq.is_prefix_of(keys));
        }
        lemma_manager_chord(b, keys, k + 1);
    }
}

proof fn lemma_begins_shift(x: Seq<u8>, y: Seq<u8>, j: int, pat: Seq<u8>)
    requires
        0 <= j,
    ensures
        begins_at(x + y, x.len() + j, pat) == begins_at(y, j, pat),
{
    if j + pat.len() <= y.len() {
        assert((x + y).subrange(x.len() + j, x.len() + j + pat.len()) =~= y.subrange(
            j,
            j + pat.len(),
        ));
    }
}

proof fn lemma_manager_chord_shift(
    b: Seq<BindingView>,
    x: Seq<u8>,
    y: Seq<u8>,
    j: int,
    k: int,
)
    requires
        0 <= j,
        0 <= k,
    ensures
        manager_chord_at(b, x + y, x.len() + j, k) == manager_chord_at(b, y, j, k),
        manager_chord_at(b, y, j, k) matches Some(m) ==> k <= m < b.len() && begins_at(
            y,
            j,
            b[m].seq,
        ),
    decreases b.len() - k,
{
    if k < b.len() {
        lemma_begins_shift(x, y, j, b[k].seq);
        lemma_manager_chord_shift(b, x, y, j, k + 1);
    }
}

proof fn lemma_manager_keys_shift(b: Seq<BindingView>, x: Seq<u8>, y: Seq<u8>, j: int)
    requires
        0 <= j,
    ensures
        manager_keys(b, x + y, x.len() + j) == manager_keys(b, y, j),
    decreases (if j < y.len() {
        y.len() - j
    } else {
        0
    }),
{
    if j < y.len() {
        lemma_manager_chord_shift(b, x, y, j, 0);
        lemma_begins_shift(x, y, j, seq![0x1bu8, 0x5bu8, 0x41u8]);
        lemma_begins_shift(x, y, j, seq![0x1bu8, 0x5bu8, 0x42u8]);
        assert((x + y)[x.len() + j] == y[j]);
        match manager_chord_at(b, y, j, 0) {
            Some(k) => {
                if 0 < b[k].seq.len() <= y.len() - j {
                    lemma_manager_keys_shift(b, x, y, (j + b[k].seq.len()) as int);
                }
            },
            None => {
                lemma_manager_keys_shift(b, x, y, j + 3);
                lemma_manager_keys_shift(b, x, y, j + 1);
            },
        }
    }
}

/// The keys of a manager: `j` and the down arrow move down, `k` and the up
/// arrow up, Enter selects, `n` makes, `r` renames, `x` kills, `a` flips to
/// the agents and back, `/` searches, `q` and a bare Escape close, and no
/// other key does anything. What follows a key is read the same way.
pub proof fn law_manager_key_meanings(b: Seq<BindingView>, key: u8, rest: Seq<u8>)
    requires
        !manager_chord_first(b, seq![key] + rest),
        key == 0x1b ==> rest.len() < 2 || rest[0] != 0x5b || (rest[1] != 0x41 && rest[1] != 0x42),
    ensures
        ({
            let keys = manager_keys(b, seq![key] + rest, 0);
            let more = manager_keys(b, rest, 0);
            &&& key == 0x6a ==> keys == seq![MgrAction::Down] + more
            &&& key == 0x6b ==> keys == seq![MgrAction::Up] + more
            &&& key == 0x0d || key == 0x0a ==> keys == seq![MgrAction::Select] + more
            &&& key == 0x6e ==> keys == seq![MgrAction::New] + more
            &&& key == 0x72 ==> keys == seq![MgrAction::Rename] + more
            &&& key == 0x78 ==> keys == seq![MgrAction::Kill] + more
            &&& key == 0x61 ==> keys == seq![MgrAction::ToggleAgents] + more
            &&& key == 0x2f ==> keys == seq![MgrAction::Search] + more
            &&& key == 0x71 || key == 0x1b ==> keys == seq![MgrAction::Close] + more
            &&& !(seq![
                0x6au8,
                0x6bu8,
                0x0du8,
                0x0au8,
                0x6eu8,
                0x72u8,
                0x78u8,
                0x61u8,
                0x2fu8,
                0x71u8,
                0x1bu8,
            ].contains(key)) ==> keys == more
        }),
{
    let buf = seq![key] + rest;
    lemma_manager_chord(b, buf, 0);
    lemma_manager_keys_shift(b, seq![key], rest, 0);
    assert(buf[0] == key);
    let up = seq![0x1bu8, 0x5bu8, 0x41u8];
    let down = seq![0x1bu8, 0x5bu8, 0x42u8];
    if begins_at(buf, 0, up) {
        assert(buf.subrange(0, 3)[0] == up[0]);
        assert(buf.subrange(0, 3)[1] == up[1]);
        assert(buf.subrange(0, 3)[2] == up[2]);
        assert(rest[0] == buf[1] && rest[1] == buf[2]);
    }
    if begins_at(buf, 0, down) {
        assert(buf.subrange(0, 3)[0] == down[0]);
        assert(buf.subrange(0, 3)[1] == down[1]);
        assert(buf.subrange(0, 3)[2] == down[2]);
        assert(rest[0] == buf[1] && rest[1] == buf[2]);
    }
    let all = seq![
        0x6au8,
        0x6bu8,
        0x0du8,
        0x0au8,
        0x6eu8,
        0x72u8,
        0x78u8,
        0x61u8,
        0x2fu8,
        0x71u8,
        0x1bu8,
    ];
    assert(all[0] == 0x6a && all[1] == 0x6b && all[2] == 0x0d && all[3] == 0x0a && all[4] == 0x6e
        && all[5] == 0x72 && all[6] == 0x78 && all[7] == 0x61 && all[8] == 0x2f && all[9] == 0x71
        && all[10] == 0x1b);
    assert(Seq::<MgrAction>::empty() + manager_keys(b, rest, 0) =~= manager_keys(b, rest, 0));
    if key == 0x6a {
        assert(crate::keys::manager_key(key) == Some(MgrAction::Down));
    }
}

/// The arrow keys move in a manager, whatever follows them.
pub proof fn law_manager_arrows(b: Seq<BindingView>, upward: bool, rest: Seq<u8>)
    requires
        !manager_chord_first(
            b,
            seq![
                0x1bu8,
                0x5bu8,
                if upward {
                    0x41u8
                } else {
                    0x42u8
                },
            ] + rest,
        ),
    ensures
        manager_keys(
            b,
            seq![
                0x1bu8,
                0x5bu8,
                if upward {
                    0x41u8
                } else {
                    0x42u8
                },
            ] + rest,
            0,
        ) == seq![
            if upward {
                MgrAction::Up
            } else {
                MgrAction::Down
            },
        ] + manager_keys(b, rest, 0),
{
    let arrow = seq![
        0x1bu8,
        0x5bu8,
        if upward {
            0x41u8
        } else {
            0x42u8
        },
    ];
    let buf = arrow + rest;
    lemma_manager_chord(b, buf, 0);
    lemma_manager_keys_shift(b, arrow, rest, 0);
    assert(buf.subrange(0, 3) =~= arrow);
    assert(buf[2] == arrow[2]);
    if !upward {
        assert(buf.subrange(0, 3) != seq![0x1bu8, 0x5bu8, 0x41u8]) by {
            assert(buf.subrange(0, 3)[2] == 0x42);
            assert(seq![0x1bu8, 0x5bu8, 0x41u8][2] == 0x41);
        }
    }
}

proof fn lemma_applied_shift(
    x: Seq<MgrAction>,
    y: Seq<MgrAction>,
    j: int,
    selected: usize,
    count: usize,
)
    requires
        0 <= j,
    ensures
        manager_applied(x + y, x.len() + j, selected, count) == manager_applied(
            y,
            j,
            selected,
            count,
        ),
    decreases y.len() - j,
{
    if j < y.len() {
        assert((x + y)[x.len() + j] == y[j]);
        match y[j] {
            MgrAction::Up => lemma_applied_shift(
                x,
                y,
                j + 1,
                if selected > 0 {
                    (selected - 1) as usize
                } else {
                    0
                },
                count,
            ),
            MgrAction::Down => lemma_applied_shift(
                x,
                y,
                j + 1,
                crate::keys::moved_down(selected, count),
                count,
            ),
            _ => {},
        }
    }
}

/// In a list of `count` entries, up goes to the entry before and stays on the
/// first, down goes to the entry after and stays on the last; the keys after
/// it go on from there. Any other key acts on the selected entry, and what
/// comes after it is dropped.
pub proof fn law_manager_steps(
    key: MgrAction,
    rest: Seq<MgrAction>,
    k: usize,
    count: usize,
)
    requires
        k < count,
    ensures
        ({
            let r = manager_applied(seq![key] + rest, 0, k, count);
            match key {
                MgrAction::Up => r == manager_applied(
                    rest,
                    0,
                    if k == 0 {
                        0
                    } else {
                        (k - 1) as usize
                    },
                    count,
                ),
                MgrAction::Down => r == manager_applied(
                    rest,
                    0,
                    if k == count - 1 {
                        k
                    } else {
                        (k + 1) as usize
                    },
                    count,
                ),
                MgrAction::Select => r == (k, MgrOutcome::Switch(k)),
                MgrAction::New => r == (k, MgrOutcome::StartNaming),
                MgrAction::Rename => r == (k, MgrOutcome::Rename(k)),
                MgrAction::Kill => r == (k, MgrOutcome::Kill(k)),
                MgrAction::ToggleAgents => r == (k, MgrOutcome::ToggleAgents),
                MgrAction::Search => r == (k, MgrOutcome::StartSearch(k)),
                MgrAction::Close => r == (k, MgrOutcome::Close),
            }
        }),
        manager_applied(Seq::empty(), 0, k, count) == (k, MgrOutcome::Stay),
{
    assert((seq![key] + rest)[0] == key);
    lemma_applied_shift(
        seq![key],
        rest,
        0,
        if k > 0 {
            (k - 1) as usize
        } else {
            0
        },
        count,
    );
    lemma_applied_shift(seq![key], rest, 0, crate::keys::moved_down(k, count), count);
}

/// A single step in a list: up from `k` selects `k - 1`, down `k + 1`, and
/// down then up comes back.
pub proof fn law_manager_up_down(k: usize, count: usize)
    requires
        k < count,
    ensures
        k > 0 ==> manager_applied(seq![MgrAction::Up], 0, k, count) == (
            (k - 1) as usize,
            MgrOutcome::Stay,
        ),
        k == 0 ==> manager_applied(seq![MgrAction::Up], 0, k, count) == (k, MgrOutcome::Stay),
        k + 1 < count ==> manager_applied(seq![MgrAction::Down], 0, k, count) == (
            (k + 1) as usize,
            MgrOutcome::Stay,
        ),
        k + 1 == count ==> manager_applied(seq![MgrAction::Down], 0, k, count) == (
            k,
            MgrOutcome::Stay,
        ),
        k + 1 < count ==> manager_applied(seq![MgrAction::Down, MgrAction::Up], 0, k, count) == (
            k,
            MgrOutcome::Stay,
        ),
        k > 0 ==> manager_applied(seq![MgrAction::Up, MgrAction::Down], 0, k, count) == (
            k,
            MgrOutcome::Stay,
        ),
{
    reveal_with_fuel(manager_applied, 3);
}

/// A selection that has outgrown its list comes back into it with the next
/// step down, and one by one with steps up.
pub proof fn law_manager_stale_selection(k: usize, count: usize)
    requires
        0 < count <= k,
    ensures
        manager_applied(seq![MgrAction::Down], 0, k, count) == (
            (count - 1) as usize,
            MgrOutcome::Stay,
        ),
        manager_applied(seq![MgrAction::Up], 0, k, count) == (
            (k - 1) as usize,
            MgrOutcome::Stay,
        ),
{
    reveal_with_fuel(manager_applied, 2);
}

/// The entries of the session manager: every pin in its slot with the first
/// session of its name, if one runs; then the sessions of nobody's agent that
/// no pin names, in their order. Its list of agents holds the agents' sessions,
/// the most recently active first.
pub proof fn law_manager_entries(pins: Seq<Seq<char>>, s: Seq<SessionView>)
    ensures
        ({
            let plain = manager_list(pins, s, false);
            let n = pins.len() as int;
            &&& plain.len() >= n
            &&& forall|k: int|
                0 <= k < n ==> (#[trigger] plain[k]).name == pins[k] && match plain[k].running {
                    Some(i) => 0 <= i < s.len() && s[i].name == pins[k] && (forall|j: int|
                        0 <= j < i ==> (#[trigger] s[j]).name != pins[k]),
                    None => forall|j: int| 0 <= j < s.len() ==> (#[trigger] s[j]).name != pins[k],
                }
            &&& forall|k: int|
                n <= k < plain.len() ==> ((#[trigger] plain[k]).running matches Some(i) && 0 <= i
                    < s.len() && plain[k].name == s[i].name && !s[i].agent && !pins.contains(
                    s[i].name,
                ))
            &&& forall|k: int, l: int|
                n <= k < l < plain.len() ==> (#[trigger] plain[k]).running->0 < (
                #[trigger] plain[l]).running->0
            &&& forall|i: int|
                0 <= i < s.len() && !(#[trigger] s[i]).agent && !pins.contains(s[i].name)
                    ==> exists|k: int| n <= k < plain.len() && (#[trigger] plain[k]).running == Some(i)
        }),
        ({
            let agents = manager_list(pins, s, true);
            &&& forall|k: int|
                0 <= k < agents.len() ==> ((#[trigger] agents[k]).running matches Some(i) && 0 <= i
                    < s.len() && s[i].agent && agents[k].name == s[i].name)
            &&& forall|k: int, l: int|
                0 <= k < l < agents.len() ==> s[(#[trigger] agents[k]).running->0].last_active
                    >= s[(#[trigger] agents[l]).running->0].last_active
            &&& forall|i: int|
                0 <= i < s.len() && (#[trigger] s[i]).agent ==> exists|k: int|
                    0 <= k < agents.len() && (#[trigger] agents[k]).running == Some(i)
        }),
{
    let plain = manager_list(pins, s, false);
    let n = pins.len() as int;
    let rest = crate::sessions::unpinned_entries(pins, s, s.len() as int);
    lemma_unpinned(pins, s, s.len() as int);
    assert forall|k: int| 0 <= k < n implies (#[trigger] plain[k]).name == pins[k]
        && match plain[k].running {
        Some(i) => 0 <= i < s.len() && s[i].name == pins[k] && (forall|j: int|
            0 <= j < i ==> (#[trigger] s[j]).name != pins[k]),
        None => forall|j: int| 0 <= j < s.len() ==> (#[trigger] s[j]).name != pins[k],
    } by {
        crate::sessions::lemma_named_from(s, pins[k], 0);
    }
    assert forall|k: int| n <= k < plain.len() implies plain[k] == rest[k - n] by {}
    assert forall|i: int|
        0 <= i < s.len() && !(#[trigger] s[i]).agent && !pins.contains(
            s[i].name,
        ) implies exists|k: int| n <= k < plain.len() && (#[trigger] plain[k]).running == Some(i) by {
        let k = choose|k: int| 0 <= k < rest.len() && (#[trigger] rest[k]).running == Some(i);
        assert(plain[n + k].running == Some(i));
    }
    let agents = manager_list(pins, s, true);
    let order = crate::sessions::agent_order(s, s.len() as int);
    crate::sessions::law_agents_by_activity(s);
    crate::sessions::lemma_agent_order(s, s.len() as int);
    assert forall|k: int| 0 <= k < agents.len() implies ((#[trigger] agents[k]).running matches Some(
        i,
    ) && 0 <= i < s.len() && s[i].agent && agents[k].name == s[i].name) by {
        assert(order.contains(order[k]));
    }
    assert forall|k: int, l: int| 0 <= k < l < agents.len() implies s[(
    #[trigger] agents[k]).running->0].last_active >= s[(
    #[trigger] agents[l]).running->0].last_active by {
        assert(agents[k].running == Some(order[k]));
        assert(agents[l].running == Some(order[l]));
    }
    assert forall|i: int| 0 <= i < s.len() && (#[trigger] s[i]).agent implies exists|k: int|
        0 <= k < agents.len() && (#[trigger] agents[k]).running == Some(i) by {
        assert(order.contains(i));
        let k = choose|k: int| 0 <= k < order.len() && order[k] == i;
        assert(agents[k].running == Some(i));
    }
}

proof fn lemma_slot_contains(pins: Seq<Seq<char>>, name: Seq<char>, i: int)
    requires
        0 <= i,
    ensures
        crate::sessions::slot_from(pins, name, i) is Some <==> (exists|k: int|
            i <= k < pins.len() && #[trigger] pins[k] == name),
    decreases pins.len() - i,
{
    if i < pins.len() && pins[i] != name {
        lemma_slot_contains(pins, name, i + 1);
    }
}

proof fn lemma_unpinned(pins: Seq<Seq<char>>, s: Seq<SessionView>, n: int)
    requires
        0 <= n <= s.len(),
    ensures
        ({
            let r = crate::sessions::unpinned_entries(pins, s, n);
            &&& forall|k: int|
                0 <= k < r.len() ==> ((#[trigger] r[k]).running matches Some(i) && 0 <= i < n
                    && r[k].name == s[i].name && !s[i].agent && !pins.contains(s[i].name))
            &&& forall|k: int, l: int|
                0 <= k < l < r.len() ==> (#[trigger] r[k]).running->0 < (#[trigger] r[l]).running->0
            &&& forall|i: int|
                0 <= i < n && !(#[trigger] s[i]).agent && !pins.contains(s[i].name)
                    ==> exists|k: int| 0 <= k < r.len() && (#[trigger] r[k]).running == Some(i)
        }),
    decreases n,
{
    if n > 0 {
        lemma_unpinned(pins, s, n - 1);
        lemma_slot_contains(pins, s[n - 1].name, 0);
        let before = crate::sessions::unpinned_entries(pins, s, n - 1);
        let r = crate::sessions::unpinned_entries(pins, s, n);
        assert forall|k: int| 0 <= k < before.len() implies r[k] == before[k] by {}
        assert forall|i: int|
            0 <= i < n && !(#[trigger] s[i]).agent && !pins.contains(s[i].name) implies exists|
            k: int,
        | 0 <= k < r.len() && (#[trigger] r[k]).running == Some(i) by {
            if i < n - 1 {
                let k = choose|k: int|
                    0 <= k < before.len() && (#[trigger] before[k]).running == Some(i);
                assert(r[k].running == Some(i));
            } else {
                assert(r[before.len() as int].running == Some(i));
            }
        }
    }
}

/// A world that differs from another at most in the viewed session.
pub open spec fn same_but_viewed(a: World, b: World) -> bool {
    &&& a.active == b.active && a.fresh == b.fresh && a.fx == b.fx
    &&& a.sessions.len() == b.sessions.len()
    &&& forall|i: int|
        0 <= i < a.sessions.len() && i != a.active ==> #[trigger] a.sessions[i] == b.sessions[i]
}

/// `after` is `w` with one more session, which is viewed: a new one under a
/// name, whose shell is asked for at a size.
pub open spec fn one_more_session(
    w: World,
    after: World,
    name: Seq<char>,
    agent: bool,
    size: (u16, u16),
) -> bool {
    &&& 0 <= after.active < after.sessions.len()
    &&& after.sessions.remove(after.active) == w.sessions
    &&& after.session() == (SessionView { agent, ..SessionView::fresh(name, w.fresh) })
    &&& after.fresh.session == w.fresh.session + 1 && after.fresh.pane == w.fresh.pane + 1
    &&& after.fresh.now == w.fresh.now
    &&& after.fx == w.fx.push(EffectView::Spawn { pane: w.fresh.pane, w: size.0, h: size.1 })
}

proof fn lemma_created_world(w: World, pins: Seq<Seq<char>>, size: (u16, u16), name: Seq<char>)
    requires
        w.fresh.room(1),
    ensures
        one_more_session(w, w.with_created(pins, size, name), name, false, size),
{
    crate::sessions::lemma_place(pins, w.sessions, name);
    let after = w.with_created(pins, size, name);
    assert(after.sessions.remove(after.active) =~= w.sessions);
    assert(after.session() == SessionView::fresh(name, w.fresh));
}

/// Selecting an entry of the session manager views the session that it stands
/// for and changes nothing else, or starts and views one under the name of a
/// pin that does not run; the manager closes.
pub proof fn law_manager_switches_session(
    actions: Seq<MgrAction>,
    agents: bool,
    selected: usize,
    w: World,
    size: (u16, u16),
    pins: Seq<Seq<char>>,
    k: usize,
)
    requires
        w.fresh.room(1),
        k < manager_list(pins, w.sessions, agents).len() <= usize::MAX,
        manager_applied(
            actions,
            0,
            selected,
            manager_list(pins, w.sessions, agents).len() as usize,
        ) == (k, MgrOutcome::Switch(k)),
    ensures
        ({
            let r = managed(actions, Overlay::Sessions { agents }, selected, w, size, pins);
            let e = manager_list(pins, w.sessions, agents)[k as int];
            &&& r.next == Some(ModeView::Running)
            &&& match e.running {
                Some(si) => r.world.active == si && r.world.sessions == w.sessions && r.world.fresh
                    == w.fresh && r.world.fx == w.fx,
                None => one_more_session(w, r.world, e.name, false, size),
            }
        }),
{
    let e = manager_list(pins, w.sessions, agents)[k as int];
    lemma_created_world(w, pins, size, e.name);
}

/// Selecting an entry of the tab manager opens that tab of the viewed session
/// and changes nothing else; the manager closes.
pub proof fn law_manager_switches_tab(
    actions: Seq<MgrAction>,
    selected: usize,
    w: World,
    size: (u16, u16),
    pins: Seq<Seq<char>>,
    k: usize,
)
    requires
        w.viewing(),
        0 < w.session().tabs.len() <= usize::MAX,
        manager_applied(actions, 0, selected, w.session().tabs.len() as usize) == (
            k,
            MgrOutcome::Switch(k),
        ),
    ensures
        ({
            let r = managed(actions, Overlay::Tabs, selected, w, size, pins);
            &&& r.next == Some(ModeView::Running)
            &&& same_but_viewed(w, r.world)
            &&& r.world.session().active_tab == k
            &&& r.world.session() == (SessionView { active_tab: k, ..w.session() })
        }),
{
}

/// Keys that only move, and keys that leave the manager for a prompt, the
/// search or the other list, change no session.
pub proof fn law_manager_other_keys(
    actions: Seq<MgrAction>,
    overlay: Overlay,
    selected: usize,
    w: World,
    size: (u16, u16),
    pins: Seq<Seq<char>>,
    n: nat,
    k: usize,
    outcome: MgrOutcome,
)
    requires
        n == match overlay {
            Overlay::Sessions { agents } => manager_list(pins, w.sessions, agents).len(),
            Overlay::Tabs => w.session().tabs.len(),
        },
        0 < n <= usize::MAX,
        manager_applied(actions, 0, selected, n as usize) == (k, outcome),
        !(outcome is Switch),
        !(outcome is Kill),
    ensures
        ({
            let r = managed(actions, overlay, selected, w, size, pins);
            &&& r.world == w
            &&& outcome is Stay ==> r.selected == k && r.next is None
            &&& outcome is Close ==> r.next == Some(ModeView::Running)
            &&& outcome is StartNaming ==> r.next == Some(
                ModeView::Naming { overlay, name: Seq::empty(), rename: None },
            )
            &&& outcome == MgrOutcome::StartSearch(k) ==> r.next == Some(
                ModeView::Search { overlay, text: Seq::empty(), selected: k },
            )
            &&& outcome is ToggleAgents ==> match overlay {
                Overlay::Sessions { agents } => r.next == Some(
                    ModeView::Manager {
                        overlay: Overlay::Sessions { agents: !agents },
                        selected: 0,
                    },
                ),
                Overlay::Tabs => r.next is None && r.selected == k,
            }
        }),
{
}

/// Renaming from a manager opens the name prompt on the present name of the
/// entry: of the session that it stands for, by id, or of the tab; an entry
/// that does not run cannot be renamed.
pub proof fn law_manager_renames(
    actions: Seq<MgrAction>,
    overlay: Overlay,
    selected: usize,
    w: World,
    size: (u16, u16),
    pins: Seq<Seq<char>>,
    k: usize,
)
    requires
        ({
            let n = match overlay {
                Overlay::Sessions { agents } => manager_list(pins, w.sessions, agents).len(),
                Overlay::Tabs => w.session().tabs.len(),
            };
            k < n <= usize::MAX && manager_applied(actions, 0, selected, n as usize) == (
                k,
                MgrOutcome::Rename(k),
            )
        }),
    ensures
        ({
            let r = managed(actions, overlay, selected, w, size, pins);
            &&& r.world == w
            &&& match overlay {
                Overlay::Tabs => r.next == Some(
                    ModeView::Naming {
                        overlay,
                        name: w.session().tabs[k as int].name,
                        rename: Some(RenameTarget::Tab(k)),
                    },
                ),
                Overlay::Sessions { agents } => match manager_list(
                    pins,
                    w.sessions,
                    agents,
                )[k as int].running {
                    Some(si) => r.next == Some(
                        ModeView::Naming {
                            overlay,
                            name: w.sessions[si].name,
                            rename: Some(RenameTarget::Session(w.sessions[si].id)),
                        },
                    ),
                    None => r.next is None && r.selected == k,
                },
            }
        }),
{
}

/// Killing an entry of the session manager removes the session that it stands
/// for, or nothing where none runs. Whoever views another session goes on
/// viewing it; whoever viewed the killed one views the first. The selection
/// stays within the list.
pub proof fn law_manager_kills_session(
    actions: Seq<MgrAction>,
    agents: bool,
    selected: usize,
    w: World,
    size: (u16, u16),
    pins: Seq<Seq<char>>,
    k: usize,
)
    requires
        w.ok(),
        w.viewing(),
        k < manager_list(pins, w.sessions, agents).len() <= usize::MAX,
        manager_applied(
            actions,
            0,
            selected,
            manager_list(pins, w.sessions, agents).len() as usize,
        ) == (k, MgrOutcome::Kill(k)),
    ensures
        ({
            let r = managed(actions, Overlay::Sessions { agents }, selected, w, size, pins);
            let left = manager_list(pins, r.world.sessions, agents).len();
            &&& r.next is None
            &&& r.world.fresh == w.fresh && r.world.fx == w.fx
            &&& match manager_list(pins, w.sessions, agents)[k as int].running {
                Some(si) => {
                    &&& r.world.sessions == w.sessions.remove(si)
                    &&& si == w.active ==> r.world.active == 0
                    &&& si != w.active ==> r.world.session() == w.session()
                },
                None => r.world.sessions == w.sessions && r.world.active == w.active,
            }
            &&& k < left ==> r.selected == k
            &&& k >= left > 0 ==> r.selected == left - 1
            &&& left == 0 ==> r.selected == 0
        }),
{
    crate::input::lemma_entry_range(pins, w.sessions, agents, k as int);
    if let Some(si) = manager_list(pins, w.sessions, agents)[k as int].running {
        crate::input::law_kill_session(w, si);
    }
}

/// Killing a tab of several removes that tab and keeps the open one open, or
/// the one that takes its place; killing the only tab ends the session, and
/// the first session is viewed.
pub proof fn law_manager_kills_tab(
    actions: Seq<MgrAction>,
    selected: usize,
    w: World,
    size: (u16, u16),
    pins: Seq<Seq<char>>,
    k: usize,
)
    requires
        w.ok(),
        w.viewing(),
        k < w.session().tabs.len() <= usize::MAX,
        manager_applied(actions, 0, selected, w.session().tabs.len() as usize) == (
            k,
            MgrOutcome::Kill(k),
        ),
    ensures
        ({
            let r = managed(actions, Overlay::Tabs, selected, w, size, pins);
            let s = w.session();
            let n = s.tabs.len();
            if n > 1 {
                let t = r.world.session();
                &&& r.next is None
                &&& same_but_viewed(w, r.world)
                &&& t == (SessionView {
                    tabs: s.tabs.remove(k as int),
                    active_tab: t.active_tab,
                    ..s
                })
                &&& k < s.active_tab ==> t.active_tab == s.active_tab - 1
                &&& k > s.active_tab ==> t.active_tab == s.active_tab
                &&& k == s.active_tab ==> t.active_tab == if k + 1 < n {
                    k as int
                } else {
                    n - 2
                }
                &&& r.selected == if k + 1 < n {
                    k as int
                } else {
                    n - 2
                }
            } else {
                &&& r.next == Some(ModeView::Running)
                &&& r.world.sessions == w.sessions.remove(w.active)
                &&& r.world.active == 0
                &&& r.world.fresh == w.fresh && r.world.fx == w.fx
            }
        }),
{
    assert(w.sessions[w.active].live());
}

/// An open manager stays open, with the selection where the keys left it,
/// unless the keys lead elsewhere.
pub proof fn law_manager_stays_open(
    keys: Seq<u8>,
    overlay: Overlay,
    selected: usize,
    w: World,
    size: (u16, u16),
    pins: Seq<Seq<char>>,
    chords: Seq<BindingView>,
)
    ensures
        ({
            let h = overlaid(keys, overlay, selected, w, size, pins, chords);
            let r = managed(manager_keys(chords, keys, 0), overlay, selected, w, size, pins);
            &&& h.world == r.world && !h.detach
            &&& match r.next {
                Some(m) => h.mode == m,
                None => h.mode == (ModeView::Manager { overlay, selected: r.selected }),
            }
        }),
{
}

proof fn lemma_named_shift(x: Seq<char>, y: Seq<char>, j: int, name: Seq<char>)
    requires
        0 <= j,
    ensures
        named(x + y, x.len() + j, name) == named(y, j, name),
    decreases y.len() - j,
{
    if j < y.len() {
        assert((x + y)[x.len() + j] == y[j]);
        lemma_named_shift(x, y, j + 1, name);
        lemma_named_shift(x, y, j + 1, name.push(y[j]));
        if name.len() > 0 {
            lemma_named_shift(x, y, j + 1, name.drop_last());
        }
    }
}

/// The name prompt: Enter takes the name as it stands, Escape gives up,
/// Backspace takes the last character away, and any other character that is
/// no control code is appended while there is room.
pub proof fn law_name_typing(key: char, rest: Seq<char>, name: Seq<char>)
    ensures
        ({
            let r = named(seq![key] + rest, 0, name);
            &&& key == '\r' || key == '\n' ==> r == (name, NamingOutcome::Create)
            &&& key == '\u{1b}' ==> r == (name, NamingOutcome::Cancel)
            &&& key == '\u{7f}' || key == '\u{8}' ==> r == named(
                rest,
                0,
                if name.len() > 0 {
                    name.take(name.len() - 1)
                } else {
                    name
                },
            )
            &&& (key as u32) >= 0x20 && !(0x7f <= (key as u32) < 0xa0) ==> r == named(
                rest,
                0,
                if name.len() < 40 {
                    name.push(key)
                } else {
                    name
                },
            )
            &&& control(key) && key != '\r' && key != '\n' && key != '\u{1b}' && key != '\u{7f}'
                && key != '\u{8}' ==> r == named(rest, 0, name)
        }),
        named(Seq::empty(), 0, name) == (name, NamingOutcome::Pending),
{
    let keys = seq![key] + rest;
    assert(keys[0] == key);
    lemma_named_shift(seq![key], rest, 0, name);
    lemma_named_shift(seq![key], rest, 0, name.push(key));
    if name.len() > 0 {
        assert(name.take(name.len() - 1) =~= name.drop_last());
        lemma_named_shift(seq![key], rest, 0, name.drop_last());
    }
}

/// Typing text without control codes, and then Enter, names what is typed
/// after what was there, as far as it fits.
pub proof fn law_name_typed_out(text: Seq<char>, name: Seq<char>)
    requires
        name.len() + text.len() <= 40,
        forall|i: int| 0 <= i < text.len() ==> !control(#[trigger] text[i]),
    ensures
        named(text + seq!['\r'], 0, name) == (name + text, NamingOutcome::Create),
    decreases text.len(),
{
    if text.len() == 0 {
        assert(text + seq!['\r'] =~= seq!['\r'] + Seq::<char>::empty());
        law_name_typing('\r', Seq::empty(), name);
        assert(name + text =~= name);
    } else {
        let c = text[0];
        let more = text.drop_first();
        assert(!control(text[0]));
        assert(text + seq!['\r'] =~= seq![c] + (more + seq!['\r']));
        law_name_typing(c, more + seq!['\r'], name);
        assert(forall|i: int| 0 <= i < more.len() ==> more[i] == text[i + 1]);
        law_name_typed_out(more, name.push(c));
        assert(name.push(c) + more =~= name + text);
    }
}

/// The name prompt goes on while nothing is decided, goes back to the manager
/// on Escape with what is viewed selected, and on Enter renames, back in the
/// manager, or creates, back in the panes.
pub proof fn law_prompt_outcomes(
    keys: Seq<char>,
    overlay: Overlay,
    name: Seq<char>,
    rename: Option<RenameTarget>,
    w: World,
    size: (u16, u16),
    pins: Seq<Seq<char>>,
)
    ensures
        ({
            let (typed, outcome) = named(keys, 0, name);
            let h = prompted(keys, overlay, name, rename, w, size, pins);
            let home = match overlay {
                Overlay::Sessions { .. } => w.active as usize,
                Overlay::Tabs => w.session().active_tab,
            };
            &&& !h.detach
            &&& outcome is Pending ==> h.world == w && h.mode == (ModeView::Naming {
                overlay,
                name: typed,
                rename,
            })
            &&& outcome is Cancel ==> h.world == w && h.mode == (ModeView::Manager {
                overlay,
                selected: home,
            })
            &&& outcome is Create && rename is None ==> h.mode is Running && h.world == created(
                overlay,
                trimmed(typed),
                w,
                size,
                pins,
            )
            &&& outcome is Create && rename is Some ==> h.world == renamed(
                rename->0,
                trimmed(typed),
                w,
            ) && h.mode == (ModeView::Manager {
                overlay,
                selected: match rename->0 {
                    RenameTarget::Session(_) => w.active as usize,
                    RenameTarget::Tab(ti) => ti,
                },
            })
        }),
{
}

/// A session made from the prompt gets the typed name, or "session" and how
/// many there are with it; it belongs to an agent when it was made in the list
/// of agents. It is viewed.
pub proof fn law_prompt_makes_session(
    agents: bool,
    typed: Seq<char>,
    w: World,
    size: (u16, u16),
    pins: Seq<Seq<char>>,
)
    requires
        w.fresh.room(1),
    ensures
        one_more_session(
            w,
            created(Overlay::Sessions { agents }, typed, w, size, pins),
            if typed.len() > 0 {
                typed
            } else {
                "session "@ + crate::text::decimal(w.sessions.len() + 1)
            },
            agents,
            size,
        ),
{
    let name = if typed.len() > 0 {
        typed
    } else {
        crate::model::session_name(w.sessions.len() + 1)
    };
    reveal_strlit("session ");
    assert("session "@ =~= seq!['s', 'e', 's', 's', 'i', 'o', 'n', ' ']);
    lemma_created_world(w, pins, size, name);
    let made = w.with_created(pins, size, name);
    let after = created(Overlay::Sessions { agents }, typed, w, size, pins);
    assert(after.sessions.remove(after.active) =~= made.sessions.remove(made.active));
}

/// A tab made from the prompt comes last in the viewed session and is open; it
/// gets the typed name, or "tab" and how many there are with it, and one pane.
pub proof fn law_prompt_makes_tab(
    typed: Seq<char>,
    w: World,
    size: (u16, u16),
    pins: Seq<Seq<char>>,
)
    requires
        w.viewing(),
        w.fresh.room(1),
        w.session().tabs.len() < usize::MAX,
    ensures
        ({
            let after = created(Overlay::Tabs, typed, w, size, pins);
            let s = w.session();
            let t = after.session();
            &&& after.active == w.active
            &&& after.sessions.len() == w.sessions.len()
            &&& forall|i: int|
                0 <= i < w.sessions.len() && i != w.active ==> #[trigger] after.sessions[i]
                    == w.sessions[i]
            &&& t.id == s.id && t.name == s.name && t.agent == s.agent && t.last_active
                == s.last_active
            &&& t.tabs.drop_last() == s.tabs && t.tabs.len() == s.tabs.len() + 1
            &&& t.active_tab == s.tabs.len()
            &&& t.tab().name == if typed.len() > 0 {
                typed
            } else {
                "tab "@ + crate::text::decimal(s.tabs.len() + 1)
            }
            &&& t.tab().layout == crate::layout::Layout::Pane(w.fresh.pane)
            &&& t.tab().focused == w.fresh.pane && !t.tab().zoomed
            &&& after.fresh.pane == w.fresh.pane + 1 && after.fresh.session == w.fresh.session
            &&& after.fresh.now == w.fresh.now
            &&& after.fx == w.fx.push(
                EffectView::Spawn { pane: w.fresh.pane, w: size.0, h: size.1 },
            )
        }),
{
    reveal_strlit("tab ");
    assert("tab "@ =~= seq!['t', 'a', 'b', ' ']);
    let t = created(Overlay::Tabs, typed, w, size, pins).session();
    assert(t.tabs.drop_last() =~= w.session().tabs);
}

/// Renaming gives the session with an id, or the tab of the viewed session at
/// an index, the new name, and changes nothing else; an empty name, and what
/// is no longer there, leave everything as it is.
pub proof fn law_rename_changes_one_name(target: RenameTarget, typed: Seq<char>, w: World)
    requires
        w.ok(),
        w.viewing(),
    ensures
        ({
            let after = renamed(target, typed, w);
            &&& after.active == w.active && after.fresh == w.fresh && after.fx == w.fx
            &&& after.sessions.len() == w.sessions.len()
            &&& typed.len() == 0 ==> after == w
            &&& typed.len() > 0 ==> match target {
                RenameTarget::Session(id) => forall|i: int|
                    0 <= i < w.sessions.len() ==> #[trigger] after.sessions[i] == if w.sessions[i].id
                        == id {
                        SessionView { name: typed, ..w.sessions[i] }
                    } else {
                        w.sessions[i]
                    },
                RenameTarget::Tab(ti) => {
                    &&& forall|i: int|
                        0 <= i < w.sessions.len() && i != w.active ==> #[trigger] after.sessions[i]
                            == w.sessions[i]
                    &&& after.session() == (SessionView {
                        tabs: after.session().tabs,
                        ..w.session()
                    })
                    &&& after.session().tabs.len() == w.session().tabs.len()
                    &&& forall|j: int|
                        0 <= j < w.session().tabs.len() ==> #[trigger] after.session().tabs[j]
                            == if j == ti {
                            TabView { name: typed, ..w.session().tabs[j] }
                        } else {
                            w.session().tabs[j]
                        }
                },
            }
        }),
{
    if let RenameTarget::Session(id) = target {
        crate::sessions::lemma_with_id_from(w.sessions, id, 0);
    }
}

proof fn lemma_searched_shift(
    x: Seq<char>,
    y: Seq<char>,
    j: int,
    names: Seq<Seq<char>>,
    text: Seq<char>,
    selected: usize,
)
    requires
        0 <= j,
    ensures
        searched(x + y, x.len() + j, names, text, selected) == searched(
            y,
            j,
            names,
            text,
            selected,
        ),
    decreases (if j < y.len() {
        y.len() - j
    } else {
        0
    }),
{
    if j < y.len() {
        assert((x + y)[x.len() + j] == y[j]);
        if j + 1 < y.len() {
            assert((x + y)[x.len() + j + 1] == y[j + 1]);
        }
        if j + 2 < y.len() {
            assert((x + y)[x.len() + j + 2] == y[j + 2]);
        }
        lemma_searched_shift(
            x,
            y,
            j + 3,
            names,
            text,
            if selected > 0 {
                (selected - 1) as usize
            } else {
                0
            },
        );
        lemma_searched_shift(
            x,
            y,
            j + 3,
            names,
            text,
            crate::search::next_row(selected, rows_found(names, text).len()),
        );
        lemma_searched_shift(
            x,
            y,
            j + 1,
            names,
            if text.len() > 0 {
                text.drop_last()
            } else {
                text
            },
            0,
        );
        lemma_searched_shift(x, y, j + 1, names, text.push(y[j]), 0);
        lemma_searched_shift(x, y, j + 1, names, text, selected);
    }
}

/// The keys of a search: Enter accepts, a bare Escape gives up, Backspace takes
/// the last character of the text away, and any other character that is no
/// control code is appended while there is room; a change of the text selects
/// its first row.
pub proof fn law_search_typing(
    key: char,
    rest: Seq<char>,
    names: Seq<Seq<char>>,
    text: Seq<char>,
    selected: usize,
)
    requires
        key == '\u{1b}' ==> rest.len() < 2 || rest[0] != '[' || (rest[1] != 'A' && rest[1] != 'B'),
    ensures
        ({
            let r = searched(seq![key] + rest, 0, names, text, selected);
            &&& key == '\r' || key == '\n' ==> r == (Searched {
                text,
                selected,
                outcome: SearchOutcome::Accept,
            })
            &&& key == '\u{1b}' ==> r == (Searched {
                text,
                selected,
                outcome: SearchOutcome::Cancel,
            })
            &&& key == '\u{7f}' || key == '\u{8}' ==> r == searched(
                rest,
                0,
                names,
                if text.len() > 0 {
                    text.take(text.len() - 1)
                } else {
                    text
                },
                0,
            )
            &&& (key as u32) >= 0x20 && !(0x7f <= (key as u32) < 0xa0) ==> r == if text.len() < 40 {
                searched(rest, 0, names, text.push(key), 0)
            } else {
                searched(rest, 0, names, text, selected)
            }
            &&& control(key) && key != '\r' && key != '\n' && key != '\u{1b}' && key != '\u{7f}'
                && key != '\u{8}' ==> r == searched(rest, 0, names, text, selected)
        }),
        searched(Seq::empty(), 0, names, text, selected) == (Searched {
            text,
            selected,
            outcome: SearchOutcome::Pending,
        }),
{
    let keys = seq![key] + rest;
    assert(keys[0] == key);
    if rest.len() >= 2 {
        assert(keys[1] == rest[0] && keys[2] == rest[1]);
    }
    if text.len() > 0 {
        assert(text.take(text.len() - 1) =~= text.drop_last());
    }
    lemma_searched_shift(
        seq![key],
        rest,
        0,
        names,
        if text.len() > 0 {
            text.drop_last()
        } else {
            text
        },
        0,
    );
    lemma_searched_shift(seq![key], rest, 0, names, text.push(key), 0);
    lemma_searched_shift(seq![key], rest, 0, names, text, selected);
}

/// The arrow keys move the highlight of a search: up to the row before, down
/// to the row after, and no further than the first and the last.
pub proof fn law_search_arrows(
    upward: bool,
    rest: Seq<char>,
    names: Seq<Seq<char>>,
    text: Seq<char>,
    selected: usize,
)
    requires
        selected < rows_found(names, text).len(),
    ensures
        searched(
            seq![
                '\u{1b}',
                '[',
                if upward {
                    'A'
                } else {
                    'B'
                },
            ] + rest,
            0,
            names,
            text,
            selected,
        ) == searched(
            rest,
            0,
            names,
            text,
            if upward && selected > 0 {
                (selected - 1) as usize
            } else if !upward && selected + 1 < rows_found(names, text).len() {
                (selected + 1) as usize
            } else {
                selected
            },
        ),
{
    let arrow = seq![
        '\u{1b}',
        '[',
        if upward {
            'A'
        } else {
            'B'
        },
    ];
    let keys = arrow + rest;
    assert(keys[0] == arrow[0] && keys[1] == arrow[1] && keys[2] == arrow[2]);
    lemma_searched_shift(
        arrow,
        rest,
        0,
        names,
        text,
        if selected > 0 {
            (selected - 1) as usize
        } else {
            0
        },
    );
    lemma_searched_shift(
        arrow,
        rest,
        0,
        names,
        text,
        crate::search::next_row(selected, rows_found(names, text).len()),
    );
}

/// A search that is accepted switches to the entry of the highlighted row, one
/// that is given up goes back to the manager with that entry selected, and one
/// that goes on, or has no row to accept, changes nothing.
pub proof fn law_search_outcomes(
    keys: Seq<char>,
    overlay: Overlay,
    text: Seq<char>,
    selected: usize,
    w: World,
    size: (u16, u16),
    pins: Seq<Seq<char>>,
)
    ensures
        ({
            let names = crate::input::row_names(overlay, w.sessions, w.active, pins);
            let r = searched(keys, 0, names, text, selected);
            let rows = rows_found(names, r.text);
            let h = sought(keys, overlay, text, selected, w, size, pins);
            let stays = h.world == w && h.mode == (ModeView::Search {
                overlay,
                text: r.text,
                selected: r.selected,
            });
            &&& !h.detach
            &&& r.outcome is Pending ==> stays
            &&& r.outcome is Accept && r.selected >= rows.len() ==> stays
            &&& r.outcome is Accept && r.selected < rows.len() ==> h.mode is Running && h.world
                == switched(overlay, rows[r.selected as int] as usize, w, size, pins)
            &&& r.outcome is Cancel && r.selected < rows.len() ==> h.world == w && h.mode == (
            ModeView::Manager { overlay, selected: rows[r.selected as int] as usize })
            &&& r.outcome is Cancel && r.selected >= rows.len() ==> h.world == w && h.mode == (
            ModeView::Manager { overlay, selected: 0 })
        }),
{
}

/// The rows that a search goes through are the names of what its manager
/// lists.
pub proof fn law_search_rows_are_names(
    s: Seq<SessionView>,
    at: int,
    pins: Seq<Seq<char>>,
    agents: bool,
    k: int,
)
    ensures
        ({
            let names = crate::input::row_names(Overlay::Sessions { agents }, s, at, pins);
            let list = manager_list(pins, s, agents);
            names.len() == list.len() && (0 <= k < list.len() ==> names[k] == list[k].name)
        }),
        ({
            let names = crate::input::row_names(Overlay::Tabs, s, at, pins);
            names.len() == s[at].tabs.len() && (0 <= k < s[at].tabs.len() ==> names[k]
                == s[at].tabs[k].name)
        }),
{
}

/// Switching to entry `i` of a manager, from its list or from its search:
/// view the session that it stands for, start the pin that does not run, or
/// open the tab.
pub proof fn law_switch_views_entry(
    overlay: Overlay,
    i: usize,
    w: World,
    size: (u16, u16),
    pins: Seq<Seq<char>>,
)
    requires
        w.fresh.room(1),
        w.viewing(),
        i < match overlay {
            Overlay::Sessions { agents } => manager_list(pins, w.sessions, agents).len(),
            Overlay::Tabs => w.session().tabs.len(),
        },
    ensures
        ({
            let after = switched(overlay, i, w, size, pins);
            match overlay {
                Overlay::Tabs => same_but_viewed(w, after) && after.session() == (SessionView {
                    active_tab: i,
                    ..w.session()
                }),
                Overlay::Sessions { agents } => match manager_list(
                    pins,
                    w.sessions,
                    agents,
                )[i as int].running {
                    Some(si) => after.active == si && after.sessions == w.sessions && after.fresh
                        == w.fresh && after.fx == w.fx,
                    None => one_more_session(
                        w,
                        after,
                        manager_list(pins, w.sessions, agents)[i as int].name,
                        false,
                        size,
                    ),
                },
            }
        }),
{
    if let Overlay::Sessions { agents } = overlay {
        lemma_created_world(
            w,
            pins,
            size,
            manager_list(pins, w.sessions, agents)[i as int].name,
        );
    }
}

/// In a list without entries no key has anything to act on: Enter closes the
/// manager, and renaming and killing do nothing.
pub proof fn law_manager_empty_list(
    key: MgrAction,
    agents: bool,
    w: World,
    size: (u16, u16),
    pins: Seq<Seq<char>>,
)
    requires
        manager_list(pins, w.sessions, agents).len() == 0,
        key is Select || key is Rename || key is Kill,
    ensures
        ({
            let r = managed(seq![key], Overlay::Sessions { agents }, 0, w, size, pins);
            &&& r.world == w && r.selected == 0
            &&& key is Select ==> r.next == Some(ModeView::Running)
            &&& key is Rename || key is Kill ==> r.next is None
        }),
{
    assert(seq![key][0] == key);
    reveal_with_fuel(manager_applied, 2);
}

} // verus!
