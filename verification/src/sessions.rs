//! The session lists: which sessions are shown in which order, and where a
//! new session goes.

use crate::config::{pin_names, Config, Pin};
use crate::effect::{effects, Effect, EffectView};
use crate::model::{session_views, Fresh, Session, SessionView};
use vstd::prelude::*;

verus! {

/// One row of the session-manager list: every pinned session (running or
/// not, in slot order) followed by running unpinned sessions.
pub struct SessionEntry {
    pub name: String,
    /// Index into the sessions vec when the session is running.
    pub running: Option<usize>,
}

/// A row with its name as a sequence of characters.
#[verifier::ext_equal]
pub struct EntryView {
    pub name: Seq<char>,
    pub running: Option<int>,
}

impl View for SessionEntry {
    type V = EntryView;

    open spec fn view(&self) -> EntryView {
        EntryView {
            name: self.name@,
            running: match self.running {
                Some(i) => Some(i as int),
                None => None,
            },
        }
    }
}

/// Rows with their names as sequences of characters.
pub open spec fn entry_views(s: Seq<SessionEntry>) -> Seq<EntryView> {
    s.map_values(|e: SessionEntry| e@)
}

fn push_entry(r: &mut Vec<SessionEntry>, e: SessionEntry)
    ensures
        entry_views(final(r)@) == entry_views(old(r)@).push(e@),
{
    r.push(e);
    assert(entry_views(r@) =~= entry_views(old(r)@).push(e@));
}

/// The first session from `i` on with a name.
pub open spec fn named_from(s: Seq<SessionView>, name: Seq<char>, i: int) -> Option<int>
    decreases s.len() - i,
{
    if i >= s.len() {
        None
    } else if s[i].name == name {
        Some(i)
    } else {
        named_from(s, name, i + 1)
    }
}

pub proof fn lemma_named_from(s: Seq<SessionView>, name: Seq<char>, i: int)
    requires
        0 <= i,
    ensures
        named_from(s, name, i) matches Some(k) ==> i <= k < s.len() && s[k].name == name && (
        forall|j: int| i <= j < k ==> (#[trigger] s[j]).name != name),
        named_from(s, name, i) is None ==> (forall|j: int|
            i <= j < s.len() ==> (#[trigger] s[j]).name != name),
    decreases s.len() - i,
{
    if i < s.len() && s[i].name != name {
        lemma_named_from(s, name, i + 1);
    }
}

/// The first session from `i` on with an id.
pub open spec fn with_id_from(s: Seq<SessionView>, id: u64, i: int) -> Option<int>
    decreases s.len() - i,
{
    if i >= s.len() {
        None
    } else if s[i].id == id {
        Some(i)
    } else {
        with_id_from(s, id, i + 1)
    }
}

pub proof fn lemma_with_id_from(s: Seq<SessionView>, id: u64, i: int)
    requires
        0 <= i,
    ensures
        with_id_from(s, id, i) matches Some(k) ==> i <= k < s.len() && s[k].id == id && (forall|
            j: int,
        | i <= j < k ==> (#[trigger] s[j]).id != id),
        with_id_from(s, id, i) is None ==> (forall|j: int|
            i <= j < s.len() ==> (#[trigger] s[j]).id != id),
    decreases s.len() - i,
{
    if i < s.len() && s[i].id != id {
        lemma_with_id_from(s, id, i + 1);
    }
}

/// The first slot from `i` on with a name.
pub open spec fn slot_from(pins: Seq<Seq<char>>, name: Seq<char>, i: int) -> Option<int>
    decreases pins.len() - i,
{
    if i >= pins.len() {
        None
    } else if pins[i] == name {
        Some(i)
    } else {
        slot_from(pins, name, i + 1)
    }
}

/// The place of a name in the pin order; unpinned names come last.
pub open spec fn rank(pins: Seq<Seq<char>>, name: Seq<char>) -> int {
    match slot_from(pins, name, 0) {
        Some(k) => k,
        None => pins.len() as int,
    }
}

/// Find the first session with a name.
pub fn find_named(sessions: &Vec<Session>, name: &String) -> (r: Option<usize>)
    ensures
        r matches Some(k) ==> k < sessions@.len() && named_from(
            session_views(sessions@),
            name@,
            0,
        ) == Some(k as int),
        r is None ==> named_from(session_views(sessions@), name@, 0) is None,
{
    let ghost v = session_views(sessions@);
    let mut i: usize = 0;
    while i < sessions.len()
        invariant
            i <= sessions@.len(),
            v == session_views(sessions@),
            named_from(v, name@, 0) == named_from(v, name@, i as int),
        decreases sessions@.len() - i,
    {
        if sessions[i].name == *name {
            return Some(i);
        }
        i = i + 1;
    }
    None
}

/// Find the first session with an id.
pub fn find_id(sessions: &Vec<Session>, id: u64) -> (r: Option<usize>)
    ensures
        r matches Some(k) ==> k < sessions@.len() && with_id_from(
            session_views(sessions@),
            id,
            0,
        ) == Some(k as int),
        r is None ==> with_id_from(session_views(sessions@), id, 0) is None,
{
    let ghost v = session_views(sessions@);
    let mut i: usize = 0;
    while i < sessions.len()
        invariant
            i <= sessions@.len(),
            v == session_views(sessions@),
            with_id_from(v, id, 0) == with_id_from(v, id, i as int),
        decreases sessions@.len() - i,
    {
        if sessions[i].id == id {
            return Some(i);
        }
        i = i + 1;
    }
    None
}

/// The slot of a name; the number of pins when it is not pinned.
fn rank_of(pins: &Vec<Pin>, name: &String) -> (r: usize)
    ensures
        r == rank(pin_names(pins@), name@),
        r <= pins@.len(),
{
    let ghost v = pin_names(pins@);
    let mut i: usize = 0;
    while i < pins.len()
        invariant
            i <= pins@.len(),
            v == pin_names(pins@),
            slot_from(v, name@, 0) == slot_from(v, name@, i as int),
        decreases pins@.len() - i,
    {
        if pins[i].name == *name {
            return i;
        }
        i = i + 1;
    }
    i
}

/// Pinned sessions, running or not, in slot order.
pub open spec fn pinned_entries(pins: Seq<Seq<char>>, s: Seq<SessionView>) -> Seq<EntryView> {
    pins.map_values(|n: Seq<char>| EntryView { name: n, running: named_from(s, n, 0) })
}

/// Running sessions among the first `n` that are neither pinned nor an
/// agent's, in order.
pub open spec fn unpinned_entries(pins: Seq<Seq<char>>, s: Seq<SessionView>, n: int) -> Seq<
    EntryView,
>
    decreases n,
{
    if n <= 0 {
        Seq::empty()
    } else {
        let before = unpinned_entries(pins, s, n - 1);
        if !s[n - 1].agent && slot_from(pins, s[n - 1].name, 0) is None {
            before.push(EntryView { name: s[n - 1].name, running: Some(n - 1) })
        } else {
            before
        }
    }
}

/// Where an agent session goes in a list sorted by activity: before the
/// first one from `k` on that was active earlier.
pub open spec fn activity_slot(s: Seq<SessionView>, order: Seq<int>, active: u64, k: int) -> int
    decreases order.len() - k,
{
    if k >= order.len() {
        order.len() as int
    } else if s[order[k]].last_active < active {
        k
    } else {
        activity_slot(s, order, active, k + 1)
    }
}

/// The indices of the agent sessions among the first `n`, most recently
/// active first.
pub open spec fn agent_order(s: Seq<SessionView>, n: int) -> Seq<int>
    decreases n,
{
    if n <= 0 {
        Seq::empty()
    } else {
        let before = agent_order(s, n - 1);
        if s[n - 1].agent {
            before.insert(activity_slot(s, before, s[n - 1].last_active, 0), n - 1)
        } else {
            before
        }
    }
}

/// Agent sessions, most recently active first.
pub open spec fn agent_entries(s: Seq<SessionView>) -> Seq<EntryView> {
    agent_order(s, s.len() as int).map_values(
        |i: int| EntryView { name: s[i].name, running: Some(i) },
    )
}

/// The list that a session manager shows: the agent sessions, or the
/// others.
pub open spec fn manager_list(pins: Seq<Seq<char>>, s: Seq<SessionView>, agents: bool) -> Seq<
    EntryView,
> {
    if agents {
        agent_entries(s)
    } else {
        pinned_entries(pins, s) + unpinned_entries(pins, s, s.len() as int)
    }
}

/// Whether session `i` is the one that a pin shows.
pub open spec fn pin_shows(pins: Seq<Seq<char>>, s: Seq<SessionView>, i: int) -> bool {
    slot_from(pins, s[i].name, 0) is Some && named_from(s, s[i].name, 0) == Some(i)
}

/// The first `n` agent sessions by activity, without those that a pin shows.
pub open spec fn loose_agents(pins: Seq<Seq<char>>, s: Seq<SessionView>, n: int) -> Seq<EntryView>
    decreases n,
{
    if n <= 0 {
        Seq::empty()
    } else {
        let e = agent_entries(s)[n - 1];
        let before = loose_agents(pins, s, n - 1);
        if pin_shows(pins, s, e.running->0) {
            before
        } else {
            before.push(e)
        }
    }
}

/// Everything there is: pinned sessions in slot order, running unpinned
/// sessions, the other agent sessions most recently active first.
pub open spec fn all_entries(pins: Seq<Seq<char>>, s: Seq<SessionView>) -> Seq<EntryView> {
    pinned_entries(pins, s) + unpinned_entries(pins, s, s.len() as int) + loose_agents(
        pins,
        s,
        agent_entries(s).len() as int,
    )
}

proof fn lemma_activity_slot(s: Seq<SessionView>, order: Seq<int>, active: u64, k: int)
    requires
        0 <= k <= order.len(),
    ensures
        k <= activity_slot(s, order, active, k) <= order.len(),
        forall|j: int|
            k <= j < activity_slot(s, order, active, k) ==> s[#[trigger] order[j]].last_active
                >= active,
        activity_slot(s, order, active, k) < order.len() ==> s[order[activity_slot(
            s,
            order,
            active,
            k,
        )]].last_active < active,
    decreases order.len() - k,
{
    if k < order.len() && !(s[order[k]].last_active < active) {
        lemma_activity_slot(s, order, active, k + 1);
    }
}

pub proof fn lemma_agent_order(s: Seq<SessionView>, n: int)
    requires
        0 <= n <= s.len(),
    ensures
        forall|k: int|
            0 <= k < agent_order(s, n).len() ==> 0 <= #[trigger] agent_order(s, n)[k] < n
                && s[agent_order(s, n)[k]].agent,
    decreases n,
{
    if n > 0 {
        lemma_agent_order(s, n - 1);
        let before = agent_order(s, n - 1);
        if s[n - 1].agent {
            let at = activity_slot(s, before, s[n - 1].last_active, 0);
            lemma_activity_slot(s, before, s[n - 1].last_active, 0);
            assert forall|k: int| 0 <= k < agent_order(s, n).len() implies 0
                <= #[trigger] agent_order(s, n)[k] < n && s[agent_order(s, n)[k]].agent by {
                if k < at {
                    assert(agent_order(s, n)[k] == before[k]);
                } else if k > at {
                    assert(agent_order(s, n)[k] == before[k - 1]);
                }
            }
        }
    }
}

/// Collect the indices of the agent sessions, most recently active first.
fn agents_by_activity(sessions: &Vec<Session>) -> (r: Vec<usize>)
    ensures
        r@.map_values(|i: usize| i as int) == agent_order(
            session_views(sessions@),
            sessions@.len() as int,
        ),
        forall|k: int| 0 <= k < r@.len() ==> #[trigger] r@[k] < sessions@.len(),
{
    let ghost v = session_views(sessions@);
    let mut r: Vec<usize> = Vec::new();
    let mut i: usize = 0;
    assert(r@.map_values(|i: usize| i as int) =~= agent_order(v, 0));
    while i < sessions.len()
        invariant
            i <= sessions@.len(),
            v == session_views(sessions@),
            r@.map_values(|i: usize| i as int) == agent_order(v, i as int),
            forall|k: int| 0 <= k < r@.len() ==> #[trigger] r@[k] < i,
        decreases sessions@.len() - i,
    {
        if sessions[i].agent {
            let active: u64 = sessions[i].last_active;
            let ghost order = agent_order(v, i as int);
            let mut k: usize = 0;
            while k < r.len() && sessions[r[k]].last_active >= active
                invariant
                    k <= r@.len(),
                    i < sessions@.len(),
                    v == session_views(sessions@),
                    forall|k: int| 0 <= k < r@.len() ==> #[trigger] r@[k] < i,
                    r@.map_values(|i: usize| i as int) == order,
                    activity_slot(v, order, active, 0) == activity_slot(
                        v,
                        order,
                        active,
                        k as int,
                    ),
                decreases r@.len() - k,
            {
                assert(order[k as int] == r@[k as int]);
                k = k + 1;
            }
            proof {
                if k < r@.len() {
                    assert(order[k as int] == r@[k as int]);
                }
            }
            let ghost before = r@;
            r.insert(k, i);
            assert(r@.map_values(|i: usize| i as int) =~= order.insert(k as int, i as int));
            assert forall|j: int| 0 <= j < r@.len() implies #[trigger] r@[j] < i + 1 by {
                if j < k {
                    assert(r@[j] == before[j]);
                } else if j > k {
                    assert(r@[j] == before[j - 1]);
                }
            }
        }
        i = i + 1;
    }
    r
}

/// The rows that a session manager shows: the agent sessions, or the
/// others.
pub fn manager_entries(pins: &Vec<Pin>, sessions: &Vec<Session>, agents: bool) -> (r: Vec<
    SessionEntry,
>)
    ensures
        entry_views(r@) == manager_list(pin_names(pins@), session_views(sessions@), agents),
{
    let ghost v = session_views(sessions@);
    let ghost names = pin_names(pins@);
    let mut r: Vec<SessionEntry> = Vec::new();
    if agents {
        let order: Vec<usize> = agents_by_activity(sessions);
        let ghost o = agent_order(v, v.len() as int);
        let mut k: usize = 0;
        assert(entry_views(r@) =~= agent_entries(v).take(0));
        while k < order.len()
            invariant
                k <= order@.len(),
                v == session_views(sessions@),
                o == agent_order(v, v.len() as int),
                order@.map_values(|i: usize| i as int) == o,
                forall|k: int| 0 <= k < order@.len() ==> #[trigger] order@[k] < sessions@.len(),
                entry_views(r@) == agent_entries(v).take(k as int),
            decreases order@.len() - k,
        {
            let si: usize = order[k];
            assert(o[k as int] == si);
            let e = SessionEntry { name: sessions[si].name.clone(), running: Some(si) };
            assert(e@ =~= agent_entries(v)[k as int]);
            push_entry(&mut r, e);
            assert(entry_views(r@) =~= agent_entries(v).take(k + 1));
            k = k + 1;
        }
        assert(agent_entries(v).take(k as int) =~= agent_entries(v));
        return r;
    }
    let mut i: usize = 0;
    assert(entry_views(r@) =~= pinned_entries(names, v).take(0));
    while i < pins.len()
        invariant
            i <= pins@.len(),
            v == session_views(sessions@),
            names == pin_names(pins@),
            entry_views(r@) == pinned_entries(names, v).take(i as int),
        decreases pins@.len() - i,
    {
        let e = SessionEntry {
            name: pins[i].name.clone(),
            running: find_named(sessions, &pins[i].name),
        };
        assert(e@ =~= pinned_entries(names, v)[i as int]);
        push_entry(&mut r, e);
        assert(entry_views(r@) =~= pinned_entries(names, v).take(i + 1));
        i = i + 1;
    }
    assert(pinned_entries(names, v).take(i as int) =~= pinned_entries(names, v));
    let mut si: usize = 0;
    assert(entry_views(r@) =~= pinned_entries(names, v) + unpinned_entries(names, v, 0));
    while si < sessions.len()
        invariant
            si <= sessions@.len(),
            v == session_views(sessions@),
            names == pin_names(pins@),
            entry_views(r@) == pinned_entries(names, v) + unpinned_entries(names, v, si as int),
        decreases sessions@.len() - si,
    {
        proof {
            lemma_slot_from(names, v[si as int].name, 0);
        }
        if !sessions[si].agent && rank_of(pins, &sessions[si].name) == pins.len() {
            let e = SessionEntry { name: sessions[si].name.clone(), running: Some(si) };
            push_entry(&mut r, e);
            assert(entry_views(r@) =~= pinned_entries(names, v) + unpinned_entries(
                names,
                v,
                si + 1,
            ));
        }
        si = si + 1;
    }
    r
}

proof fn lemma_slot_from(pins: Seq<Seq<char>>, name: Seq<char>, i: int)
    requires
        0 <= i,
    ensures
        slot_from(pins, name, i) matches Some(k) ==> i <= k < pins.len() && pins[k] == name,
        slot_from(pins, name, i) is None ==> (forall|j: int|
            i <= j < pins.len() ==> #[trigger] pins[j] != name),
    decreases pins.len() - i,
{
    if i < pins.len() && pins[i] != name {
        lemma_slot_from(pins, name, i + 1);
    }
}

/// Every session there is to list, each once: pinned ones (running or not, in
/// slot order), then running unpinned ones, then the other agent sessions,
/// most recently active first.
pub fn session_entries(pins: &Vec<Pin>, sessions: &Vec<Session>) -> (r: Vec<SessionEntry>)
    ensures
        entry_views(r@) == all_entries(pin_names(pins@), session_views(sessions@)),
{
    let ghost v = session_views(sessions@);
    let ghost names = pin_names(pins@);
    let mut r: Vec<SessionEntry> = manager_entries(pins, sessions, false);
    let ghost plain = entry_views(r@);
    let none: Vec<Pin> = Vec::new();
    let agents: Vec<SessionEntry> = manager_entries(&none, sessions, true);
    let ghost a = agent_entries(v);
    let mut k: usize = 0;
    assert(entry_views(r@) =~= plain + loose_agents(names, v, 0));
    while k < agents.len()
        invariant
            k <= agents@.len(),
            v == session_views(sessions@),
            names == pin_names(pins@),
            a == agent_entries(v),
            a == entry_views(agents@),
            entry_views(r@) == plain + loose_agents(names, v, k as int),
        decreases agents@.len() - k,
    {
        let e: &SessionEntry = &agents[k];
        assert(a[k as int] == e@);
        proof {
            let order = agent_order(v, v.len() as int);
            lemma_agent_order(v, v.len() as int);
            assert(a.len() == order.len());
            assert(a[k as int].running == Some(order[k as int]));
            lemma_slot_from(names, v[order[k as int]].name, 0);
        }
        if let Some(si) = e.running {
            let pinned: bool = rank_of(pins, &sessions[si].name) < pins.len();
            let first: bool = match find_named(sessions, &sessions[si].name) {
                Some(f) => f == si,
                None => false,
            };
            if !(pinned && first) {
                push_entry(&mut r, SessionEntry { name: e.name.clone(), running: Some(si) });
            }
            assert(entry_views(r@) =~= plain + loose_agents(names, v, k + 1));
        }
        k = k + 1;
    }
    r
}

/// The first place from `i` on whose session comes after slot `k`.
pub open spec fn place_from(
    pins: Seq<Seq<char>>,
    s: Seq<SessionView>,
    k: int,
    i: int,
) -> int
    decreases s.len() - i,
{
    if i >= s.len() {
        s.len() as int
    } else if rank(pins, s[i].name) > k {
        i
    } else {
        place_from(pins, s, k, i + 1)
    }
}

/// Where a new session goes: an unpinned one to the end, a pinned one
/// before the first session that is unpinned or in a later slot.
pub open spec fn place(pins: Seq<Seq<char>>, s: Seq<SessionView>, name: Seq<char>) -> int {
    match slot_from(pins, name, 0) {
        None => s.len() as int,
        Some(k) => place_from(pins, s, k, 0),
    }
}

/// The sessions with a new one in its place.
pub open spec fn with_session(
    pins: Seq<Seq<char>>,
    s: Seq<SessionView>,
    name: Seq<char>,
    fresh: Fresh,
) -> Seq<SessionView> {
    s.insert(place(pins, s, name), SessionView::fresh(name, fresh))
}

pub proof fn lemma_place_from(pins: Seq<Seq<char>>, s: Seq<SessionView>, k: int, i: int)
    requires
        0 <= i <= s.len(),
    ensures
        i <= place_from(pins, s, k, i) <= s.len(),
        forall|j: int|
            i <= j < place_from(pins, s, k, i) ==> rank(pins, (#[trigger] s[j]).name) <= k,
        place_from(pins, s, k, i) < s.len() ==> rank(
            pins,
            s[place_from(pins, s, k, i)].name,
        ) > k,
    decreases s.len() - i,
{
    if i < s.len() && !(rank(pins, s[i].name) > k) {
        lemma_place_from(pins, s, k, i + 1);
    }
}

/// Create a session, inserting it at its place in the display order:
/// pinned sessions sit before unpinned ones, in slot order. Returns the
/// new session's index.
pub fn create_session(
    sessions: &mut Vec<Session>,
    config: &Config,
    size: (u16, u16),
    name: String,
    fresh: &mut Fresh,
    fx: &mut Vec<Effect>,
) -> (pos: usize)
    requires
        old(fresh).room(1),
    ensures
        pos == place(config.names(), session_views(old(sessions)@), name@),
        pos < final(sessions)@.len(),
        session_views(final(sessions)@) == with_session(
            config.names(),
            session_views(old(sessions)@),
            name@,
            *old(fresh),
        ),
        *final(fresh) == old(fresh).after_session(),
        effects(final(fx)@) == effects(old(fx)@).push(
            EffectView::Spawn { pane: old(fresh).pane, w: size.0, h: size.1 },
        ),
{
    let ghost v = session_views(sessions@);
    let ghost names = config.names();
    let new_rank: usize = rank_of(&config.pins, &name);
    let session: Session = Session::new(size, name, fresh, fx);
    proof {
        lemma_slot_from(names, name@, 0);
    }
    let mut pos: usize = sessions.len();
    if new_rank < config.pins.len() {
        let mut i: usize = 0;
        while i < sessions.len() && rank_of(&config.pins, &sessions[i].name) <= new_rank
            invariant
                i <= sessions@.len(),
                v == session_views(sessions@),
                names == config.names(),
                place_from(names, v, new_rank as int, 0) == place_from(
                    names,
                    v,
                    new_rank as int,
                    i as int,
                ),
            decreases sessions@.len() - i,
        {
            i = i + 1;
        }
        pos = i;
    }
    sessions.insert(pos, session);
    assert(session_views(sessions@) =~= v.insert(pos as int, session@));
    pos
}

/// Pinned sessions sit before unpinned ones, in slot order.
pub open spec fn in_pin_order(pins: Seq<Seq<char>>, s: Seq<SessionView>) -> bool {
    forall|i: int, j: int|
        0 <= i < j < s.len() ==> rank(pins, (#[trigger] s[i]).name) <= rank(
            pins,
            (#[trigger] s[j]).name,
        )
}

/// The sessions with one place in the pin order, in order.
pub open spec fn of_rank(pins: Seq<Seq<char>>, s: Seq<SessionView>, k: int) -> Seq<SessionView> {
    s.filter(|x: SessionView| rank(pins, x.name) == k)
}

/// `new` holds the sessions of `old`, all of them, in pin order, those with the same
/// place in the order they had.
pub open spec fn resorted(
    pins: Seq<Seq<char>>,
    old: Seq<SessionView>,
    new: Seq<SessionView>,
) -> bool {
    &&& new.to_multiset() == old.to_multiset()
    &&& in_pin_order(pins, new)
    &&& forall|k: int| #[trigger] of_rank(pins, new, k) == of_rank(pins, old, k)
}

proof fn lemma_of_rank_none(pins: Seq<Seq<char>>, s: Seq<SessionView>, k: int)
    requires
        forall|i: int| 0 <= i < s.len() ==> rank(pins, (#[trigger] s[i]).name) != k,
    ensures
        of_rank(pins, s, k) == Seq::<SessionView>::empty(),
    decreases s.len(),
{
    reveal(Seq::filter);
    if s.len() > 0 {
        assert(s.last() == s[s.len() - 1]);
        assert forall|i: int| 0 <= i < s.drop_last().len() implies rank(
            pins,
            (#[trigger] s.drop_last()[i]).name,
        ) != k by {
            assert(s.drop_last()[i] == s[i]);
        }
        lemma_of_rank_none(pins, s.drop_last(), k);
    }
}

/// Moving a session to the front of others that all come after it keeps
/// the sessions of each place in order.
proof fn lemma_move_front(
    pins: Seq<Seq<char>>,
    a: Seq<SessionView>,
    b: Seq<SessionView>,
    x: SessionView,
    c: Seq<SessionView>,
    k: int,
)
    requires
        forall|i: int| 0 <= i < b.len() ==> rank(pins, (#[trigger] b[i]).name) > rank(pins, x.name),
    ensures
        of_rank(pins, a + seq![x] + b + c, k) == of_rank(pins, a + b + seq![x] + c, k),
{
    let pred = |s: SessionView| rank(pins, s.name) == k;
    let one = seq![x];
    Seq::filter_distributes_over_add(a + one + b, c, pred);
    Seq::filter_distributes_over_add(a + one, b, pred);
    Seq::filter_distributes_over_add(a, one, pred);
    Seq::filter_distributes_over_add(a + b + one, c, pred);
    Seq::filter_distributes_over_add(a + b, one, pred);
    Seq::filter_distributes_over_add(a, b, pred);
    let fa = a.filter(pred);
    let fb = b.filter(pred);
    let fx = one.filter(pred);
    if k == rank(pins, x.name) {
        lemma_of_rank_none(pins, b, k);
        assert(fb =~= Seq::<SessionView>::empty());
        assert(fa + fx + fb =~= fa + fb + fx);
    } else {
        lemma_of_rank_none(pins, one, k);
        assert(fx =~= Seq::<SessionView>::empty());
        assert(fa + fx + fb =~= fa + fb + fx);
    }
}

/// Moving the session behind a sorted front back to its place sorts one more
/// session, and keeps all of them and their order within each place.
#[verifier::spinoff_prover]
proof fn lemma_moved_back(pins: Seq<Seq<char>>, v: Seq<SessionView>, i: int, j: int)
    requires
        0 <= j <= i < v.len(),
        in_pin_order(pins, v.take(i)),
        forall|l: int| 0 <= l < j ==> rank(pins, (#[trigger] v[l]).name) <= rank(pins, v[i].name),
        forall|l: int| j <= l < i ==> rank(pins, (#[trigger] v[l]).name) > rank(pins, v[i].name),
    ensures
        ({
            let w = v.remove(i).insert(j, v[i]);
            &&& w.to_multiset() == v.to_multiset()
            &&& in_pin_order(pins, w.take(i + 1))
            &&& forall|k: int| #[trigger] of_rank(pins, w, k) == of_rank(pins, v, k)
        }),
{
    let x = v[i];
    let w = v.remove(i).insert(j, x);
    let a = v.take(j);
    let b = v.subrange(j, i);
    let c = v.skip(i + 1);
    vstd::seq_lib::to_multiset_remove(v, i);
    vstd::seq_lib::to_multiset_insert(v.remove(i), j, x);
    assert(v.to_multiset().count(x) > 0) by {
        broadcast use vstd::seq_lib::group_to_multiset_ensures;

        assert(v.contains(v[i]));
    }
    assert(w.to_multiset() =~= v.to_multiset());
    assert(w =~= a + seq![x] + b + c);
    assert(v =~= a + b + seq![x] + c);
    assert forall|l: int| 0 <= l < b.len() implies rank(pins, (#[trigger] b[l]).name) > rank(
        pins,
        x.name,
    ) by {
        assert(b[l] == v[j + l]);
    }
    assert forall|k: int| #[trigger] of_rank(pins, w, k) == of_rank(pins, v, k) by {
        lemma_move_front(pins, a, b, x, c, k);
    }
    let t = w.take(i + 1);
    let u = v.take(i);
    assert forall|p: int, q: int| 0 <= p < q < t.len() implies rank(pins, (#[trigger] t[p]).name)
        <= rank(pins, (#[trigger] t[q]).name) by {
        if p < j {
            assert(t[p] == u[p]);
            if q < j {
                assert(t[q] == u[q]);
            } else if q == j {
                assert(t[q] == x);
                assert(v[p] == u[p]);
            } else {
                assert(t[q] == u[q - 1]);
            }
        } else if p == j {
            assert(t[p] == x);
            assert(t[q] == v[q - 1]);
        } else {
            assert(t[p] == u[p - 1]);
            assert(t[q] == u[q - 1]);
        }
    }
}

/// Pinned sessions first (slot order), unpinned after in their existing
/// order: applied after a reload changes the pins.
pub fn resort_sessions(sessions: &mut Vec<Session>, config: &Config)
    ensures
        resorted(
            config.names(),
            session_views(old(sessions)@),
            session_views(final(sessions)@),
        ),
{
    let ghost names = config.names();
    let ghost first = session_views(sessions@);
    let mut i: usize = 0;
    while i < sessions.len()
        invariant
            i <= sessions@.len(),
            names == config.names(),
            session_views(sessions@).to_multiset() == first.to_multiset(),
            in_pin_order(names, session_views(sessions@).take(i as int)),
            forall|k: int| #[trigger]
                of_rank(names, session_views(sessions@), k) == of_rank(names, first, k),
        decreases sessions@.len() - i,
    {
        let r: usize = rank_of(&config.pins, &sessions[i].name);
        let mut j: usize = 0;
        let ghost v = session_views(sessions@);
        while j < i && rank_of(&config.pins, &sessions[j].name) <= r
            invariant
                j <= i < sessions@.len(),
                names == config.names(),
                v == session_views(sessions@),
                forall|l: int| 0 <= l < j ==> rank(names, (#[trigger] v[l]).name) <= r,
            decreases i - j,
        {
            j = j + 1;
        }
        proof {
            assert forall|l: int| j <= l < i implies rank(names, (#[trigger] v[l]).name) > r by {
                assert(v.take(i as int)[j as int] == v[j as int]);
                assert(v.take(i as int)[l] == v[l]);
            }
        }
        let session: Session = sessions.remove(i);
        sessions.insert(j, session);
        proof {
            let w = session_views(sessions@);
            assert(w =~= v.remove(i as int).insert(j as int, v[i as int]));
            lemma_moved_back(names, v, i as int, j as int);
            assert forall|k: int| #[trigger] of_rank(names, w, k) == of_rank(
                names,
                first,
                k,
            ) by {
                assert(of_rank(names, v, k) == of_rank(names, first, k));
            }
        }
        i = i + 1;
    }
    assert(session_views(sessions@).take(i as int) =~= session_views(sessions@));
}

/// A list of agent sessions, most recently active first, those active at
/// the same time in session order.
pub open spec fn by_activity(s: Seq<SessionView>, order: Seq<int>) -> bool {
    forall|k: int, l: int|
        0 <= k < l < order.len() ==> s[#[trigger] order[k]].last_active
            > s[#[trigger] order[l]].last_active || (s[order[k]].last_active
            == s[order[l]].last_active && order[k] < order[l])
}

proof fn lemma_agent_order_sorted(s: Seq<SessionView>, n: int)
    requires
        0 <= n <= s.len(),
    ensures
        by_activity(s, agent_order(s, n)),
        forall|i: int|
            0 <= i < n ==> s[i].agent == #[trigger] agent_order(s, n).contains(i),
    decreases n,
{
    if n > 0 {
        lemma_agent_order_sorted(s, n - 1);
        lemma_agent_order(s, n - 1);
        lemma_agent_order(s, n);
        let before = agent_order(s, n - 1);
        let after = agent_order(s, n);
        if s[n - 1].agent {
            let active = s[n - 1].last_active;
            let at = activity_slot(s, before, active, 0);
            lemma_activity_slot(s, before, active, 0);
            assert forall|k: int, l: int| 0 <= k < l < after.len() implies s[#[trigger]
            after[k]].last_active > s[#[trigger] after[l]].last_active || (
            s[after[k]].last_active == s[after[l]].last_active && after[k] < after[l]) by {
                if l < at {
                    assert(after[k] == before[k]);
                    assert(after[l] == before[l]);
                } else if l == at {
                    assert(after[k] == before[k]);
                } else if k > at {
                    assert(after[k] == before[k - 1]);
                    assert(after[l] == before[l - 1]);
                } else if k == at {
                    assert(after[l] == before[l - 1]);
                    assert(s[before[at]].last_active < active);
                    if l - 1 > at {
                        assert(s[before[l - 1]].last_active <= s[before[at]].last_active);
                    }
                } else {
                    assert(after[k] == before[k]);
                    assert(after[l] == before[l - 1]);
                }
            }
            assert forall|i: int| 0 <= i < n implies s[i].agent == #[trigger] after.contains(i) by {
                if i == n - 1 {
                    assert(after[at] == i);
                } else if before.contains(i) {
                    let k = choose|k: int| 0 <= k < before.len() && before[k] == i;
                    if k < at {
                        assert(after[k] == i);
                    } else {
                        assert(after[k + 1] == i);
                    }
                } else {
                    if after.contains(i) {
                        let k = choose|k: int| 0 <= k < after.len() && after[k] == i;
                        if k < at {
                            assert(before[k] == i);
                        } else if k > at {
                            assert(before[k - 1] == i);
                        }
                    }
                    assert(s[i].agent == before.contains(i));
                }
            }
        } else {
            assert forall|i: int| 0 <= i < n implies s[i].agent == #[trigger] after.contains(i) by {
                if i == n - 1 {
                    if before.contains(i) {
                        let k = choose|k: int| 0 <= k < before.len() && before[k] == i;
                        assert(before[k] < n - 1);
                    }
                } else {
                    assert(s[i].agent == before.contains(i));
                }
            }
        }
    }
}

/// The agent list shows exactly the agent sessions, sorted by activity.
pub proof fn law_agents_by_activity(s: Seq<SessionView>)
    ensures
        by_activity(s, agent_order(s, s.len() as int)),
        forall|i: int|
            0 <= i < s.len() ==> s[i].agent == #[trigger] agent_order(
                s,
                s.len() as int,
            ).contains(i),
        forall|k: int|
            0 <= k < agent_entries(s).len() ==> s[(#[trigger] agent_entries(s)[k]).running->0].agent,
{
    lemma_agent_order_sorted(s, s.len() as int);
    lemma_agent_order(s, s.len() as int);
    assert forall|k: int| 0 <= k < agent_entries(s).len() implies s[(
    #[trigger] agent_entries(s)[k]).running->0].agent by {
        assert(s[agent_order(s, s.len() as int)[k]].agent);
    }
}

/// Creating a session keeps the display order: pinned sessions before
/// unpinned ones, in slot order.
pub proof fn law_create_keeps_order(
    pins: Seq<Seq<char>>,
    s: Seq<SessionView>,
    name: Seq<char>,
    fresh: Fresh,
)
    requires
        in_pin_order(pins, s),
    ensures
        in_pin_order(pins, with_session(pins, s, name, fresh)),
{
    let at = place(pins, s, name);
    let w = with_session(pins, s, name, fresh);
    lemma_slot_from(pins, name, 0);
    lemma_rank(pins, name);
    if let Some(k) = slot_from(pins, name, 0) {
        lemma_place_from(pins, s, k, 0);
    }
    assert forall|i: int, j: int| 0 <= i < j < w.len() implies rank(pins, (#[trigger] w[i]).name)
        <= rank(pins, (#[trigger] w[j]).name) by {
        if i < at {
            assert(w[i] == s[i]);
            lemma_rank(pins, s[i].name);
        } else if i > at {
            assert(w[i] == s[i - 1]);
        }
        if j < at {
            assert(w[j] == s[j]);
        } else if j > at {
            assert(w[j] == s[j - 1]);
            if i == at && j - 1 > at {
                assert(rank(pins, s[at].name) <= rank(pins, s[j - 1].name));
            }
        }
    }
}

proof fn lemma_rank(pins: Seq<Seq<char>>, name: Seq<char>)
    ensures
        0 <= rank(pins, name) <= pins.len(),
        slot_from(pins, name, 0) is Some ==> rank(pins, name) < pins.len(),
{
    lemma_slot_from(pins, name, 0);
}

pub proof fn lemma_unpinned(pins: Seq<Seq<char>>, s: Seq<SessionView>, n: int)
    requires
        0 <= n <= s.len(),
    ensures
        forall|k: int|
            0 <= k < unpinned_entries(pins, s, n).len() ==> (#[trigger] unpinned_entries(
                pins,
                s,
                n,
            )[k]).running is Some && 0 <= unpinned_entries(pins, s, n)[k].running->0 < n,
    decreases n,
{
    if n > 0 {
        lemma_unpinned(pins, s, n - 1);
        assert forall|k: int| 0 <= k < unpinned_entries(pins, s, n).len() implies (
        #[trigger] unpinned_entries(pins, s, n)[k]).running is Some && 0 <= unpinned_entries(
            pins,
            s,
            n,
        )[k].running->0 < n by {
            let before = unpinned_entries(pins, s, n - 1);
            if k < before.len() {
                assert(unpinned_entries(pins, s, n)[k] == before[k]);
            }
        }
    }
}

pub proof fn lemma_place(pins: Seq<Seq<char>>, s: Seq<SessionView>, name: Seq<char>)
    ensures
        0 <= place(pins, s, name) <= s.len(),
{
    if let Some(k) = slot_from(pins, name, 0) {
        lemma_place_from(pins, s, k, 0);
    }
}

pub proof fn lemma_slot(pins: Seq<Seq<char>>, name: Seq<char>)
    ensures
        slot_from(pins, name, 0) matches Some(k) ==> 0 <= k < pins.len() && pins[k] == name,
{
    lemma_slot_from(pins, name, 0);
}

pub proof fn lemma_first_named(s: Seq<SessionView>, name: Seq<char>, i: int)
    requires
        0 <= i < s.len(),
        s[i].name == name,
        forall|j: int| 0 <= j < i ==> (#[trigger] s[j]).name != name,
    ensures
        named_from(s, name, 0) == Some(i),
{
    lemma_named_before(s, name, 0, i);
}

proof fn lemma_named_before(s: Seq<SessionView>, name: Seq<char>, from: int, i: int)
    requires
        0 <= from <= i < s.len(),
        s[i].name == name,
        forall|j: int| 0 <= j < i ==> (#[trigger] s[j]).name != name,
    ensures
        named_from(s, name, from) == Some(i),
    decreases i - from,
{
    if from < i {
        lemma_named_before(s, name, from + 1, i);
    }
}

pub proof fn lemma_unpinned_has(pins: Seq<Seq<char>>, s: Seq<SessionView>, n: int, i: int)
    requires
        0 <= i < n <= s.len(),
        !s[i].agent,
        slot_from(pins, s[i].name, 0) is None,
    ensures
        exists|k: int|
            0 <= k < unpinned_entries(pins, s, n).len() && (#[trigger] unpinned_entries(
                pins,
                s,
                n,
            )[k]).running == Some(i) && unpinned_entries(pins, s, n)[k].name == s[i].name,
    decreases n,
{
    let before = unpinned_entries(pins, s, n - 1);
    let all = unpinned_entries(pins, s, n);
    if i == n - 1 {
        assert(all[before.len() as int].running == Some(i));
    } else {
        lemma_unpinned_has(pins, s, n - 1, i);
        let k = choose|k: int|
            0 <= k < before.len() && (#[trigger] before[k]).running == Some(i) && before[k].name
                == s[i].name;
        assert(all[k] == before[k]);
    }
}

proof fn lemma_unpinned_once(pins: Seq<Seq<char>>, s: Seq<SessionView>, n: int)
    requires
        0 <= n <= s.len(),
    ensures
        forall|k: int|
            0 <= k < unpinned_entries(pins, s, n).len() ==> {
                let e = #[trigger] unpinned_entries(pins, s, n)[k];
                &&& e.running is Some
                &&& 0 <= e.running->0 < n
                &&& !s[e.running->0].agent
                &&& slot_from(pins, s[e.running->0].name, 0) is None
            },
        forall|k: int, l: int|
            0 <= k < unpinned_entries(pins, s, n).len() && 0 <= l < unpinned_entries(
                pins,
                s,
                n,
            ).len() && (#[trigger] unpinned_entries(pins, s, n)[k]).running == (
            #[trigger] unpinned_entries(pins, s, n)[l]).running ==> k == l,
    decreases n,
{
    if n > 0 {
        lemma_unpinned_once(pins, s, n - 1);
        let before = unpinned_entries(pins, s, n - 1);
        let all = unpinned_entries(pins, s, n);
        if !s[n - 1].agent && slot_from(pins, s[n - 1].name, 0) is None {
            let m = before.len() as int;
            assert(all[m].running == Some(n - 1));
            assert forall|k: int| 0 <= k < m implies #[trigger] all[k] == before[k] by {}
        }
    }
}

pub proof fn lemma_loose_agents(pins: Seq<Seq<char>>, s: Seq<SessionView>, n: int)
    requires
        0 <= n <= agent_entries(s).len(),
    ensures
        forall|k: int|
            0 <= k < loose_agents(pins, s, n).len() ==> {
                let e = #[trigger] loose_agents(pins, s, n)[k];
                &&& e.running is Some
                &&& 0 <= e.running->0 < s.len()
                &&& s[e.running->0].agent
                &&& !pin_shows(pins, s, e.running->0)
                &&& exists|m: int| 0 <= m < n && #[trigger] agent_entries(s)[m] == e
            },
        forall|k: int, l: int|
            0 <= k < loose_agents(pins, s, n).len() && 0 <= l < loose_agents(pins, s, n).len() && (
            #[trigger] loose_agents(pins, s, n)[k]).running == (#[trigger] loose_agents(
                pins,
                s,
                n,
            )[l]).running ==> k == l,
    decreases n,
{
    if n > 0 {
        lemma_loose_agents(pins, s, n - 1);
        lemma_agent_order(s, s.len() as int);
        lemma_agent_order_sorted(s, s.len() as int);
        let order = agent_order(s, s.len() as int);
        let a = agent_entries(s);
        let e = a[n - 1];
        assert(e.running == Some(order[n - 1]));
        let before = loose_agents(pins, s, n - 1);
        let all = loose_agents(pins, s, n);
        assert forall|k: int| 0 <= k < before.len() implies {
            &&& exists|m: int| 0 <= m < n && #[trigger] a[m] == before[k]
            &&& (#[trigger] before[k]).running != e.running
        } by {
            let m = choose|m: int| 0 <= m < n - 1 && #[trigger] a[m] == before[k];
            assert(a[m].running == Some(order[m]));
            if order[m] == order[n - 1] {
                assert(s[order[m]].last_active == s[order[n - 1]].last_active);
            }
        }
        if !pin_shows(pins, s, e.running->0) {
            let m = before.len() as int;
            assert(all[m] == e);
            assert forall|k: int| 0 <= k < m implies #[trigger] all[k] == before[k] by {}
        }
    }
}

/// An agent session that no pin shows is among the agent rows.
pub proof fn lemma_loose_has(pins: Seq<Seq<char>>, s: Seq<SessionView>, n: int, m: int)
    requires
        0 <= m < n <= agent_entries(s).len(),
        !pin_shows(pins, s, agent_entries(s)[m].running->0),
    ensures
        exists|k: int|
            0 <= k < loose_agents(pins, s, n).len() && #[trigger] loose_agents(pins, s, n)[k]
                == agent_entries(s)[m],
    decreases n,
{
    let before = loose_agents(pins, s, n - 1);
    let all = loose_agents(pins, s, n);
    if m == n - 1 {
        assert(all[before.len() as int] == agent_entries(s)[m]);
    } else {
        lemma_loose_has(pins, s, n - 1, m);
        let k = choose|k: int| 0 <= k < before.len() && #[trigger] before[k] == agent_entries(s)[m];
        assert(all[k] == before[k]);
    }
}

/// No two sessions have the same name.
pub open spec fn names_apart(s: Seq<SessionView>) -> bool {
    forall|i: int, j: int|
        0 <= i < s.len() && 0 <= j < s.len() && (#[trigger] s[i]).name == (#[trigger] s[j]).name
            ==> i == j
}

/// Session `i` has a row in the list of everything, under its name.
pub open spec fn has_row(pins: Seq<Seq<char>>, s: Seq<SessionView>, i: int) -> bool {
    exists|k: int|
        0 <= k < all_entries(pins, s).len() && (#[trigger] all_entries(pins, s)[k]).running == Some(
            i,
        ) && all_entries(pins, s)[k].name == s[i].name
}

/// Each session is listed exactly once, under its name: with session names
/// apart and pin names apart, every running session has one row in the list
/// of everything, and no row stands for anything else.
pub proof fn law_one_row_each(pins: Seq<Seq<char>>, s: Seq<SessionView>)
    requires
        names_apart(s),
        pins.no_duplicates(),
    ensures
        forall|i: int| 0 <= i < s.len() ==> #[trigger] has_row(pins, s, i),
        forall|k: int, l: int|
            0 <= k < all_entries(pins, s).len() && 0 <= l < all_entries(pins, s).len() && (
            #[trigger] all_entries(pins, s)[k]).running is Some && all_entries(pins, s)[k].running
                == (#[trigger] all_entries(pins, s)[l]).running ==> k == l,
        forall|k: int|
            0 <= k < all_entries(pins, s).len() ==> ((#[trigger] all_entries(
                pins,
                s,
            )[k]).running matches Some(i) ==> 0 <= i < s.len() && s[i].name == all_entries(
                pins,
                s,
            )[k].name),
{
    let pinned = pinned_entries(pins, s);
    let rest = unpinned_entries(pins, s, s.len() as int);
    let agents = agent_entries(s);
    let loose = loose_agents(pins, s, agents.len() as int);
    let all = all_entries(pins, s);
    let p = pinned.len() as int;
    let q = p + rest.len();
    lemma_unpinned_once(pins, s, s.len() as int);
    lemma_unpinned_names(pins, s, s.len() as int);
    lemma_loose_agents(pins, s, agents.len() as int);
    lemma_agent_order(s, s.len() as int);
    assert forall|k: int| 0 <= k < all.len() implies #[trigger] all[k] == if k < p {
        pinned[k]
    } else if k < q {
        rest[k - p]
    } else {
        loose[k - q]
    } by {}
    // A pin's row stands for the session with its name.
    assert forall|k: int| 0 <= k < p implies (#[trigger] pinned[k]).name == pins[k] && (
    pinned[k].running matches Some(i) ==> 0 <= i < s.len() && s[i].name == pins[k] && pin_shows(
        pins,
        s,
        i,
    )) by {
        lemma_named_from(s, pins[k], 0);
        lemma_slot_from(pins, pins[k], 0);
    }
    assert forall|k: int| 0 <= k < all.len() implies ((#[trigger] all[k]).running matches Some(i)
        ==> 0 <= i < s.len() && s[i].name == all[k].name) by {
        if k >= q {
            let m = choose|m: int| 0 <= m < agents.len() && #[trigger] agents[m] == loose[k - q];
            assert(agents[m].name == s[agents[m].running->0].name);
        } else if k >= p {
            assert(rest[k - p].name == s[rest[k - p].running->0].name);
        } else {
            assert(pinned[k].name == pins[k]);
        }
    }
    assert forall|k: int, l: int|
        0 <= k < all.len() && 0 <= l < all.len() && (#[trigger] all[k]).running is Some
            && all[k].running == (#[trigger] all[l]).running implies k == l by {
        let i = all[k].running->0;
        if k < p && l < p {
            assert(pins[k] == pins[l]);
        }
    }
    assert forall|i: int| 0 <= i < s.len() implies #[trigger] has_row(pins, s, i) by {
        lemma_slot_from(pins, s[i].name, 0);
        lemma_first_named(s, s[i].name, i);
        if let Some(k) = slot_from(pins, s[i].name, 0) {
            assert(pinned[k].running == Some(i));
            assert(all[k] == pinned[k]);
        } else if s[i].agent {
            law_agents_by_activity(s);
            let order = agent_order(s, s.len() as int);
            assert(order.contains(i));
            let m = choose|m: int| 0 <= m < order.len() && order[m] == i;
            assert(agents[m].running == Some(i));
            lemma_loose_has(pins, s, agents.len() as int, m);
            let k = choose|k: int| 0 <= k < loose.len() && #[trigger] loose[k] == agents[m];
            assert(all[q + k] == loose[k]);
        } else {
            lemma_unpinned_has(pins, s, s.len() as int, i);
            let k = choose|k: int|
                0 <= k < rest.len() && (#[trigger] rest[k]).running == Some(i) && rest[k].name
                    == s[i].name;
            assert(all[p + k] == rest[k]);
        }
    }
}

proof fn lemma_unpinned_names(pins: Seq<Seq<char>>, s: Seq<SessionView>, n: int)
    requires
        0 <= n <= s.len(),
    ensures
        forall|k: int|
            0 <= k < unpinned_entries(pins, s, n).len() ==> (#[trigger] unpinned_entries(
                pins,
                s,
                n,
            )[k]).name == s[unpinned_entries(pins, s, n)[k].running->0].name,
    decreases n,
{
    if n > 0 {
        lemma_unpinned_names(pins, s, n - 1);
        let before = unpinned_entries(pins, s, n - 1);
        let all = unpinned_entries(pins, s, n);
        assert forall|k: int| 0 <= k < all.len() implies (#[trigger] all[k]).name
            == s[all[k].running->0].name by {
            if k < before.len() {
                assert(all[k] == before[k]);
            }
        }
    }
}

} // verus!
