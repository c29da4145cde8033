//! What the listing and the overlays say of sessions and tabs.

use crate::ansi::{printed, Attr, CmdView, Color};
use crate::clients::ClientView;
use crate::config::{BarPosition, Overlay};
use crate::grid::GridView;
use crate::input::ModeView;
use crate::laws::drawing::{lemma_printed_add, part_at};
use crate::listing::{
    age, age_of, line_drawn, lines_drawn, listing_drawn, name_drawn, name_width, padded, pane_count,
    running_drawn, stopped_drawn, viewed_by,
};
use crate::model::{SessionView, TabView};
use crate::render::{manager_drawn, naming_drawn, session_drawn};
use crate::screens::{found_items, manager_items, screen_drawn};
use crate::sessions::{agent_entries, all_entries, loose_agents, manager_list, EntryView};
use crate::text::decimal;
use vstd::prelude::*;

verus! {

/// The panes of the first `n` tabs, one after the other.
pub open spec fn panes_of(tabs: Seq<TabView>, n: int) -> Seq<u64>
    decreases n,
{
    if n <= 0 {
        Seq::empty()
    } else {
        panes_of(tabs, n - 1) + tabs[n - 1].layout.pane_seq()
    }
}

proof fn lemma_pane_count(tabs: Seq<TabView>, n: int)
    ensures
        pane_count(tabs, n) == panes_of(tabs, n).len(),
    decreases n,
{
    if n > 0 {
        lemma_pane_count(tabs, n - 1);
    }
}

/// A name filled up with blanks to a width.
pub open spec fn filled(name: Seq<char>, width: nat) -> Seq<char> {
    if name.len() < width {
        name + Seq::new((width - name.len()) as nat, |i: int| ' ')
    } else {
        name
    }
}

/// The line of an entry in the listing. A running session has a dot, full when
/// a client is on it, its name, how many tabs and panes it has, how long ago
/// it was active when it is an agent's, and whether a client is on it; a pin
/// that does not run says so. The dot and the last word are in the accent
/// colour and the name is bold when a client is on the session, and only then.
pub proof fn law_listing_line(
    e: EntryView,
    width: nat,
    s: Seq<SessionView>,
    clients: Seq<ClientView>,
    accent: Color,
    now: u64,
)
    ensures
        ({
            let c = line_drawn(e, width, s, clients, accent, now);
            match e.running {
                None => printed(c) == "○ "@ + filled(e.name, width) + "  not running"@ + "\n"@
                    && c.contains(CmdView::Attr(Attr::Dim)),
                Some(si) => {
                    let on = exists|j: int|
                        0 <= j < clients.len() && (#[trigger] clients[j]).attached == Some(s[si].id)
                            && !clients[j].closing && !clients[j].dead;
                    let tabs = s[si].tabs.len();
                    let panes = panes_of(s[si].tabs, tabs as int).len();
                    &&& printed(c) == (if on {
                        "● "@
                    } else {
                        "○ "@
                    }) + filled(e.name, width) + ("  "@ + (decimal(tabs) + " "@ + "tab"@ + (if tabs
                        == 1 {
                        ""@
                    } else {
                        "s"@
                    })) + " · "@ + (decimal(panes) + " "@ + "pane"@ + (if panes == 1 {
                        ""@
                    } else {
                        "s"@
                    })) + (if s[si].agent {
                        " · "@ + age(age_of(s[si], now)) + " ago"@
                    } else {
                        ""@
                    })) + (if on {
                        "  "@ + "attached"@
                    } else {
                        Seq::empty()
                    }) + "\n"@
                    &&& c.contains(CmdView::Attr(Attr::Bold)) <==> on
                    &&& accent != Color::Reset ==> (c.contains(CmdView::Fg(accent)) <==> on)
                },
            }
        }),
{
    let name = padded(e.name, width);
    assert(name =~= filled(e.name, width));
    let c = line_drawn(e, width, s, clients, accent, now);
    let end = seq![CmdView::Print("\n"@)];
    lemma_one("\n"@);
    match e.running {
        None => {
            let body = stopped_drawn(name);
            lemma_printed_add(body, end);
            lemma_three(body[0], "○ "@ + name + "  not running"@, body[2]);
            assert(body =~= seq![body[0], body[1], body[2]]);
            assert(c[0] == CmdView::Attr(Attr::Dim));
        },
        Some(si) => {
            let on = viewed_by(clients, s[si].id);
            lemma_pane_count(s[si].tabs, s[si].tabs.len() as int);
            let body = running_drawn(name, s[si], on, accent, now);
            lemma_running_line(name, s[si], on, accent, now);
            lemma_printed_add(body, end);
            lemma_contains_end(body, end[0], CmdView::Attr(Attr::Bold));
            lemma_contains_end(body, end[0], CmdView::Fg(accent));
        },
    }
}

proof fn lemma_contains_end(a: Seq<CmdView>, b: CmdView, x: CmdView)
    requires
        b != x,
    ensures
        (a + seq![b]).contains(x) == a.contains(x),
{
    let c = a + seq![b];
    if a.contains(x) {
        let i = choose|i: int| 0 <= i < a.len() && a[i] == x;
        assert(c[i] == x);
    }
    if c.contains(x) {
        let i = choose|i: int| 0 <= i < c.len() && c[i] == x;
        if i < a.len() {
            assert(a[i] == x);
        }
    }
}

proof fn lemma_one(text: Seq<char>)
    ensures
        printed(seq![CmdView::Print(text)]) == text,
{
    let c = seq![CmdView::Print(text)];
    reveal_with_fuel(printed, 2);
    assert(c.drop_last() =~= Seq::<CmdView>::empty());
    assert(printed(c) =~= text);
}

proof fn lemma_running_line(
    name: Seq<char>,
    s: SessionView,
    on: bool,
    accent: Color,
    now: u64,
)
    ensures
        ({
            let c = running_drawn(name, s, on, accent, now);
            &&& printed(c) == (if on {
                "● "@
            } else {
                "○ "@
            }) + name + (crate::listing::counts(s) + (if s.agent {
                " · "@ + age(age_of(s, now)) + " ago"@
            } else {
                ""@
            })) + (if on {
                "  "@ + "attached"@
            } else {
                Seq::empty()
            })
            &&& c.contains(CmdView::Attr(Attr::Bold)) <==> on
            &&& accent != Color::Reset ==> (c.contains(CmdView::Fg(accent)) <==> on)
        }),
{
    let c = running_drawn(name, s, on, accent, now);
    let first = name_drawn(name, on, accent);
    let text = crate::listing::counts(s) + (if s.agent {
        " · "@ + age(age_of(s, now)) + " ago"@
    } else {
        ""@
    });
    let mid = seq![
        CmdView::Attr(Attr::Dim),
        CmdView::Print(text),
        CmdView::Attr(Attr::Reset),
    ];
    lemma_name_text(name, on, accent);
    lemma_three(mid[0], text, mid[2]);
    lemma_printed_add(first, mid);
    if on {
        let tail = seq![
            CmdView::Print("  "@),
            CmdView::Fg(accent),
            CmdView::Print("attached"@),
            CmdView::Fg(Color::Reset),
        ];
        lemma_tail(accent);
        lemma_printed_add(first + mid, tail);
        assert(c[0] == CmdView::Fg(accent));
        assert(c[3] == CmdView::Attr(Attr::Bold));
    } else {
        let tail = Seq::<CmdView>::empty();
        assert(c =~= first + mid);
        assert(printed(c) =~= printed(first) + printed(mid) + Seq::<char>::empty());
        assert(first.len() == 4);
        assert forall|i: int| 0 <= i < c.len() implies #[trigger] c[i] != CmdView::Attr(Attr::Bold)
            && !(c[i] is Fg) by {
            if i < 4 {
                assert(c[i] == first[i]);
            } else {
                assert(c[i] == mid[i - 4]);
            }
        }
    }
}

proof fn lemma_three(a: CmdView, text: Seq<char>, b: CmdView)
    requires
        !(a is Print),
        !(b is Print),
    ensures
        printed(seq![a, CmdView::Print(text), b]) == text,
{
    let c = seq![a, CmdView::Print(text), b];
    reveal_with_fuel(printed, 4);
    assert(c.drop_last() =~= seq![a, CmdView::Print(text)]);
    assert(c.drop_last().drop_last() =~= seq![a]);
    assert(c.drop_last().drop_last().drop_last() =~= Seq::<CmdView>::empty());
    assert(printed(c) =~= text);
}

proof fn lemma_tail(accent: Color)
    ensures
        printed(
            seq![
                CmdView::Print("  "@),
                CmdView::Fg(accent),
                CmdView::Print("attached"@),
                CmdView::Fg(Color::Reset),
            ],
        ) == "  "@ + "attached"@,
{
    let a = seq![CmdView::Print("  "@)];
    let b = seq![CmdView::Fg(accent), CmdView::Print("attached"@), CmdView::Fg(Color::Reset)];
    lemma_three(CmdView::Fg(accent), "attached"@, CmdView::Fg(Color::Reset));
    lemma_printed_add(a, b);
    reveal_with_fuel(printed, 2);
    assert(a.drop_last() =~= Seq::<CmdView>::empty());
    assert(printed(a) =~= "  "@);
    assert(a + b =~= seq![
        CmdView::Print("  "@),
        CmdView::Fg(accent),
        CmdView::Print("attached"@),
        CmdView::Fg(Color::Reset),
    ]);
}

proof fn lemma_name_text(name: Seq<char>, on: bool, accent: Color)
    ensures
        printed(name_drawn(name, on, accent)) == (if on {
            "● "@
        } else {
            "○ "@
        }) + name,
{
    let c = name_drawn(name, on, accent);
    if on {
        lemma_three(CmdView::Fg(accent), "● "@, CmdView::Fg(Color::Reset));
        lemma_three(CmdView::Attr(Attr::Bold), name, CmdView::Attr(Attr::Reset));
        let a = seq![CmdView::Fg(accent), CmdView::Print("● "@), CmdView::Fg(Color::Reset)];
        let b = seq![
            CmdView::Attr(Attr::Bold),
            CmdView::Print(name),
            CmdView::Attr(Attr::Reset),
        ];
        lemma_printed_add(a, b);
        assert(a + b =~= c);
    } else {
        lemma_three(CmdView::Attr(Attr::Dim), "○ "@, CmdView::Attr(Attr::Reset));
        let a = seq![
            CmdView::Attr(Attr::Dim),
            CmdView::Print("○ "@),
            CmdView::Attr(Attr::Reset),
        ];
        let b = seq![CmdView::Print(name)];
        lemma_printed_add(a, b);
        reveal_with_fuel(printed, 2);
        assert(b.drop_last() =~= Seq::<CmdView>::empty());
        assert(printed(b) =~= name);
        assert(a + b =~= c);
    }
}

/// How many commands the first `k` lines of a listing take.
pub open spec fn lines_before(
    e: Seq<EntryView>,
    width: nat,
    s: Seq<SessionView>,
    clients: Seq<ClientView>,
    accent: Color,
    now: u64,
    k: int,
) -> nat
    decreases k,
{
    if k <= 0 {
        0
    } else {
        lines_before(e, width, s, clients, accent, now, k - 1) + line_drawn(
            e[k - 1],
            width,
            s,
            clients,
            accent,
            now,
        ).len()
    }
}

/// The listing has one line for each entry, in their order and nothing else,
/// the names filled up to the longest of them; without an entry it says so.
pub proof fn law_listing(
    pins: Seq<Seq<char>>,
    s: Seq<SessionView>,
    clients: Seq<ClientView>,
    accent: Color,
    now: u64,
    width: nat,
    k: int,
)
    requires
        forall|i: int|
            0 <= i < all_entries(pins, s).len() ==> (#[trigger] all_entries(pins, s)[i]).name.len()
                <= width,
        all_entries(pins, s).len() > 0 ==> exists|i: int|
            0 <= i < all_entries(pins, s).len() && (#[trigger] all_entries(
                pins,
                s,
            )[i]).name.len() == width,
    ensures
        ({
            let e = all_entries(pins, s);
            let c = listing_drawn(pins, s, clients, accent, now);
            let n = e.len() as int;
            &&& n == 0 ==> c == seq![CmdView::Print("no sessions\n"@)]
            &&& 0 <= k < n ==> c.len() == lines_before(e, width, s, clients, accent, now, n)
                && part_at(
                c,
                lines_before(e, width, s, clients, accent, now, k) as int,
                line_drawn(e[k], width, s, clients, accent, now),
            )
        }),
{
    let e = all_entries(pins, s);
    let n = e.len() as int;
    if 0 <= k < n {
        lemma_width(e, n);
        assert(name_width(e, n) == width);
        lemma_lines(e, width, s, clients, accent, now, n, k);
    }
}

proof fn lemma_width(e: Seq<EntryView>, n: int)
    requires
        0 <= n <= e.len(),
    ensures
        forall|i: int| 0 <= i < n ==> (#[trigger] e[i]).name.len() <= name_width(e, n),
        n > 0 ==> exists|i: int| 0 <= i < n && (#[trigger] e[i]).name.len() == name_width(e, n),
    decreases n,
{
    if n > 0 {
        lemma_width(e, n - 1);
        if name_width(e, n) == e[n - 1].name.len() {
        } else if n > 1 {
            let i = choose|i: int|
                0 <= i < n - 1 && (#[trigger] e[i]).name.len() == name_width(e, n - 1);
            assert(e[i].name.len() == name_width(e, n));
        }
    }
}

proof fn lemma_lines(
    e: Seq<EntryView>,
    width: nat,
    s: Seq<SessionView>,
    clients: Seq<ClientView>,
    accent: Color,
    now: u64,
    n: int,
    k: int,
)
    requires
        0 <= k < n,
    ensures
        lines_drawn(e, width, s, clients, accent, now, n).len() == lines_before(
            e,
            width,
            s,
            clients,
            accent,
            now,
            n,
        ),
        part_at(
            lines_drawn(e, width, s, clients, accent, now, n),
            lines_before(e, width, s, clients, accent, now, k) as int,
            line_drawn(e[k], width, s, clients, accent, now),
        ),
    decreases n,
{
    let c = lines_drawn(e, width, s, clients, accent, now, n);
    let before = lines_drawn(e, width, s, clients, accent, now, n - 1);
    let part = line_drawn(e[k], width, s, clients, accent, now);
    let i = lines_before(e, width, s, clients, accent, now, k) as int;
    if k < n - 1 {
        lemma_lines(e, width, s, clients, accent, now, n - 1, k);
        assert(c.subrange(i, i + part.len()) =~= before.subrange(i, i + part.len()));
    } else {
        lemma_lines_len(e, width, s, clients, accent, now, n - 1);
        assert(c.subrange(i, i + part.len()) =~= part);
    }
}

proof fn lemma_lines_len(
    e: Seq<EntryView>,
    width: nat,
    s: Seq<SessionView>,
    clients: Seq<ClientView>,
    accent: Color,
    now: u64,
    n: int,
)
    ensures
        lines_drawn(e, width, s, clients, accent, now, n).len() == lines_before(
            e,
            width,
            s,
            clients,
            accent,
            now,
            n,
        ),
    decreases n,
{
    if n > 0 {
        lemma_lines_len(e, width, s, clients, accent, now, n - 1);
    }
}

/// The listing lists what the session manager lists, in that order, and after
/// it the agents' sessions that no pin shows, in the order of the manager's
/// list of agents.
pub proof fn law_listing_order(pins: Seq<Seq<char>>, s: Seq<SessionView>)
    ensures
        ({
            let all = all_entries(pins, s);
            let first = manager_list(pins, s, false);
            let n = first.len() as int;
            &&& n <= all.len()
            &&& all.take(n) == first
            &&& all.skip(n) == manager_list(pins, s, true).filter(
                |e: EntryView| !crate::sessions::pin_shows(pins, s, e.running->0),
            )
        }),
{
    let all = all_entries(pins, s);
    let first = manager_list(pins, s, false);
    let n = first.len() as int;
    let a = agent_entries(s);
    lemma_loose(pins, s, a.len() as int);
    assert(a.take(a.len() as int) =~= a);
    assert(all.take(n) =~= first);
    assert(all.skip(n) =~= loose_agents(pins, s, a.len() as int));
}

proof fn lemma_loose(pins: Seq<Seq<char>>, s: Seq<SessionView>, n: int)
    requires
        0 <= n <= agent_entries(s).len(),
    ensures
        loose_agents(pins, s, n) == agent_entries(s).take(n).filter(
            |e: EntryView| !crate::sessions::pin_shows(pins, s, e.running->0),
        ),
    decreases n,
{
    let a = agent_entries(s);
    reveal(Seq::filter);
    if n > 0 {
        lemma_loose(pins, s, n - 1);
        assert(a.take(n).drop_last() =~= a.take(n - 1));
        assert(a.take(n).last() == a[n - 1]);
    } else {
        assert(a.take(0) =~= Seq::<EntryView>::empty());
    }
}

/// A pin shows the first session of its name.
pub proof fn law_pin_shows(pins: Seq<Seq<char>>, s: Seq<SessionView>, i: int)
    requires
        0 <= i < s.len(),
    ensures
        crate::sessions::pin_shows(pins, s, i) <==> pins.contains(s[i].name) && (forall|j: int|
            0 <= j < i ==> (#[trigger] s[j]).name != s[i].name),
{
    crate::sessions::lemma_named_from(s, s[i].name, 0);
    lemma_slot_some(pins, s[i].name, 0);
}

proof fn lemma_slot_some(pins: Seq<Seq<char>>, name: Seq<char>, i: int)
    requires
        0 <= i,
    ensures
        crate::sessions::slot_from(pins, name, i) is Some <==> (exists|k: int|
            i <= k < pins.len() && #[trigger] pins[k] == name),
    decreases pins.len() - i,
{
    if i < pins.len() && pins[i] != name {
        lemma_slot_some(pins, name, i + 1);
    }
}

/// The rows of the session manager: the names of the entries, in the list of
/// agents with their ages, the viewed session marked, what does not run dim.
pub proof fn law_session_rows(
    pins: Seq<Seq<char>>,
    s: Seq<SessionView>,
    si: int,
    agents: bool,
    now: u64,
    k: int,
)
    requires
        0 <= k < manager_list(pins, s, agents).len(),
    ensures
        ({
            let e = manager_list(pins, s, agents)[k];
            let row = manager_items(Overlay::Sessions { agents }, pins, s, si, now)[k];
            &&& manager_items(Overlay::Sessions { agents }, pins, s, si, now).len() == manager_list(
                pins,
                s,
                agents,
            ).len()
            &&& row.active <==> e.running == Some(si)
            &&& row.dim <==> e.running is None
            &&& !agents || e.running is None ==> row.label == e.name
            &&& agents && e.running is Some ==> row.label == e.name + "  "@ + age(
                age_of(s[e.running->0], now),
            )
        }),
{
}

/// The rows of the tab manager: the names of the tabs in their order, the open
/// one marked.
pub proof fn law_tab_rows(pins: Seq<Seq<char>>, s: Seq<SessionView>, si: int, now: u64, k: int)
    requires
        0 <= k < s[si].tabs.len(),
    ensures
        ({
            let rows = manager_items(Overlay::Tabs, pins, s, si, now);
            &&& rows.len() == s[si].tabs.len()
            &&& rows[k].label == s[si].tabs[k].name
            &&& rows[k].active <==> k == s[si].active_tab
            &&& !rows[k].dim
        }),
{
}

/// What a client shows, by its mode: the panes of its session, a manager under
/// its title with the keys that it takes, the same with what is searched for
/// behind the title, or the name prompt.
pub proof fn law_screens(
    c: ClientView,
    s: Seq<SessionView>,
    si: int,
    grids: Seq<GridView>,
    pins: Seq<Seq<char>>,
    accent: Color,
    bar: BarPosition,
    now: u64,
)
    ensures
        ({
            let drawn = screen_drawn(c, s, si, grids, pins, accent, bar, now);
            match c.mode {
                ModeView::Running => drawn == session_drawn(s[si], grids, c.size, accent, bar),
                ModeView::Manager { overlay, selected } => drawn == manager_drawn(
                    title(overlay, s[si]),
                    manager_items(overlay, pins, s, si, now),
                    selected,
                    c.size,
                    accent,
                    match overlay {
                        Overlay::Sessions { agents: false } =>
                            "enter switch · n new · r rename · x kill · / search · a agents · esc close"@,
                        Overlay::Sessions { agents: true } =>
                            "enter switch · n new · r rename · x kill · / search · a sessions · esc close"@,
                        Overlay::Tabs =>
                            "enter switch · n new · r rename · x kill · / search · esc close"@,
                    },
                ),
                ModeView::Search { overlay, text, selected } => drawn == manager_drawn(
                    title(overlay, s[si]) + " / "@ + text,
                    found_items(overlay, text, pins, s, si, now),
                    selected,
                    c.size,
                    accent,
                    "enter switch · esc back"@,
                ),
                ModeView::Naming { overlay, name, rename } => drawn == naming_drawn(
                    match (overlay, rename) {
                        (Overlay::Sessions { .. }, None) => "new session"@,
                        (Overlay::Sessions { .. }, Some(_)) => "rename session"@,
                        (Overlay::Tabs, None) => "new tab"@,
                        (Overlay::Tabs, Some(_)) => "rename tab"@,
                    },
                    name,
                    c.size,
                    accent,
                    match rename {
                        None => "enter create · esc cancel"@,
                        Some(_) => "enter rename · esc cancel"@,
                    },
                ),
            }
        }),
{
}

/// The title of a manager.
pub open spec fn title(overlay: Overlay, s: SessionView) -> Seq<char> {
    match overlay {
        Overlay::Sessions { agents: false } => "sessions"@,
        Overlay::Sessions { agents: true } => "agents"@,
        Overlay::Tabs => s.name + " · tabs"@,
    }
}

} // verus!
