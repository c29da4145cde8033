//! What each client gets to see: its session, a manager overlay or the name
//! prompt.

use crate::ansi::{all_placeable, cmds, encode, encoded, Cmd, CmdView, Color};
use crate::clients::{Client, ClientView};
use crate::config::{BarPosition, Config, Overlay};
use crate::grid::{grid_views, Grid, GridView};
use crate::input::{list_names, row_names, Mode, ModeView};
use crate::listing::{age, age_of, age_text};
use crate::model::{session_views, Session, SessionView, TabView};
use crate::protocol::S2C_OUTPUT;
use crate::render::{
    draw_manager, draw_naming, draw_session, grids_ok, item_views, manager_drawn,
    naming_drawn, placed, session_drawn, ItemView, ListItem,
};
use crate::search::{find_rows, law_rows_found, name_views, rows_found};
use crate::sessions::{entry_views, manager_entries, manager_list, EntryView, SessionEntry};
use vstd::prelude::*;
use vstd::utf8::encode_utf8;

verus! {

/// The row of a session in a manager that shows session `si` as open: agent
/// sessions are tagged with their age.
pub open spec fn session_item(
    e: EntryView,
    s: Seq<SessionView>,
    si: int,
    agents: bool,
    now: u64,
) -> ItemView {
    ItemView {
        label: match e.running {
            Some(k) => if agents {
                e.name + "  "@ + age(age_of(s[k], now))
            } else {
                e.name
            },
            None => e.name,
        },
        active: e.running == Some(si),
        dim: e.running is None,
    }
}

/// The rows of a session manager.
pub open spec fn session_items(
    pins: Seq<Seq<char>>,
    s: Seq<SessionView>,
    si: int,
    agents: bool,
    now: u64,
) -> Seq<ItemView> {
    manager_list(pins, s, agents).map_values(
        |e: EntryView| session_item(e, s, si, agents, now),
    )
}

/// The rows of a tab manager.
pub open spec fn tab_items(s: SessionView) -> Seq<ItemView> {
    s.tabs.map(
        |i: int, t: TabView| ItemView { label: t.name, active: i == s.active_tab, dim: false },
    )
}

/// The title of a manager.
pub open spec fn manager_title(overlay: Overlay, s: SessionView) -> Seq<char> {
    match overlay {
        Overlay::Sessions { agents } => if agents {
            "agents"@
        } else {
            "sessions"@
        },
        Overlay::Tabs => s.name + " · tabs"@,
    }
}

/// The keys that a manager offers.
pub open spec fn manager_footer(overlay: Overlay) -> Seq<char> {
    match overlay {
        Overlay::Sessions { agents } => if agents {
            "enter switch · n new · r rename · x kill · / search · a sessions · esc close"@
        } else {
            "enter switch · n new · r rename · x kill · / search · a agents · esc close"@
        },
        Overlay::Tabs => "enter switch · n new · r rename · x kill · / search · esc close"@,
    }
}

/// The rows of a manager with session `si` open.
pub open spec fn manager_items(
    overlay: Overlay,
    pins: Seq<Seq<char>>,
    s: Seq<SessionView>,
    si: int,
    now: u64,
) -> Seq<ItemView> {
    match overlay {
        Overlay::Sessions { agents } => session_items(pins, s, si, agents, now),
        Overlay::Tabs => tab_items(s[si]),
    }
}

/// The rows of a manager that a search found.
pub open spec fn found_items(
    overlay: Overlay,
    text: Seq<char>,
    pins: Seq<Seq<char>>,
    s: Seq<SessionView>,
    si: int,
    now: u64,
) -> Seq<ItemView> {
    rows_found(row_names(overlay, s, si, pins), text).map_values(
        |i: int| manager_items(overlay, pins, s, si, now)[i],
    )
}

/// The title of the name prompt.
pub open spec fn naming_title(overlay: Overlay, renaming: bool) -> Seq<char> {
    match overlay {
        Overlay::Sessions { .. } => if renaming {
            "rename session"@
        } else {
            "new session"@
        },
        Overlay::Tabs => if renaming {
            "rename tab"@
        } else {
            "new tab"@
        },
    }
}

/// The keys that the name prompt offers.
pub open spec fn naming_footer(renaming: bool) -> Seq<char> {
    if renaming {
        "enter rename · esc cancel"@
    } else {
        "enter create · esc cancel"@
    }
}

/// What a client that views session `si` gets to see.
pub open spec fn screen_drawn(
    c: ClientView,
    s: Seq<SessionView>,
    si: int,
    grids: Seq<GridView>,
    pins: Seq<Seq<char>>,
    accent: Color,
    bar: BarPosition,
    now: u64,
) -> Seq<CmdView> {
    match c.mode {
        ModeView::Running => session_drawn(s[si], grids, c.size, accent, bar),
        ModeView::Manager { overlay, selected } => manager_drawn(
            manager_title(overlay, s[si]),
            manager_items(overlay, pins, s, si, now),
            selected,
            c.size,
            accent,
            manager_footer(overlay),
        ),
        ModeView::Search { overlay, text, selected } => manager_drawn(
            manager_title(overlay, s[si]) + " / "@ + text,
            found_items(overlay, text, pins, s, si, now),
            selected,
            c.size,
            accent,
            "enter switch · esc back"@,
        ),
        ModeView::Naming { overlay, name, rename } => naming_drawn(
            naming_title(overlay, rename is Some),
            name,
            c.size,
            accent,
            naming_footer(rename is Some),
        ),
    }
}

/// A client's screen can be drawn: the grids of the visible panes are there
/// when panes are shown, and an overlay has the columns that a panel takes.
pub open spec fn showable(
    c: ClientView,
    s: Seq<SessionView>,
    si: int,
    grids: Seq<GridView>,
    bar: BarPosition,
) -> bool {
    match c.mode {
        ModeView::Running => s[si].live() && c.size.0 < u16::MAX && c.size.1 < u16::MAX && grids_ok(
            grids,
            placed(s[si].tab(), c.size, bar),
        ),
        ModeView::Manager { selected, .. } => c.size.0 >= 26 && selected < usize::MAX,
        ModeView::Naming { .. } => c.size.0 >= 26,
        ModeView::Search { selected, .. } => c.size.0 >= 26 && selected < usize::MAX,
    }
}

fn push_item(r: &mut Vec<ListItem>, i: ListItem)
    ensures
        item_views(final(r)@) == item_views(old(r)@).push(i@),
{
    r.push(i);
    assert(item_views(r@) =~= item_views(old(r)@).push(i@));
}

fn list_sessions(
    sessions: &Vec<Session>,
    si: usize,
    agents: bool,
    config: &Config,
    now: u64,
) -> (r: Vec<ListItem>)
    ensures
        item_views(r@) == session_items(
            config.names(),
            session_views(sessions@),
            si as int,
            agents,
            now,
        ),
{
    let ghost s = session_views(sessions@);
    let ghost want = session_items(config.names(), s, si as int, agents, now);
    let entries: Vec<SessionEntry> = manager_entries(&config.pins, sessions, agents);
    let ghost e = entry_views(entries@);
    let mut r: Vec<ListItem> = Vec::new();
    let mut i: usize = 0;
    assert(item_views(r@) =~= want.take(0));
    while i < entries.len()
        invariant
            i <= entries@.len(),
            s == session_views(sessions@),
            e == entry_views(entries@),
            e == manager_list(config.names(), s, agents),
            want == session_items(config.names(), s, si as int, agents, now),
            item_views(r@) == want.take(i as int),
        decreases entries@.len() - i,
    {
        assert(e[i as int] == entries@[i as int]@);
        let mut label: String = entries[i].name.clone();
        let mut active: bool = false;
        let dim: bool = entries[i].running.is_none();
        if let Some(k) = entries[i].running {
            proof {
                crate::input::lemma_entry_range(config.names(), s, agents, i as int);
            }
            active = k == si;
            if agents {
                let last: u64 = sessions[k].last_active;
                let secs: u64 = if now < last {
                    0
                } else {
                    now - last
                };
                label.append("  ");
                label.append(age_text(secs).as_str());
                assert(label@ =~= e[i as int].name + "  "@ + age(age_of(s[k as int], now)));
            }
        }
        let item = ListItem { label, active, dim };
        assert(item@ == want[i as int]);
        push_item(&mut r, item);
        i = i + 1;
        assert(item_views(r@) =~= want.take(i as int));
    }
    assert(want.take(i as int) =~= want);
    r
}

fn list_tabs(session: &Session) -> (r: Vec<ListItem>)
    ensures
        item_views(r@) == tab_items(session@),
{
    let ghost want = tab_items(session@);
    let mut r: Vec<ListItem> = Vec::new();
    let mut i: usize = 0;
    assert(item_views(r@) =~= want.take(0));
    while i < session.tabs.len()
        invariant
            i <= session.tabs@.len(),
            want == tab_items(session@),
            item_views(r@) == want.take(i as int),
        decreases session.tabs@.len() - i,
    {
        assert(session@.tabs[i as int] == session.tabs@[i as int]@);
        let item = ListItem {
            label: session.tabs[i].name.clone(),
            active: i == session.active_tab,
            dim: false,
        };
        assert(item@ == want[i as int]);
        push_item(&mut r, item);
        i = i + 1;
        assert(item_views(r@) =~= want.take(i as int));
    }
    assert(want.take(i as int) =~= want);
    r
}

fn list_items(
    overlay: Overlay,
    sessions: &Vec<Session>,
    si: usize,
    config: &Config,
    now: u64,
) -> (r: Vec<ListItem>)
    requires
        si < sessions@.len(),
    ensures
        item_views(r@) == manager_items(
            overlay,
            config.names(),
            session_views(sessions@),
            si as int,
            now,
        ),
{
    match overlay {
        Overlay::Sessions { agents } => list_sessions(sessions, si, agents, config, now),
        Overlay::Tabs => {
            assert(session_views(sessions@)[si as int] == sessions@[si as int]@);
            list_tabs(&sessions[si])
        },
    }
}

fn list_found(
    overlay: Overlay,
    text: &String,
    sessions: &Vec<Session>,
    si: usize,
    config: &Config,
    now: u64,
) -> (r: Vec<ListItem>)
    requires
        si < sessions@.len(),
    ensures
        item_views(r@) == found_items(
            overlay,
            text@,
            config.names(),
            session_views(sessions@),
            si as int,
            now,
        ),
{
    let ghost s = session_views(sessions@);
    let ghost pins = config.names();
    let ghost want = found_items(overlay, text@, pins, s, si as int, now);
    let ghost all = manager_items(overlay, pins, s, si as int, now);
    let names: Vec<String> = list_names(overlay, sessions, si, config);
    let rows: Vec<usize> = find_rows(&names, text.as_str());
    let items: Vec<ListItem> = list_items(overlay, sessions, si, config, now);
    let ghost found = rows_found(row_names(overlay, s, si as int, pins), text@);
    assert(found.len() == rows@.len());
    assert(names@.len() == items@.len()) by {
        assert(name_views(names@).len() == all.len());
    }
    let mut r: Vec<ListItem> = Vec::new();
    let mut k: usize = 0;
    assert(item_views(r@) =~= want.take(0));
    while k < rows.len()
        invariant
            k <= rows@.len(),
            found.len() == rows@.len(),
            found == rows@.map_values(|i: usize| i as int),
            forall|k: int| 0 <= k < rows@.len() ==> #[trigger] rows@[k] < items@.len(),
            all == item_views(items@),
            want == found.map_values(|i: int| all[i]),
            item_views(r@) == want.take(k as int),
        decreases rows@.len() - k,
    {
        let item: &ListItem = &items[rows[k]];
        assert(all[rows@[k as int] as int] == item@);
        assert(found[k as int] == rows@[k as int]);
        push_item(
            &mut r,
            ListItem { label: item.label.clone(), active: item.active, dim: item.dim },
        );
        k = k + 1;
        assert(item_views(r@) =~= want.take(k as int));
    }
    assert(want.take(k as int) =~= want);
    r
}

fn title_of(overlay: Overlay, session: &Session) -> (r: String)
    ensures
        r@ == manager_title(overlay, session@),
{
    match overlay {
        Overlay::Sessions { agents } => {
            let mut r: String = String::new();
            r.append(
                if agents {
                    "agents"
                } else {
                    "sessions"
                },
            );
            assert(r@ =~= manager_title(overlay, session@));
            r
        },
        Overlay::Tabs => {
            let mut r: String = session.name.clone();
            r.append(" · tabs");
            r
        },
    }
}

/// Draw what a client that views session `si` gets to see.
pub fn draw_client(
    c: &Client,
    si: usize,
    sessions: &Vec<Session>,
    grids: &Vec<Grid>,
    config: &Config,
    now: u64,
) -> (out: Vec<Cmd>)
    requires
        si < sessions@.len(),
        showable(c@, session_views(sessions@), si as int, grid_views(grids@), config.bar_position),
    ensures
        cmds(out@) == screen_drawn(
            c@,
            session_views(sessions@),
            si as int,
            grid_views(grids@),
            config.names(),
            config.accent,
            config.bar_position,
            now,
        ),
        all_placeable(cmds(out@)),
{
    let ghost s = session_views(sessions@);
    let session: &Session = &sessions[si];
    assert(s[si as int] == session@);
    let mut out: Vec<Cmd> = Vec::new();
    let ghost none = Seq::<CmdView>::empty();
    assert(cmds(out@) =~= none);
    match &c.mode {
        Mode::Running => {
            draw_session(session, grids, &mut out, c.size, config.accent, config.bar_position);
        },
        Mode::Manager { overlay, selected } => {
            let items: Vec<ListItem> = list_items(*overlay, sessions, si, config, now);
            let title: String = title_of(*overlay, session);
            let footer: &str = match overlay {
                Overlay::Sessions { agents } => if *agents {
                    "enter switch · n new · r rename · x kill · / search · a sessions · esc close"
                } else {
                    "enter switch · n new · r rename · x kill · / search · a agents · esc close"
                },
                Overlay::Tabs => "enter switch · n new · r rename · x kill · / search · esc close",
            };
            draw_manager(
                &mut out,
                title.as_str(),
                &items,
                *selected,
                c.size,
                config.accent,
                footer,
            );
        },
        Mode::Search { overlay, text, selected } => {
            let items: Vec<ListItem> = list_found(*overlay, text, sessions, si, config, now);
            let mut title: String = title_of(*overlay, session);
            title.append(" / ");
            title.append(text.as_str());
            draw_manager(
                &mut out,
                title.as_str(),
                &items,
                *selected,
                c.size,
                config.accent,
                "enter switch · esc back",
            );
        },
        Mode::Naming { overlay, name, rename } => {
            let renaming: bool = rename.is_some();
            let title: &str = match overlay {
                Overlay::Sessions { .. } => if renaming {
                    "rename session"
                } else {
                    "new session"
                },
                Overlay::Tabs => if renaming {
                    "rename tab"
                } else {
                    "new tab"
                },
            };
            let footer: &str = if renaming {
                "enter rename · esc cancel"
            } else {
                "enter create · esc cancel"
            };
            draw_naming(&mut out, title, name.as_str(), c.size, config.accent, footer);
        },
    }
    assert(cmds(out@) =~= screen_drawn(
        c@,
        s,
        si as int,
        grid_views(grids@),
        config.names(),
        config.accent,
        config.bar_position,
        now,
    ));
    out
}

/// `after` is what `before` becomes when it is sent a screen, with the
/// colours written out or not.
pub open spec fn shown(before: ClientView, after: ClientView, screen: Seq<CmdView>) -> bool {
    exists|painted: Seq<bool>|
        painted.len() == screen.len() && after == before.sent(
            S2C_OUTPUT,
            encode_utf8(#[trigger] encoded(screen, painted)),
        )
}

/// Send a client that views session `si` what it gets to see.
pub fn render_client(
    c: &mut Client,
    si: usize,
    sessions: &Vec<Session>,
    grids: &Vec<Grid>,
    config: &Config,
    now: u64,
)
    requires
        si < sessions@.len(),
        showable(old(c)@, session_views(sessions@), si as int, grid_views(grids@), config.bar_position),
    ensures
        shown(
            old(c)@,
            final(c)@,
            screen_drawn(
                old(c)@,
                session_views(sessions@),
                si as int,
                grid_views(grids@),
                config.names(),
                config.accent,
                config.bar_position,
                now,
            ),
        ),
{
    let queue: Vec<Cmd> = draw_client(c, si, sessions, grids, config, now);
    let bytes: String = encode(&queue);
    let ghost painted = choose|painted: Seq<bool>|
        painted.len() == queue@.len() && bytes@ == #[trigger] encoded(cmds(queue@), painted);
    c.send(S2C_OUTPUT, bytes.as_str().as_bytes());
    assert(bytes@ == encoded(cmds(queue@), painted));
}

/// The row that a session manager highlights is the entry that Enter acts
/// on: the list drawn has one row for each entry, under its name.
pub proof fn law_rows_are_entries(
    pins: Seq<Seq<char>>,
    s: Seq<SessionView>,
    si: int,
    agents: bool,
    now: u64,
    k: int,
)
    requires
        0 <= k < manager_list(pins, s, agents).len(),
    ensures
        session_items(pins, s, si, agents, now).len() == manager_list(pins, s, agents).len(),
        manager_list(pins, s, agents)[k].name.is_prefix_of(
            session_items(pins, s, si, agents, now)[k].label,
        ),
        session_items(pins, s, si, agents, now)[k].dim <==> manager_list(
            pins,
            s,
            agents,
        )[k].running is None,
{
    let e = manager_list(pins, s, agents)[k];
    let label = session_items(pins, s, si, agents, now)[k].label;
    assert(e.name =~= label.subrange(0, e.name.len() as int));
}

/// While a manager is searched, every row shown is a row of the manager whose
/// name holds the text, and the highlighted one is the entry that Enter acts
/// on.
pub proof fn law_search_rows_shown(
    overlay: Overlay,
    text: Seq<char>,
    pins: Seq<Seq<char>>,
    s: Seq<SessionView>,
    si: int,
    now: u64,
    k: int,
)
    requires
        0 <= k < found_items(overlay, text, pins, s, si, now).len(),
    ensures
        ({
            let names = row_names(overlay, s, si, pins);
            let i = rows_found(names, text)[k];
            &&& found_items(overlay, text, pins, s, si, now).len() == rows_found(names, text).len()
            &&& names.len() == manager_items(overlay, pins, s, si, now).len()
            &&& 0 <= i < names.len()
            &&& crate::search::found_in(names[i], text)
            &&& found_items(overlay, text, pins, s, si, now)[k] == manager_items(
                overlay,
                pins,
                s,
                si,
                now,
            )[i]
        }),
{
    law_rows_found(row_names(overlay, s, si, pins), text);
}

} // verus!
