//! The session listing: one line per session.

use crate::ansi::{
    all_placeable, cmds, encoded, law_strip_encoded, law_strip_removes_escapes, no_escape, printed,
    push_cmd, stripped, Attr, Cmd, CmdView, Color,
};
use crate::clients::{client_views, Client, ClientView};
use crate::config::Config;
use crate::model::{session_views, Session, SessionView, TabView};
use crate::sessions::{all_entries, entry_views, session_entries, EntryView, SessionEntry};
use crate::text::{decimal, push_decimal, push_repeated, repeated, to_chars};
use vstd::prelude::*;

verus! {

/// How long ago something was, in the largest unit that fits.
pub open spec fn age(secs: nat) -> Seq<char> {
    if secs < 60 {
        decimal(secs) + "s"@
    } else if secs < 3600 {
        decimal(secs / 60) + "m"@
    } else if secs < 86400 {
        decimal(secs / 3600) + "h"@
    } else {
        decimal(secs / 86400) + "d"@
    }
}

/// How long ago a session was last active.
pub open spec fn age_of(s: SessionView, now: u64) -> nat {
    if now < s.last_active {
        0
    } else {
        (now - s.last_active) as nat
    }
}

/// How long ago something was, in the largest unit that fits.
pub fn age_text(secs: u64) -> (r: String)
    ensures
        r@ == age(secs as nat),
{
    let mut r: String = String::new();
    let (n, unit): (u64, &str) = if secs < 60 {
        (secs, "s")
    } else if secs < 3600 {
        (secs / 60, "m")
    } else if secs < 86400 {
        (secs / 3600, "h")
    } else {
        (secs / 86400, "d")
    };
    push_decimal(&mut r, n as u128);
    r.append(unit);
    assert(r@ =~= age(secs as nat));
    r
}

/// How many panes the first `n` tabs have.
pub open spec fn pane_count(tabs: Seq<TabView>, n: int) -> nat
    decreases n,
{
    if n <= 0 {
        0
    } else {
        pane_count(tabs, n - 1) + tabs[n - 1].layout.pane_seq().len()
    }
}

/// A count with its noun, in the plural unless there is one.
pub open spec fn counted(n: nat, noun: Seq<char>) -> Seq<char> {
    decimal(n) + " "@ + noun + (if n == 1 {
        ""@
    } else {
        "s"@
    })
}

/// The tabs and panes of a session.
pub open spec fn counts(s: SessionView) -> Seq<char> {
    "  "@ + counted(s.tabs.len(), "tab"@) + " · "@ + counted(
        pane_count(s.tabs, s.tabs.len() as int),
        "pane"@,
    )
}

/// Whether a client is attached to a session.
pub open spec fn viewed_by(clients: Seq<ClientView>, id: u64) -> bool {
    exists|j: int|
        0 <= j < clients.len() && (#[trigger] clients[j]).attached == Some(id)
            && clients[j].served()
}

/// A name filled up with blanks.
pub open spec fn padded(name: Seq<char>, width: nat) -> Seq<char> {
    name + repeated(
        ' ',
        if name.len() < width {
            (width - name.len()) as nat
        } else {
            0
        },
    )
}

/// The length of the longest name among the first `n` entries.
pub open spec fn name_width(e: Seq<EntryView>, n: int) -> nat
    decreases n,
{
    if n <= 0 {
        0
    } else {
        let before = name_width(e, n - 1);
        if before < e[n - 1].name.len() {
            e[n - 1].name.len()
        } else {
            before
        }
    }
}

/// The mark and the name of a running session: an accent dot and bold when
/// a client is attached.
pub open spec fn name_drawn(name: Seq<char>, attached: bool, accent: Color) -> Seq<CmdView> {
    if attached {
        seq![
            CmdView::Fg(accent),
            CmdView::Print("● "@),
            CmdView::Fg(Color::Reset),
            CmdView::Attr(Attr::Bold),
            CmdView::Print(name),
            CmdView::Attr(Attr::Reset),
        ]
    } else {
        seq![
            CmdView::Attr(Attr::Dim),
            CmdView::Print("○ "@),
            CmdView::Attr(Attr::Reset),
            CmdView::Print(name),
        ]
    }
}

/// The line of a running session.
pub open spec fn running_drawn(
    name: Seq<char>,
    s: SessionView,
    attached: bool,
    accent: Color,
    now: u64,
) -> Seq<CmdView> {
    name_drawn(name, attached, accent) + seq![
        CmdView::Attr(Attr::Dim),
        CmdView::Print(
            counts(s) + (if s.agent {
                " · "@ + age(age_of(s, now)) + " ago"@
            } else {
                ""@
            }),
        ),
        CmdView::Attr(Attr::Reset),
    ] + (if attached {
        seq![
            CmdView::Print("  "@),
            CmdView::Fg(accent),
            CmdView::Print("attached"@),
            CmdView::Fg(Color::Reset),
        ]
    } else {
        Seq::empty()
    })
}

/// The line of a pinned session that is not running.
pub open spec fn stopped_drawn(name: Seq<char>) -> Seq<CmdView> {
    seq![
        CmdView::Attr(Attr::Dim),
        CmdView::Print("○ "@ + name + "  not running"@),
        CmdView::Attr(Attr::Reset),
    ]
}

/// One line of the listing.
pub open spec fn line_drawn(
    e: EntryView,
    width: nat,
    s: Seq<SessionView>,
    clients: Seq<ClientView>,
    accent: Color,
    now: u64,
) -> Seq<CmdView> {
    let name = padded(e.name, width);
    (match e.running {
        Some(si) => running_drawn(name, s[si], viewed_by(clients, s[si].id), accent, now),
        None => stopped_drawn(name),
    }) + seq![CmdView::Print("\n"@)]
}

/// The first `n` lines of the listing.
pub open spec fn lines_drawn(
    e: Seq<EntryView>,
    width: nat,
    s: Seq<SessionView>,
    clients: Seq<ClientView>,
    accent: Color,
    now: u64,
    n: int,
) -> Seq<CmdView>
    decreases n,
{
    if n <= 0 {
        Seq::empty()
    } else {
        lines_drawn(e, width, s, clients, accent, now, n - 1) + line_drawn(
            e[n - 1],
            width,
            s,
            clients,
            accent,
            now,
        )
    }
}

/// The listing of all sessions.
pub open spec fn listing_drawn(
    pins: Seq<Seq<char>>,
    s: Seq<SessionView>,
    clients: Seq<ClientView>,
    accent: Color,
    now: u64,
) -> Seq<CmdView> {
    let e = all_entries(pins, s);
    if e.len() == 0 {
        seq![CmdView::Print("no sessions\n"@)]
    } else {
        lines_drawn(e, name_width(e, e.len() as int), s, clients, accent, now, e.len() as int)
    }
}

fn text(s: &str) -> (r: String)
    ensures
        r@ == s@,
{
    let mut r: String = String::new();
    r.append(s);
    assert(r@ =~= s@);
    r
}

fn count_panes(session: &Session) -> (r: u128)
    ensures
        r == pane_count(session@.tabs, session@.tabs.len() as int),
{
    let ghost v = session@.tabs;
    let mut total: u128 = 0;
    let mut i: usize = 0;
    while i < session.tabs.len()
        invariant
            i <= session.tabs@.len(),
            v == session@.tabs,
            total == pane_count(v, i as int),
            total <= i * 0xffff_ffff_ffff_ffffu64,
        decreases session.tabs@.len() - i,
    {
        let panes: Vec<u64> = session.tabs[i].layout.panes();
        let n: usize = panes.len();
        assert(v[i as int] == session.tabs@[i as int]@);
        assert(i * 0xffff_ffff_ffff_ffffu64 + n <= (i + 1) * 0xffff_ffff_ffff_ffffu64)
            by (nonlinear_arith)
            requires
                0 <= n <= 0xffff_ffff_ffff_ffffu64,
        ;
        assert((i + 1) * 0xffff_ffff_ffff_ffffu64 <= u128::MAX) by (nonlinear_arith)
            requires
                0 <= i < 0xffff_ffff_ffff_ffffu64,
        ;
        total = total + n as u128;
        i = i + 1;
    }
    total
}

fn push_counted(out: &mut String, n: u128, noun: &str)
    ensures
        final(out)@ == old(out)@ + counted(n as nat, noun@),
{
    push_decimal(out, n);
    out.append(" ");
    out.append(noun);
    if n == 1 {
        out.append("");
    } else {
        out.append("s");
    }
    assert(out@ =~= old(out)@ + counted(n as nat, noun@));
}

fn counts_text(session: &Session, now: u64) -> (r: String)
    ensures
        r@ == counts(session@) + (if session@.agent {
            " · "@ + age(age_of(session@, now)) + " ago"@
        } else {
            ""@
        }),
{
    let mut r: String = String::new();
    r.append("  ");
    push_counted(&mut r, session.tabs.len() as u128, "tab");
    r.append(" · ");
    push_counted(&mut r, count_panes(session), "pane");
    assert(r@ =~= counts(session@));
    if session.agent {
        r.append(" · ");
        let secs: u64 = if now < session.last_active {
            0
        } else {
            now - session.last_active
        };
        r.append(age_text(secs).as_str());
        r.append(" ago");
    } else {
        r.append("");
    }
    assert(r@ =~= counts(session@) + (if session@.agent {
        " · "@ + age(age_of(session@, now)) + " ago"@
    } else {
        ""@
    }));
    r
}

/// Whether a client is attached to a session.
pub fn is_viewed(clients: &Vec<Client>, id: u64) -> (r: bool)
    ensures
        r == viewed_by(client_views(clients@), id),
{
    let ghost v = client_views(clients@);
    let mut j: usize = 0;
    while j < clients.len()
        invariant
            j <= clients@.len(),
            v == client_views(clients@),
            forall|k: int|
                0 <= k < j ==> !((#[trigger] v[k]).attached == Some(id) && v[k].served()),
        decreases clients@.len() - j,
    {
        assert(v[j as int] == clients@[j as int]@);
        if let Some(a) = clients[j].attached {
            if a == id && clients[j].is_served() {
                assert(v[j as int].attached == Some(id));
                return true;
            }
        }
        j = j + 1;
    }
    false
}

fn pad(name: &String, width: usize) -> (r: String)
    ensures
        r@ == padded(name@, width as nat),
{
    let mut r: String = name.clone();
    let len: usize = to_chars(name.as_str()).len();
    push_repeated(
        &mut r,
        ' ',
        if len < width {
            width - len
        } else {
            0
        },
    );
    r
}

fn list_running(
    out: &mut Vec<Cmd>,
    name: String,
    session: &Session,
    attached: bool,
    accent: Color,
    now: u64,
)
    ensures
        cmds(final(out)@) == cmds(old(out)@) + running_drawn(
            name@,
            session@,
            attached,
            accent,
            now,
        ),
        all_placeable(cmds(old(out)@)) ==> all_placeable(cmds(final(out)@)),
{
    let ghost first = cmds(out@);
    if attached {
        push_cmd(out, Cmd::Fg(accent));
        push_cmd(out, Cmd::Print(text("● ")));
        push_cmd(out, Cmd::Fg(Color::Reset));
        push_cmd(out, Cmd::Attr(Attr::Bold));
        push_cmd(out, Cmd::Print(name));
        push_cmd(out, Cmd::Attr(Attr::Reset));
    } else {
        push_cmd(out, Cmd::Attr(Attr::Dim));
        push_cmd(out, Cmd::Print(text("○ ")));
        push_cmd(out, Cmd::Attr(Attr::Reset));
        push_cmd(out, Cmd::Print(name));
    }
    assert(cmds(out@) =~= first + name_drawn(name@, attached, accent));
    push_cmd(out, Cmd::Attr(Attr::Dim));
    push_cmd(out, Cmd::Print(counts_text(session, now)));
    push_cmd(out, Cmd::Attr(Attr::Reset));
    if attached {
        push_cmd(out, Cmd::Print(text("  ")));
        push_cmd(out, Cmd::Fg(accent));
        push_cmd(out, Cmd::Print(text("attached")));
        push_cmd(out, Cmd::Fg(Color::Reset));
    }
    assert(cmds(out@) =~= first + running_drawn(name@, session@, attached, accent, now));
}

fn list_stopped(out: &mut Vec<Cmd>, name: String)
    ensures
        cmds(final(out)@) == cmds(old(out)@) + stopped_drawn(name@),
        all_placeable(cmds(old(out)@)) ==> all_placeable(cmds(final(out)@)),
{
    let mut line: String = text("○ ");
    line.append(name.as_str());
    line.append("  not running");
    push_cmd(out, Cmd::Attr(Attr::Dim));
    push_cmd(out, Cmd::Print(line));
    push_cmd(out, Cmd::Attr(Attr::Reset));
    assert(cmds(out@) =~= cmds(old(out)@) + stopped_drawn(name@));
}

fn widest(entries: &Vec<SessionEntry>) -> (r: usize)
    ensures
        r == name_width(entry_views(entries@), entries@.len() as int),
{
    let ghost v = entry_views(entries@);
    let mut w: usize = 0;
    let mut i: usize = 0;
    while i < entries.len()
        invariant
            i <= entries@.len(),
            v == entry_views(entries@),
            w == name_width(v, i as int),
        decreases entries@.len() - i,
    {
        assert(v[i as int] == entries@[i as int]@);
        let len: usize = to_chars(entries[i].name.as_str()).len();
        if w < len {
            w = len;
        }
        i = i + 1;
    }
    w
}

/// One line per session, colored for tty clients (the client strips the
/// colors when its stdout is piped): an accent dot and "attached" tag
/// for attached sessions, dim counts, agent sessions with their age, and
/// pinned-but-stopped sessions listed dim, consistent with the session
/// manager.
pub fn format_listing(
    sessions: &Vec<Session>,
    clients: &Vec<Client>,
    config: &Config,
    now: u64,
) -> (out: Vec<Cmd>)
    ensures
        cmds(out@) == listing_drawn(
            config.names(),
            session_views(sessions@),
            client_views(clients@),
            config.accent,
            now,
        ),
        all_placeable(cmds(out@)),
{
    let ghost s = session_views(sessions@);
    let ghost c = client_views(clients@);
    let entries: Vec<SessionEntry> = session_entries(&config.pins, sessions);
    let ghost e = entry_views(entries@);
    let mut out: Vec<Cmd> = Vec::new();
    assert(cmds(out@) =~= Seq::<CmdView>::empty());
    if entries.len() == 0 {
        push_cmd(&mut out, Cmd::Print(text("no sessions\n")));
        assert(cmds(out@) =~= seq![CmdView::Print("no sessions\n"@)]);
        return out;
    }
    let width: usize = widest(&entries);
    let mut i: usize = 0;
    while i < entries.len()
        invariant
            i <= entries@.len(),
            s == session_views(sessions@),
            c == client_views(clients@),
            e == entry_views(entries@),
            e == all_entries(config.names(), s),
            all_placeable(cmds(out@)),
            cmds(out@) == lines_drawn(e, width as nat, s, c, config.accent, now, i as int),
        decreases entries@.len() - i,
    {
        let ghost before = cmds(out@);
        assert(e[i as int] == entries@[i as int]@);
        let name: String = pad(&entries[i].name, width);
        match entries[i].running {
            Some(si) => {
                proof {
                    lemma_all_entries_range(config.names(), s, i as int);
                }
                let session: &Session = &sessions[si];
                assert(s[si as int] == session@);
                let attached: bool = is_viewed(clients, session.id);
                list_running(&mut out, name, session, attached, config.accent, now);
            },
            None => list_stopped(&mut out, name),
        }
        push_cmd(&mut out, Cmd::Print(text("\n")));
        assert(cmds(out@) =~= before + line_drawn(
            e[i as int],
            width as nat,
            s,
            c,
            config.accent,
            now,
        ));
        i = i + 1;
    }
    out
}

proof fn lemma_all_entries_range(pins: Seq<Seq<char>>, s: Seq<SessionView>, i: int)
    requires
        0 <= i < all_entries(pins, s).len(),
    ensures
        all_entries(pins, s)[i].running matches Some(si) ==> 0 <= si < s.len(),
{
    let plain = crate::sessions::manager_list(pins, s, false);
    let n = crate::sessions::agent_entries(s).len() as int;
    let loose = crate::sessions::loose_agents(pins, s, n);
    if i < plain.len() {
        crate::input::lemma_entry_range(pins, s, false, i);
        assert(all_entries(pins, s)[i] == plain[i]);
    } else {
        crate::sessions::lemma_loose_agents(pins, s, n);
        assert(all_entries(pins, s)[i] == loose[i - plain.len()]);
    }
}

/// Every running session has an entry in the listing that names it. (A pin
/// has one entry: of several sessions with a pinned name, only the first
/// and those of agents are listed.)
pub proof fn law_every_session_listed(pins: Seq<Seq<char>>, s: Seq<SessionView>, i: int)
    requires
        0 <= i < s.len(),
        s[i].agent || crate::sessions::slot_from(pins, s[i].name, 0) is None || (forall|j: int|
            0 <= j < i ==> (#[trigger] s[j]).name != s[i].name),
    ensures
        crate::sessions::has_row(pins, s, i),
{
    let name = s[i].name;
    let pinned = crate::sessions::pinned_entries(pins, s);
    let rest = crate::sessions::unpinned_entries(pins, s, s.len() as int);
    let agents = crate::sessions::agent_entries(s);
    let n = agents.len() as int;
    let loose = crate::sessions::loose_agents(pins, s, n);
    let all = all_entries(pins, s);
    crate::sessions::lemma_slot(pins, name);
    if crate::sessions::pin_shows(pins, s, i) {
        let k = crate::sessions::slot_from(pins, name, 0)->0;
        assert(pinned[k].running == Some(i));
        assert(all[k] == pinned[k]);
    } else if s[i].agent {
        crate::sessions::law_agents_by_activity(s);
        let order = crate::sessions::agent_order(s, s.len() as int);
        assert(order.contains(i));
        let k = choose|k: int| 0 <= k < order.len() && order[k] == i;
        assert(agents[k].running == Some(i));
        crate::sessions::lemma_loose_has(pins, s, n, k);
        let j = choose|j: int| 0 <= j < loose.len() && #[trigger] loose[j] == agents[k];
        assert(all[pinned.len() + rest.len() + j] == loose[j]);
    } else if let Some(k) = crate::sessions::slot_from(pins, name, 0) {
        crate::sessions::lemma_first_named(s, name, i);
        assert(pinned[k].running == Some(i));
        assert(all[k] == pinned[k]);
    } else {
        crate::sessions::lemma_unpinned_has(pins, s, s.len() as int, i);
        let k = choose|k: int|
            0 <= k < rest.len() && (#[trigger] rest[k]).running == Some(i) && rest[k].name == name;
        assert(all[pinned.len() + k] == rest[k]);
    }
}

/// No text of a queue of commands holds an escape.
pub open spec fn plain_prints(c: Seq<CmdView>) -> bool {
    forall|i: int| 0 <= i < c.len() ==> (#[trigger] c[i] matches CmdView::Print(s) ==> no_escape(s))
}

proof fn lemma_no_escape_add(a: Seq<char>, b: Seq<char>)
    requires
        no_escape(a),
        no_escape(b),
    ensures
        no_escape(a + b),
{
    assert forall|i: int| 0 <= i < (a + b).len() implies #[trigger] (a + b)[i] != '\u{1b}' by {
        if i < a.len() {
            assert((a + b)[i] == a[i]);
        } else {
            assert((a + b)[i] == b[i - a.len()]);
        }
    }
}

proof fn lemma_decimal_plain(n: nat)
    ensures
        no_escape(decimal(n)),
    decreases n,
{
    if n >= 10 {
        lemma_decimal_plain(n / 10);
    }
}

proof fn lemma_literals_plain()
    ensures
        no_escape("● "@),
        no_escape("○ "@),
        no_escape("  "@),
        no_escape(" "@),
        no_escape(" · "@),
        no_escape("tab"@),
        no_escape("pane"@),
        no_escape(""@),
        no_escape("s"@),
        no_escape("m"@),
        no_escape("h"@),
        no_escape("d"@),
        no_escape(" ago"@),
        no_escape("attached"@),
        no_escape("  not running"@),
        no_escape("\n"@),
        no_escape("no sessions\n"@),
{
    reveal_strlit("● ");
    reveal_strlit("○ ");
    reveal_strlit("  ");
    reveal_strlit(" ");
    reveal_strlit(" · ");
    reveal_strlit("tab");
    reveal_strlit("pane");
    reveal_strlit("");
    reveal_strlit("s");
    reveal_strlit("m");
    reveal_strlit("h");
    reveal_strlit("d");
    reveal_strlit(" ago");
    reveal_strlit("attached");
    reveal_strlit("  not running");
    reveal_strlit("\n");
    reveal_strlit("no sessions\n");
}

proof fn lemma_age_plain(secs: nat)
    ensures
        no_escape(age(secs)),
{
    lemma_literals_plain();
    lemma_decimal_plain(secs);
    lemma_decimal_plain(secs / 60);
    lemma_decimal_plain(secs / 3600);
    lemma_decimal_plain(secs / 86400);
    lemma_no_escape_add(
        decimal(
            if secs < 60 {
                secs
            } else if secs < 3600 {
                secs / 60
            } else if secs < 86400 {
                secs / 3600
            } else {
                secs / 86400
            },
        ),
        if secs < 60 {
            "s"@
        } else if secs < 3600 {
            "m"@
        } else if secs < 86400 {
            "h"@
        } else {
            "d"@
        },
    );
}

proof fn lemma_counted_plain(n: nat, noun: Seq<char>)
    requires
        no_escape(noun),
    ensures
        no_escape(counted(n, noun)),
{
    lemma_literals_plain();
    lemma_decimal_plain(n);
    let end = if n == 1 {
        ""@
    } else {
        "s"@
    };
    lemma_no_escape_add(decimal(n), " "@);
    lemma_no_escape_add(decimal(n) + " "@, noun);
    lemma_no_escape_add(decimal(n) + " "@ + noun, end);
}

proof fn lemma_counts_plain(s: SessionView, now: u64)
    ensures
        no_escape(
            counts(s) + (if s.agent {
                " · "@ + age(age_of(s, now)) + " ago"@
            } else {
                ""@
            }),
        ),
{
    lemma_literals_plain();
    let t = counted(s.tabs.len(), "tab"@);
    let p = counted(pane_count(s.tabs, s.tabs.len() as int), "pane"@);
    lemma_counted_plain(s.tabs.len(), "tab"@);
    lemma_counted_plain(pane_count(s.tabs, s.tabs.len() as int), "pane"@);
    lemma_no_escape_add("  "@, t);
    lemma_no_escape_add("  "@ + t, " · "@);
    lemma_no_escape_add("  "@ + t + " · "@, p);
    lemma_age_plain(age_of(s, now));
    lemma_no_escape_add(" · "@, age(age_of(s, now)));
    lemma_no_escape_add(" · "@ + age(age_of(s, now)), " ago"@);
    lemma_no_escape_add(counts(s), " · "@ + age(age_of(s, now)) + " ago"@);
    lemma_no_escape_add(counts(s), ""@);
}

proof fn lemma_line_plain(
    e: EntryView,
    width: nat,
    s: Seq<SessionView>,
    clients: Seq<ClientView>,
    accent: Color,
    now: u64,
)
    requires
        no_escape(e.name),
    ensures
        plain_prints(line_drawn(e, width, s, clients, accent, now)),
{
    lemma_literals_plain();
    let fill = repeated(
        ' ',
        if e.name.len() < width {
            (width - e.name.len()) as nat
        } else {
            0
        },
    );
    assert(no_escape(fill));
    lemma_no_escape_add(e.name, fill);
    let name = padded(e.name, width);
    match e.running {
        Some(si) => {
            lemma_counts_plain(s[si], now);
        },
        None => {
            lemma_no_escape_add("○ "@, name);
            lemma_no_escape_add("○ "@ + name, "  not running"@);
        },
    }
}

proof fn lemma_lines_plain(
    e: Seq<EntryView>,
    width: nat,
    s: Seq<SessionView>,
    clients: Seq<ClientView>,
    accent: Color,
    now: u64,
    n: int,
)
    requires
        0 <= n <= e.len(),
        forall|k: int| 0 <= k < e.len() ==> no_escape((#[trigger] e[k]).name),
    ensures
        plain_prints(lines_drawn(e, width, s, clients, accent, now, n)),
    decreases n,
{
    if n > 0 {
        lemma_lines_plain(e, width, s, clients, accent, now, n - 1);
        lemma_line_plain(e[n - 1], width, s, clients, accent, now);
        let a = lines_drawn(e, width, s, clients, accent, now, n - 1);
        let b = line_drawn(e[n - 1], width, s, clients, accent, now);
        assert forall|i: int| 0 <= i < (a + b).len() implies (#[trigger] (a
            + b)[i] matches CmdView::Print(t) ==> no_escape(t)) by {
            if i < a.len() {
                assert((a + b)[i] == a[i]);
            } else {
                assert((a + b)[i] == b[i - a.len()]);
            }
        }
    }
}

/// Piped, a listing is plain text: where no name holds an escape, stripping
/// what the server sends leaves the texts of the listing and nothing else,
/// whether colors were written out or not.
pub proof fn law_piped_listing_plain(
    pins: Seq<Seq<char>>,
    s: Seq<SessionView>,
    clients: Seq<ClientView>,
    accent: Color,
    now: u64,
    painted: Seq<bool>,
)
    requires
        painted.len() == listing_drawn(pins, s, clients, accent, now).len(),
        forall|k: int|
            0 <= k < all_entries(pins, s).len() ==> no_escape(
                (#[trigger] all_entries(pins, s)[k]).name,
            ),
    ensures
        stripped(encoded(listing_drawn(pins, s, clients, accent, now), painted)) == printed(
            listing_drawn(pins, s, clients, accent, now),
        ),
        no_escape(printed(listing_drawn(pins, s, clients, accent, now))),
{
    let e = all_entries(pins, s);
    let l = listing_drawn(pins, s, clients, accent, now);
    lemma_literals_plain();
    if e.len() > 0 {
        lemma_lines_plain(
            e,
            name_width(e, e.len() as int),
            s,
            clients,
            accent,
            now,
            e.len() as int,
        );
    }
    assert(plain_prints(l));
    law_strip_encoded(l, painted);
    law_strip_removes_escapes(encoded(l, painted));
}

} // verus!
