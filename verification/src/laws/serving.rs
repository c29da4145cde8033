//! What the server does for its clients: attaching, sizing, input, listing,
//! and what becomes of clients and sessions when shells end.

use crate::clients::{ClientView, ReadOutcome, WriteOutcome, MAX_OUTBUF};
use crate::clipboard::base64;
use crate::config::BindingView;
use crate::effect::EffectView;
use crate::input::{handled, ModeView};
use crate::model::{Fresh, SessionView, TabView};
use crate::protocol::{frames_in, framed, left_over, S2C_BYE, S2C_LIST, S2C_OUTPUT};
use crate::select::SelectState;
use crate::server::{
    after_input, attach_name, attached_by_name, cleaned, drained, input_seen, kept_sessions,
    kept_tabs, listed, marked, pruned, refreshed, rehomed, rehomed_one, resized_hub, settled_view,
    swept_client, with_attached, Hub, Seats,
};
use crate::sessions::{
    lemma_named_from, lemma_with_id_from, named_from, place, rank, resorted, slot_from,
    with_id_from,
};
use crate::text::trimmed;
use crate::world::World;
use vstd::prelude::*;
use vstd::utf8::encode_utf8;

verus! {

/// A client that is said goodbye to for a reason: it gets the reason as its
/// last frame and is served no more, unless it was on its way out already.
pub open spec fn said_goodbye(c: ClientView, after: ClientView, reason: Seq<char>) -> bool {
    if c.closing {
        after == c
    } else if c.outbuf.len() + encode_utf8(reason).len() > MAX_OUTBUF {
        after == (ClientView { closing: true, dead: true, ..c })
    } else {
        after == (ClientView {
            closing: true,
            outbuf: c.outbuf + framed(S2C_BYE, encode_utf8(reason)),
            ..c
        })
    }
}

/// Attaching a client to a session: it views that session and is redrawn,
/// every other client on it is said goodbye to, clients elsewhere notice
/// nothing, and the session is sized to what the client shows of panes.
pub proof fn law_attach_to(h: Hub, ci: int, si: int, j: int)
    requires
        0 <= ci < h.clients.len(),
        0 <= si < h.sessions.len(),
        0 <= j < h.clients.len(),
        j != ci,
    ensures
        ({
            let after = with_attached(h, ci, si);
            let c = h.clients[ci];
            let id = h.sessions[si].id;
            &&& after.sessions == h.sessions && after.fresh == h.fresh
            &&& after.clients.len() == h.clients.len()
            &&& after.clients[ci] == (ClientView { attached: Some(id), needs_redraw: true, ..c })
            &&& h.clients[j].attached == Some(id) ==> said_goodbye(
                h.clients[j],
                after.clients[j],
                "kicked: another client attached to this session"@,
            )
            &&& h.clients[j].attached != Some(id) ==> after.clients[j] == h.clients[j]
            &&& after.fx == h.fx + h.sessions[si].resize_requests(
                (
                    c.size.0,
                    if c.size.1 >= 2 {
                        (c.size.1 - 1) as u16
                    } else {
                        c.size.1
                    },
                ),
            )
        }),
{
}

/// Attaching by name finds the first session of that name; where there is
/// none it makes one, whose shell starts at the size of the client's pane
/// area. The client's size is what it said, if it said one.
pub proof fn law_attach_finds_or_makes(
    h: Hub,
    ci: int,
    cols: u16,
    rows: u16,
    name: Seq<char>,
    pins: Seq<Seq<char>>,
)
    requires
        0 <= ci < h.clients.len(),
        h.fresh.room(1),
    ensures
        ({
            let after = attached_by_name(h, ci, cols, rows, name, pins);
            let size = if cols > 0 && rows > 0 {
                (cols, rows)
            } else {
                h.clients[ci].size
            };
            let area = (
                size.0,
                if size.1 >= 2 {
                    (size.1 - 1) as u16
                } else {
                    size.1
                },
            );
            &&& after.clients[ci].size == size
            &&& if exists|i: int| 0 <= i < h.sessions.len() && (#[trigger] h.sessions[i]).name == name {
                exists|si: int|
                    0 <= si < h.sessions.len() && (#[trigger] h.sessions[si]).name == name && (forall|
                        i: int,
                    |
                        0 <= i < si ==> (#[trigger] h.sessions[i]).name != name) && after
                        == with_attached(
                        Hub {
                            clients: h.clients.update(
                                ci,
                                ClientView { size, ..h.clients[ci] },
                            ),
                            ..h
                        },
                        ci,
                        si,
                    )
            } else {
                exists|si: int|
                    0 <= si < after.sessions.len() && #[trigger] after.sessions.remove(si)
                        == h.sessions && after == with_attached(
                        Hub {
                            clients: h.clients.update(
                                ci,
                                ClientView { size, ..h.clients[ci] },
                            ),
                            sessions: h.sessions.insert(si, SessionView::fresh(name, h.fresh)),
                            fresh: Fresh {
                                session: (h.fresh.session + 1) as u64,
                                pane: (h.fresh.pane + 1) as u64,
                                now: h.fresh.now,
                            },
                            fx: h.fx.push(
                                EffectView::Spawn {
                                    pane: h.fresh.pane,
                                    w: area.0,
                                    h: area.1,
                                },
                            ),
                        },
                        ci,
                        si,
                    )
            }
        }),
{
    lemma_named_from(h.sessions, name, 0);
    let after = attached_by_name(h, ci, cols, rows, name, pins);
    match named_from(h.sessions, name, 0) {
        Some(si) => {
            assert(h.sessions[si].name == name);
        },
        None => {
            let si = place(pins, h.sessions, name);
            crate::sessions::lemma_place(pins, h.sessions, name);
            assert(after.sessions.remove(si) =~= h.sessions);
        },
    }
}

/// The name that a client attaches by is what it typed without the blanks
/// around it, and "main" when it typed nothing else.
pub proof fn law_attach_name(typed: Seq<char>)
    ensures
        trimmed(typed).len() > 0 ==> attach_name(typed) == trimmed(typed),
        trimmed(typed).len() == 0 ==> attach_name(typed) == "main"@,
{
}

/// A client that says its new size is drawn at that size, and its session is
/// sized to its pane area; a size without a column or a row is no size.
pub proof fn law_resize(h: Hub, ci: int, cols: u16, rows: u16)
    requires
        0 <= ci < h.clients.len(),
    ensures
        ({
            let after = resized_hub(h, ci, cols, rows);
            let c = h.clients[ci];
            &&& cols == 0 || rows == 0 ==> after == h
            &&& cols > 0 && rows > 0 ==> {
                &&& after.clients == h.clients.update(
                    ci,
                    ClientView { size: (cols, rows), needs_redraw: true, ..c },
                )
                &&& after.sessions == h.sessions && after.fresh == h.fresh
                &&& c.attached is None ==> after.fx == h.fx
                &&& c.attached matches Some(id) ==> {
                    &&& (forall|i: int| 0 <= i < h.sessions.len() ==> (#[trigger] h.sessions[i]).id != id)
                        ==> after.fx == h.fx
                    &&& forall|si: int|
                        0 <= si < h.sessions.len() && (#[trigger] h.sessions[si]).id == id && (
                        forall|i: int| 0 <= i < si ==> (#[trigger] h.sessions[i]).id != id)
                            ==> after.fx == h.fx + h.sessions[si].resize_requests(
                            (
                                cols,
                                if rows >= 2 {
                                    (rows - 1) as u16
                                } else {
                                    rows
                                },
                            ),
                        )
                }
            }
        }),
{
    if let Some(id) = h.clients[ci].attached {
        lemma_with_id_from(h.sessions, id, 0);
        if with_id_from(h.sessions, id, 0) is None {
            assert(h.fx + Seq::<EffectView>::empty() =~= h.fx);
        }
    } else {
        assert(h.fx + Seq::<EffectView>::empty() =~= h.fx);
    }
}

/// After its input a client shows what the input led to and is redrawn; text
/// that it copied is sent to it as a clipboard sequence.
pub proof fn law_input_seen(
    c: ClientView,
    mode: ModeView,
    keys: Seq<u8>,
    copied: Option<Seq<char>>,
)
    ensures
        ({
            let after = input_seen(c, mode, keys, copied);
            let plain = ClientView {
                mode,
                needs_redraw: true,
                select: if c.mode is Running && keys.len() > 0 {
                    SelectState { gesture: None, selected_pane: None, ..c.select }
                } else {
                    c.select
                },
                ..c
            };
            &&& copied is None ==> after == plain
            &&& copied matches Some(t) ==> {
                let bytes = seq![0x1bu8, 0x5du8, 0x35u8, 0x32u8, 0x3bu8, 0x63u8, 0x3bu8] + base64(
                    encode_utf8(t),
                ) + seq![0x07u8];
                &&& c.outbuf.len() + bytes.len() <= MAX_OUTBUF ==> after == (ClientView {
                    outbuf: c.outbuf + framed(S2C_OUTPUT, bytes),
                    ..plain
                })
                &&& c.outbuf.len() + bytes.len() > MAX_OUTBUF ==> after == (ClientView {
                    dead: true,
                    ..plain
                })
            }
        }),
{
}

/// What becomes of a client's view after its input: one that detaches, and one
/// that has no session left, is said goodbye to; one that views another
/// session than before is attached to it, and one that views the same stays.
pub proof fn law_view_settles(h: Hub, ci: int, active: int, id: u64, detach: bool)
    requires
        0 <= ci < h.clients.len(),
        0 <= active,
    ensures
        ({
            let after = settled_view(h, ci, active, id, detach);
            let at = if active < h.sessions.len() {
                active
            } else {
                h.sessions.len() - 1
            };
            &&& detach ==> said_goodbye(h.clients[ci], after.clients[ci], "detached"@)
            &&& !detach && h.sessions.len() == 0 ==> said_goodbye(
                h.clients[ci],
                after.clients[ci],
                "all sessions closed"@,
            )
            &&& detach || h.sessions.len() == 0 ==> after == (Hub {
                clients: h.clients.update(ci, after.clients[ci]),
                ..h
            })
            &&& !detach && h.sessions.len() > 0 && h.sessions[at].id == id ==> after == h
            &&& !detach && h.sessions.len() > 0 && h.sessions[at].id != id ==> after
                == with_attached(h, ci, at)
        }),
{
}

/// Handling a client's input: its keys act on the session that it views, in
/// its pane area; what follows from that is settled for it, clients that lost
/// their session are rehomed, and where an overlay was or is open, everyone
/// who views a session is redrawn.
pub proof fn law_input_steps(
    h: Hub,
    ci: int,
    active: int,
    keys: Seq<u8>,
    copied: Option<Seq<char>>,
    pins: Seq<Seq<char>>,
    chords: Seq<BindingView>,
)
    requires
        0 <= ci < h.clients.len(),
        0 <= active < h.sessions.len(),
    ensures
        ({
            let c = h.clients[ci];
            let area = (
                c.size.0,
                if c.size.1 >= 2 {
                    (c.size.1 - 1) as u16
                } else {
                    c.size.1
                },
            );
            let r = handled(
                keys,
                c.mode,
                c.select,
                World { sessions: h.sessions, active, fresh: h.fresh, fx: h.fx },
                area,
                pins,
                chords,
            );
            let seen = Hub {
                clients: h.clients.update(ci, input_seen(c, r.mode, keys, copied)),
                sessions: r.world.sessions,
                fresh: r.world.fresh,
                fx: r.world.fx,
            };
            let settled = settled_view(
                seen,
                ci,
                r.world.active,
                h.sessions[active].id,
                r.detach,
            );
            let seats = rehomed(
                Seats { clients: settled.clients, fx: settled.fx },
                settled.sessions,
                settled.clients.len() as int,
            );
            let after = after_input(h, ci, active, keys, copied, pins, chords);
            &&& after.sessions == settled.sessions && after.fresh == settled.fresh && after.fx
                == seats.fx
            &&& after.clients.len() == seats.clients.len()
            &&& forall|j: int|
                0 <= j < seats.clients.len() ==> #[trigger] after.clients[j] == if (
                !(c.mode is Running) || !(r.mode is Running)) && seats.clients[j].attached is Some
                    && !seats.clients[j].closing && !seats.clients[j].dead {
                    ClientView { needs_redraw: true, ..seats.clients[j] }
                } else {
                    seats.clients[j]
                }
        }),
{
}

/// A served client whose session is gone is attached to the first session that
/// is left and shows its panes; where none is left it is said goodbye to.
/// Other clients stay where they are.
pub proof fn law_rehome(p: Seats, s: Seq<SessionView>, ci: int)
    requires
        0 <= ci < p.clients.len(),
    ensures
        ({
            let after = rehomed_one(p, s, ci);
            let c = p.clients[ci];
            let lost = !c.closing && !c.dead && c.attached is Some && (forall|i: int|
                0 <= i < s.len() ==> Some((#[trigger] s[i]).id) != c.attached);
            &&& !lost ==> after == p
            &&& lost && s.len() == 0 ==> after.fx == p.fx && after.clients == p.clients.update(
                ci,
                after.clients[ci],
            ) && said_goodbye(c, after.clients[ci], "session closed"@)
            &&& lost && s.len() > 0 ==> {
                let h = with_attached(
                    Hub {
                        clients: p.clients.update(
                            ci,
                            ClientView { mode: ModeView::Running, ..c },
                        ),
                        sessions: s,
                        fresh: Fresh { session: 0, pane: 0, now: 0 },
                        fx: p.fx,
                    },
                    ci,
                    0,
                );
                after.clients == h.clients && after.fx == h.fx
            }
        }),
{
    if let Some(id) = p.clients[ci].attached {
        lemma_with_id_from(s, id, 0);
    }
}

/// Everyone who views a session and is served is marked to be redrawn when
/// asked for, and nobody else; when panes have changed, those who show the
/// panes of a session among them.
pub proof fn law_redraw_marks(c: ClientView, changed: Seq<u64>)
    ensures
        marked(c) == (ClientView {
            needs_redraw: c.needs_redraw || (c.attached is Some && !c.closing && !c.dead),
            ..c
        }),
        refreshed(c, changed) == (ClientView {
            needs_redraw: c.needs_redraw || (c.mode is Running && c.attached is Some
                && changed.contains(c.attached->0)),
            ..c
        }),
{
}

/// Output of a pane marks its session when the pane is in the open tab, once;
/// the end of its shell takes the pane out of its tab. A pane that is gone
/// already does nothing.
pub proof fn law_pane_output(
    s: Seq<SessionView>,
    si: int,
    ti: int,
    pane: u64,
    alive: bool,
    changed: Seq<u64>,
    removed: bool,
)
    requires
        0 <= si < s.len(),
        0 <= ti < s[si].tabs.len(),
    ensures
        ({
            let r = drained(s, si, ti, pane, alive, changed, removed);
            let here = s[si].tabs[ti].layout.has_pane(pane);
            &&& !here ==> r.sessions == s && r.changed == changed && r.removed == removed
            &&& here && alive ==> r.sessions == s && r.removed == removed
            &&& here && alive && ti == s[si].active_tab ==> r.changed.contains(s[si].id) && (
            changed.contains(s[si].id) ==> r.changed == changed) && (!changed.contains(s[si].id)
                ==> r.changed == changed.push(s[si].id))
            &&& here && alive && ti != s[si].active_tab ==> r.changed == changed
            &&& here && !alive ==> {
                &&& r.removed && r.changed == changed
                &&& r.sessions.len() == s.len()
                &&& forall|i: int| 0 <= i < s.len() && i != si ==> #[trigger] r.sessions[i] == s[i]
                &&& r.sessions[si] == (SessionView { tabs: r.sessions[si].tabs, ..s[si] })
                &&& r.sessions[si].tabs.len() == s[si].tabs.len()
                &&& forall|j: int|
                    0 <= j < s[si].tabs.len() && j != ti ==> #[trigger] r.sessions[si].tabs[j]
                        == s[si].tabs[j]
                &&& r.sessions[si].tabs[ti] == s[si].tabs[ti].without_pane(pane)
                &&& !r.sessions[si].tabs[ti].layout.has_pane(pane)
            }
        }),
{
    let r = drained(s, si, ti, pane, alive, changed, removed);
    if s[si].tabs[ti].layout.has_pane(pane) {
        if alive && ti == s[si].active_tab && !changed.contains(s[si].id) {
            assert(r.changed[changed.len() as int] == s[si].id);
        }
        if !alive {
            crate::layout::law_remove_removes(s[si].tabs[ti].layout, pane);
            assert(r.sessions[si].tabs[ti].layout.has_pane(pane) == (
            s[si].tabs[ti].layout.has_pane(pane) && pane != pane));
        }
    }
}

proof fn lemma_kept_tabs(tabs: Seq<TabView>, n: int)
    requires
        0 <= n <= tabs.len(),
    ensures
        kept_tabs(tabs, n) == tabs.take(n).filter(|t: TabView| !(t.layout is Empty)),
    decreases n,
{
    let keep = |t: TabView| !(t.layout is Empty);
    reveal(Seq::filter);
    if n > 0 {
        lemma_kept_tabs(tabs, n - 1);
        assert(tabs.take(n).drop_last() =~= tabs.take(n - 1));
        assert(tabs.take(n).last() == tabs[n - 1]);
    } else {
        assert(tabs.take(0) =~= Seq::<TabView>::empty());
    }
}

/// Sweeping a session drops its tabs without panes and keeps the others in
/// their order. The open tab stays open while it has panes; when it is gone,
/// the one that followed it is open, or the last.
pub proof fn law_sweep_session(s: SessionView)
    requires
        s.active_tab <= s.tabs.len() <= usize::MAX,
    ensures
        ({
            let keep = |t: TabView| !(t.layout is Empty);
            let after = pruned(s);
            let before = s.tabs.take(s.active_tab as int).filter(keep).len();
            &&& after == (SessionView {
                tabs: after.tabs,
                active_tab: after.active_tab,
                ..s
            })
            &&& after.tabs == s.tabs.filter(keep)
            &&& before < after.tabs.len() ==> after.active_tab == before
            &&& 0 < after.tabs.len() <= before ==> after.active_tab == after.tabs.len() - 1
            &&& s.active_tab < s.tabs.len() && keep(s.tab()) ==> after.tab() == s.tab()
        }),
{
    let keep = |t: TabView| !(t.layout is Empty);
    let n = s.tabs.len() as int;
    let a = s.active_tab as int;
    lemma_kept_tabs(s.tabs, n);
    lemma_kept_tabs(s.tabs, a);
    assert(s.tabs.take(n) =~= s.tabs);
    crate::server::lemma_kept_tabs_len(s.tabs, a, n);
    if a < n && keep(s.tab()) {
        crate::server::lemma_kept_tabs_len(s.tabs, a + 1, n);
        lemma_kept_prefix(s.tabs, a + 1, n);
        assert(kept_tabs(s.tabs, a + 1) == kept_tabs(s.tabs, a).push(s.tabs[a]));
    }
}

proof fn lemma_kept_prefix(tabs: Seq<TabView>, m: int, n: int)
    requires
        0 <= m <= n <= tabs.len(),
    ensures
        kept_tabs(tabs, m).len() <= kept_tabs(tabs, n).len(),
        forall|i: int|
            0 <= i < kept_tabs(tabs, m).len() ==> #[trigger] kept_tabs(tabs, n)[i] == kept_tabs(
                tabs,
                m,
            )[i],
    decreases n,
{
    if m < n {
        lemma_kept_prefix(tabs, m, n - 1);
    }
}

/// Sweeping drops the sessions without a tab left and keeps the others, swept,
/// in their order.
pub proof fn law_sweep_sessions(s: Seq<SessionView>, n: int)
    requires
        0 <= n <= s.len(),
    ensures
        kept_sessions(s, n) == s.take(n).map_values(|x: SessionView| pruned(x)).filter(
            |x: SessionView| x.tabs.len() > 0,
        ),
    decreases n,
{
    let f = |x: SessionView| pruned(x);
    let keep = |x: SessionView| x.tabs.len() > 0;
    reveal(Seq::filter);
    if n > 0 {
        law_sweep_sessions(s, n - 1);
        assert(s.take(n).map_values(f).drop_last() =~= s.take(n - 1).map_values(f));
        assert(s.take(n).map_values(f).last() == pruned(s[n - 1]));
    } else {
        assert(s.take(0).map_values(f) =~= Seq::<SessionView>::empty());
    }
}

/// When sessions are swept, a client whose session is left is redrawn; one on
/// its way out whose session is gone is pointed at the first that is left, and
/// a selection in a list of nothing goes to its start.
pub proof fn law_swept_client(c: ClientView, s: Seq<SessionView>)
    ensures
        ({
            let after = swept_client(c, s);
            let there = exists|i: int| 0 <= i < s.len() && Some((#[trigger] s[i]).id) == c.attached;
            &&& c.attached is None ==> after == c
            &&& there ==> after == (ClientView { needs_redraw: true, ..c })
            &&& c.attached is Some && !there && s.len() > 0 && (c.closing || c.dead) ==> after == (
            ClientView {
                attached: Some(s[0].id),
                mode: ModeView::Running,
                needs_redraw: true,
                ..c
            })
            &&& c.attached is Some && !there && s.len() > 0 && !c.closing && !c.dead ==> after == c
            &&& c.attached is Some && s.len() == 0 ==> {
                let shown = ClientView { mode: after.mode, ..c };
                &&& c.mode matches ModeView::Manager { overlay, .. } ==> after.mode
                    == (ModeView::Manager { overlay, selected: 0 })
                &&& !(c.mode is Manager) ==> after.mode == c.mode
                &&& c.closing || !c.dead ==> after == shown
                &&& c.dead ==> said_goodbye(shown, after, "session closed"@)
            }
        }),
{
    if let Some(id) = c.attached {
        lemma_with_id_from(s, id, 0);
        if let Some(k) = with_id_from(s, id, 0) {
            assert(Some(s[k].id) == c.attached);
        }
    }
}

/// A new client views nothing yet, at 80 columns and 24 rows, and is served.
pub proof fn law_new_client()
    ensures
        ({
            let c = ClientView::fresh();
            &&& c.attached is None && c.size == (80u16, 24u16) && c.mode is Running
            &&& c.outbuf.len() == 0 && c.reader.len() == 0
            &&& !c.needs_redraw && !c.closing && !c.dead
            &&& c.select.gesture is None && c.select.selected_pane is None && c.select.anchor is None
        }),
{
}

/// What is written of a client's queue leaves it from the front; a socket that
/// takes nothing or fails ends the client, one that would block or was
/// interrupted changes nothing.
pub proof fn law_writing(c: ClientView, n: usize)
    requires
        n <= c.outbuf.len(),
    ensures
        n > 0 ==> c.outbuf.take(n as int) + c.written(WriteOutcome::Wrote(n)).outbuf == c.outbuf,
        n > 0 ==> c.written(WriteOutcome::Wrote(n)) == (ClientView {
            outbuf: c.written(WriteOutcome::Wrote(n)).outbuf,
            ..c
        }),
        c.written(WriteOutcome::Wrote(0)) == (ClientView { dead: true, ..c }),
        c.written(WriteOutcome::Failed) == (ClientView { dead: true, ..c }),
        c.written(WriteOutcome::WouldBlock) == c,
        c.written(WriteOutcome::Interrupted) == c,
{
    assert(c.outbuf.take(n as int) + c.outbuf.skip(n as int) =~= c.outbuf);
}

/// What is read from a client goes to the end of what it has sent; a socket
/// that is at its end or fails ends the client.
pub proof fn law_reading(c: ClientView, bytes: Vec<u8>)
    ensures
        bytes@.len() > 0 ==> c.heard(ReadOutcome::Read(bytes)) == (ClientView {
            reader: c.reader + bytes@,
            ..c
        }),
        bytes@.len() == 0 ==> c.heard(ReadOutcome::Read(bytes)) == (ClientView {
            dead: true,
            ..c
        }),
        c.heard(ReadOutcome::Failed) == (ClientView { dead: true, ..c }),
        c.heard(ReadOutcome::WouldBlock) == c,
        c.heard(ReadOutcome::Interrupted) == c,
{
}

/// A client is served until it is said goodbye to or its socket dies; it is
/// dropped once its socket is dead, or its goodbye is written out.
pub proof fn law_client_lifetime(c: ClientView)
    ensures
        c.served() <==> !c.closing && !c.dead,
        c.dead ==> c.finished(),
        !c.dead && !c.closing ==> !c.finished(),
        !c.dead && c.closing ==> (c.finished() <==> c.outbuf.len() == 0),
{
}

/// A goodbye is the client's last frame: its reason, after all that was queued.
pub proof fn law_goodbye_frame(c: ClientView, reason: Seq<char>)
    ensures
        said_goodbye(c, c.farewelled(reason), reason),
        ({
            let queued = !c.closing && left_over(c.outbuf).len() == 0 && c.outbuf.len()
                + encode_utf8(reason).len() <= MAX_OUTBUF;
            queued ==> frames_in(c.farewelled(reason).outbuf) == frames_in(c.outbuf).push(
                (S2C_BYE, encode_utf8(reason)),
            )
        }),
{
    if left_over(c.outbuf).len() == 0 {
        crate::clients::law_sent_arrives(c, S2C_BYE, encode_utf8(reason));
    }
}

/// A list request is answered with one frame, and the connection is closed
/// behind it.
pub proof fn law_list_answer(c: ClientView, text: Seq<char>)
    requires
        c.outbuf.len() + encode_utf8(text).len() <= MAX_OUTBUF,
    ensures
        listed(c, text) == (ClientView {
            closing: true,
            outbuf: c.outbuf + framed(S2C_LIST, encode_utf8(text)),
            ..c
        }),
{
}

/// The rounds of the server's loop are counted one by one, from the largest
/// number back to 0.
pub proof fn law_rounds_counted(tick: u32)
    ensures
        tick < u32::MAX ==> crate::server::next_round(tick) == tick + 1,
        crate::server::next_round(u32::MAX) == 0,
{
}

proof fn lemma_first_slot(pins: Seq<Seq<char>>, name: Seq<char>, i: int)
    requires
        0 <= i,
    ensures
        slot_from(pins, name, i) matches Some(k) ==> i <= k < pins.len() && pins[k] == name && (
        forall|j: int| i <= j < k ==> #[trigger] pins[j] != name),
        slot_from(pins, name, i) is None ==> (forall|j: int|
            i <= j < pins.len() ==> #[trigger] pins[j] != name),
    decreases pins.len() - i,
{
    if i < pins.len() && pins[i] != name {
        lemma_first_slot(pins, name, i + 1);
    }
}

/// After a reload no session comes before one that is pinned to an earlier
/// slot, none that is not pinned before one that is, and the same sessions are
/// there as before.
pub proof fn law_reload_sorts_by_pins(
    pins: Seq<Seq<char>>,
    before: Seq<SessionView>,
    after: Seq<SessionView>,
    i: int,
    j: int,
    b: int,
)
    requires
        resorted(pins, before, after),
        0 <= i < j < after.len(),
        0 <= b < pins.len(),
        after[j].name == pins[b],
    ensures
        exists|a: int| 0 <= a <= b && #[trigger] pins[a] == after[i].name,
        before.to_multiset() == after.to_multiset(),
{
    lemma_first_slot(pins, after[i].name, 0);
    lemma_first_slot(pins, after[j].name, 0);
    assert(rank(pins, after[i].name) <= rank(pins, after[j].name));
    assert(slot_from(pins, after[j].name, 0) is Some);
    let q = slot_from(pins, after[j].name, 0)->0;
    assert(q <= b);
    let a = slot_from(pins, after[i].name, 0)->0;
    assert(pins[a] == after[i].name);
}

/// A new session comes last when no pin names it. Otherwise those before it
/// are pinned to slots no later than its own, and the one after it is not
/// pinned, or to a later slot.
pub proof fn law_new_session_place(pins: Seq<Seq<char>>, s: Seq<SessionView>, name: Seq<char>)
    ensures
        ({
            let at = place(pins, s, name);
            &&& 0 <= at <= s.len()
            &&& !pins.contains(name) ==> at == s.len()
            &&& forall|k: int|
                0 <= k < pins.len() && #[trigger] pins[k] == name && (forall|j: int|
                    0 <= j < k ==> #[trigger] pins[j] != name) ==> {
                    &&& forall|i: int|
                        0 <= i < at ==> exists|a: int|
                            0 <= a <= k && #[trigger] pins[a] == (#[trigger] s[i]).name
                    &&& at < s.len() ==> forall|a: int|
                        0 <= a <= k ==> #[trigger] pins[a] != s[at].name
                }
        }),
{
    let at = place(pins, s, name);
    lemma_first_slot(pins, name, 0);
    crate::sessions::lemma_place(pins, s, name);
    if let Some(q) = slot_from(pins, name, 0) {
        crate::sessions::lemma_place_from(pins, s, q, 0);
        assert forall|i: int| 0 <= i < at implies exists|a: int|
            0 <= a <= q && #[trigger] pins[a] == (#[trigger] s[i]).name by {
            lemma_first_slot(pins, s[i].name, 0);
            assert(rank(pins, s[i].name) <= q);
            let a = slot_from(pins, s[i].name, 0)->0;
            assert(pins[a] == s[i].name);
        }
        if at < s.len() {
            lemma_first_slot(pins, s[at].name, 0);
            assert forall|a: int| 0 <= a <= q implies #[trigger] pins[a] != s[at].name by {}
        }
    }
}

/// Once sessions are swept, every client sizes the session that it is on to
/// its own pane area, and nothing else is sized before clients are rehomed.
pub proof fn law_clean_up_sizes(c: Seq<ClientView>, s: Seq<SessionView>, n: int, e: EffectView)
    requires
        0 <= n <= c.len(),
    ensures
        crate::server::refit_requests(c, s, n).contains(e) <==> (exists|ci: int, si: int|
            #[trigger] sizes_for(c, s, ci, si, e) && ci < n),
    decreases n,
{
    let all = crate::server::refit_requests(c, s, n);
    if n > 0 {
        law_clean_up_sizes(c, s, n - 1, e);
        let before = crate::server::refit_requests(c, s, n - 1);
        let x = c[n - 1];
        let now = match x.attached {
            Some(id) => match with_id_from(s, id, 0) {
                Some(si) => s[si].resize_requests(crate::render::content(x.size)),
                None => Seq::empty(),
            },
            None => Seq::empty(),
        };
        crate::layout::lemma_contains_add(before, now, e);
        if let Some(id) = x.attached {
            lemma_with_id_from(s, id, 0);
            if let Some(si) = with_id_from(s, id, 0) {
                if now.contains(e) {
                    assert(sizes_for(c, s, n - 1, si, e));
                }
            }
        }
        if exists|ci: int, si: int| #[trigger] sizes_for(c, s, ci, si, e) && ci < n {
            let (ci, si) = choose|ci: int, si: int| #[trigger] sizes_for(c, s, ci, si, e) && ci < n;
            if ci < n - 1 {
                assert(sizes_for(c, s, ci, si, e) && ci < n - 1);
            } else {
                assert(with_id_from(s, x.attached->0, 0) == Some(si));
            }
        }
        if before.contains(e) {
            let (ci, si) = choose|ci: int, si: int| #[trigger]
                sizes_for(c, s, ci, si, e) && ci < n - 1;
            assert(sizes_for(c, s, ci, si, e) && ci < n);
        }
    }
}

/// Client `ci` is on session `si`, the first with its id, and `e` is part of
/// sizing that session to the client's pane area.
pub open spec fn sizes_for(
    c: Seq<ClientView>,
    s: Seq<SessionView>,
    ci: int,
    si: int,
    e: EffectView,
) -> bool {
    &&& 0 <= ci < c.len() && 0 <= si < s.len()
    &&& c[ci].attached == Some(s[si].id)
    &&& forall|i: int| 0 <= i < si ==> (#[trigger] s[i]).id != s[si].id
    &&& s[si].resize_requests(
        (
            c[ci].size.0,
            if c[ci].size.1 >= 2 {
                (c[ci].size.1 - 1) as u16
            } else {
                c[ci].size.1
            },
        ),
    ).contains(e)
}

/// Cleaning up: clients are swept, sessions sized for them, and those that
/// lost theirs rehomed, one after the other in their order.
pub proof fn law_clean_up_steps(p: Seats, s: Seq<SessionView>, n: int)
    requires
        0 <= n < p.clients.len(),
    ensures
        ({
            let swept = p.clients.map_values(|c: ClientView| swept_client(c, s));
            let sized = Seats {
                clients: swept,
                fx: p.fx + crate::server::refit_requests(swept, s, swept.len() as int),
            };
            &&& cleaned(p, s) == rehomed(sized, s, p.clients.len() as int)
            &&& rehomed(sized, s, 0) == sized
            &&& rehomed(sized, s, n + 1) == rehomed_one(rehomed(sized, s, n), s, n)
        }),
{
}

/// The session that a client views is the one with the id that it is attached
/// to.
pub proof fn law_viewed_session(h: Hub, ci: int)
    ensures
        match crate::server::viewed_index(h, ci) {
            Some(si) => 0 <= si < h.sessions.len() && h.clients[ci].attached == Some(
                h.sessions[si].id,
            ),
            None => forall|i: int|
                0 <= i < h.sessions.len() ==> h.clients[ci].attached != Some(
                    (#[trigger] h.sessions[i]).id,
                ),
        },
{
    if let Some(id) = h.clients[ci].attached {
        lemma_with_id_from(h.sessions, id, 0);
    }
}

/// A reload keeps the sessions that no pin names in the order they were in,
/// and so those of one name.
pub proof fn law_reload_is_stable(
    pins: Seq<Seq<char>>,
    before: Seq<SessionView>,
    after: Seq<SessionView>,
    name: Seq<char>,
)
    requires
        resorted(pins, before, after),
    ensures
        after.filter(|x: SessionView| !pins.contains(x.name)) == before.filter(
            |x: SessionView| !pins.contains(x.name),
        ),
        pins.contains(name) ==> after.filter(|x: SessionView| x.name == name) == before.filter(
            |x: SessionView| x.name == name,
        ),
{
    let n = pins.len() as int;
    let loose = |x: SessionView| !pins.contains(x.name);
    let last = |x: SessionView| rank(pins, x.name) == n;
    assert forall|x: SessionView| #[trigger] loose(x) == last(x) by {
        lemma_first_slot(pins, x.name, 0);
        if pins.contains(x.name) {
            let k = choose|k: int| 0 <= k < pins.len() && pins[k] == x.name;
            assert(pins[k] == x.name);
        }
        if let Some(k) = slot_from(pins, x.name, 0) {
            assert(pins.contains(pins[k]));
        }
    }
    assert(loose =~= last);
    assert(crate::sessions::of_rank(pins, after, n) == crate::sessions::of_rank(pins, before, n));
    if pins.contains(name) {
        lemma_first_slot(pins, name, 0);
        let i = choose|i: int| 0 <= i < pins.len() && pins[i] == name;
        assert(pins[i] == name);
        let k = slot_from(pins, name, 0)->0;
        let named = |x: SessionView| x.name == name;
        let ranked = |x: SessionView| rank(pins, x.name) == k;
        assert forall|x: SessionView| #[trigger] named(x) == ranked(x) by {
            lemma_first_slot(pins, x.name, 0);
        }
        assert(named =~= ranked);
        assert(crate::sessions::of_rank(pins, after, k) == crate::sessions::of_rank(
            pins,
            before,
            k,
        ));
    }
}

/// A session that no pin names is made last, and viewed there; one that a pin
/// names is made behind those of its slot and of earlier ones.
pub proof fn law_session_made_in_place(
    pins: Seq<Seq<char>>,
    w: World,
    size: (u16, u16),
    name: Seq<char>,
)
    ensures
        ({
            let after = w.with_created(pins, size, name);
            let at = after.active;
            let s = w.sessions;
            &&& 0 <= at <= s.len()
            &&& after.sessions == s.insert(at, SessionView::fresh(name, w.fresh))
            &&& crate::sessions::with_session(pins, s, name, w.fresh) == after.sessions
            &&& !pins.contains(name) ==> at == s.len()
            &&& forall|k: int|
                0 <= k < pins.len() && #[trigger] pins[k] == name && (forall|j: int|
                    0 <= j < k ==> #[trigger] pins[j] != name) ==> {
                    &&& forall|i: int|
                        0 <= i < at ==> exists|a: int|
                            0 <= a <= k && #[trigger] pins[a] == (#[trigger] s[i]).name
                    &&& at < s.len() ==> forall|a: int|
                        0 <= a <= k ==> #[trigger] pins[a] != s[at].name
                }
        }),
{
    law_new_session_place(pins, w.sessions, name);
}

/// A screen is sent to its client as one frame of output: the text of its
/// commands, with the colours written out or not.
pub proof fn law_screen_sent(
    before: ClientView,
    after: ClientView,
    screen: Seq<crate::ansi::CmdView>,
)
    requires
        crate::screens::shown(before, after, screen),
    ensures
        exists|painted: Seq<bool>|
            painted.len() == screen.len() && {
                let bytes = encode_utf8(#[trigger] crate::ansi::encoded(screen, painted));
                if before.outbuf.len() + bytes.len() > MAX_OUTBUF {
                    after == (ClientView { dead: true, ..before })
                } else {
                    after == (ClientView {
                        outbuf: before.outbuf + framed(S2C_OUTPUT, bytes),
                        ..before
                    })
                }
            },
{
    let painted = choose|painted: Seq<bool>|
        painted.len() == screen.len() && after == before.sent(
            S2C_OUTPUT,
            encode_utf8(#[trigger] crate::ansi::encoded(screen, painted)),
        );
    let text = crate::ansi::encoded(screen, painted);
    assert(after == before.sent(S2C_OUTPUT, encode_utf8(text)));
}

/// A list request is answered with the text of the listing, in one frame, and
/// the connection is closed behind it.
pub proof fn law_listing_sent(
    before: ClientView,
    after: ClientView,
    listing: Seq<crate::ansi::CmdView>,
)
    requires
        crate::server::answered(before, after, listing),
    ensures
        after.closing,
        exists|painted: Seq<bool>|
            painted.len() == listing.len() && {
                let bytes = encode_utf8(#[trigger] crate::ansi::encoded(listing, painted));
                if before.outbuf.len() + bytes.len() > MAX_OUTBUF {
                    after == (ClientView { dead: true, closing: true, ..before })
                } else {
                    after == (ClientView {
                        outbuf: before.outbuf + framed(S2C_LIST, bytes),
                        closing: true,
                        ..before
                    })
                }
            },
{
    let painted = choose|painted: Seq<bool>|
        painted.len() == listing.len() && after == listed(
            before,
            #[trigger] crate::ansi::encoded(listing, painted),
        );
    let text = crate::ansi::encoded(listing, painted);
    assert(after == listed(before, text));
}

/// What is viewed, as noted before something is started: the session, its open
/// tab and the pane with the focus.
pub proof fn law_view_noted(w: World)
    requires
        0 <= w.active < w.sessions.len() <= usize::MAX,
        w.session().active_tab < w.session().tabs.len(),
    ensures
        ({
            let v = crate::starts::seen(w);
            v.active == w.active && v.tab == w.session().active_tab && v.focused
                == w.session().tabs[w.session().active_tab as int].focused
        }),
{
}

/// When the shell of a pane could not be started, that pane goes and nothing
/// else does: a tab keeps its other panes, a session its other tabs, and the
/// session goes only where the pane was all that it had. The focus moves only
/// off the pane that went, back to where it was.
pub proof fn law_failed_start(w: World, pane: u64, before: crate::starts::Seen, i: int, j: int)
    requires
        crate::world::holds(w.sessions, i, j, pane),
        forall|k: int, l: int| #[trigger]
            crate::world::holds(w.sessions, k, l, pane) ==> k == i && l == j,
    ensures
        ({
            let after = crate::starts::taken_back(w, pane, before);
            let s = w.sessions[i];
            let t = s.tabs[j];
            &&& after.fx == w.fx && after.fresh == w.fresh
            &&& t.layout is Split ==> {
                let u = after.sessions[i].tabs[j];
                &&& after.active == w.active
                &&& after.sessions == w.sessions.update(
                    i,
                    SessionView { tabs: s.tabs.update(j, u), ..s },
                )
                &&& u.layout.pane_seq() == t.layout.pane_seq().filter(|p: u64| p != pane)
                &&& u.focused == if t.focused == pane {
                    before.focused
                } else {
                    t.focused
                }
                &&& u.name == t.name && u.zoomed == t.zoomed
            }
            &&& !(t.layout is Split) && s.tabs.len() > 1 ==> {
                &&& after.active == w.active
                &&& after.sessions == w.sessions.update(
                    i,
                    SessionView { tabs: s.tabs.remove(j), active_tab: before.tab, ..s },
                )
            }
            &&& !(t.layout is Split) && s.tabs.len() == 1 ==> {
                &&& after.sessions == w.sessions.remove(i)
                &&& after.active == before.active
            }
        }),
{
    crate::starts::lemma_home(w.sessions, pane, 0, i, j);
    crate::laws::geometry::law_remove_order(w.sessions[i].tabs[j].layout, pane);
}

} // verus!
