//! The server's decisions: attaching clients to sessions, answering their
//! requests, and cleaning up after shells that have exited.

use crate::ansi::{cmds, encode, encoded, Cmd, CmdView};
use crate::clients::{client_views, Client, ClientView};
use crate::clipboard::{copy_sequence, osc52};
use crate::config::{chords_ok, BindingView, Config};
use crate::effect::{effects, Effect, EffectView};
use crate::input::{
    handle_input, handled, input_parts, select_after, split_input, Mode, ModeView,
};
use crate::listing::{format_listing, listing_drawn};
use crate::model::{session_views, Fresh, Session, SessionView, TabView};
use crate::mouse::{mouse_views, MouseEvent};
use crate::protocol::{
    from_le16, read_le16, C2S_ATTACH, C2S_INPUT, C2S_LIST, C2S_RESIZE, S2C_LIST, S2C_OUTPUT,
};
use crate::render::{content, content_size};
use crate::sessions::{
    create_session, find_id, find_named, named_from, place, resort_sessions, resorted,
    with_id_from, with_session,
};
use crate::starts::{dropped_session, find_home, sessions_back, start_failed, Seen};
use crate::text::{decode_lossy, lossy_chars, trim, trimmed};
use crate::world::{world, World};
use vstd::prelude::*;
use vstd::slice::slice_subrange;
use vstd::utf8::{
    decode_utf8, encode_utf8, encode_utf8_decode_utf8, encode_utf8_valid_utf8, valid_utf8,
};

verus! {

/// The clients and the sessions, the next free ids, and what has been asked
/// of the panes so far.
#[verifier::ext_equal]
pub struct Hub {
    pub clients: Seq<ClientView>,
    pub sessions: Seq<SessionView>,
    pub fresh: Fresh,
    pub fx: Seq<EffectView>,
}

/// The hub that these make up.
pub open spec fn hub(c: Seq<Client>, s: Seq<Session>, fresh: Fresh, fx: Seq<Effect>) -> Hub {
    Hub { clients: client_views(c), sessions: session_views(s), fresh, fx: effects(fx) }
}

impl Hub {
    /// With a client replaced.
    pub open spec fn with_client(self, ci: int, c: ClientView) -> Hub {
        Hub { clients: self.clients.update(ci, c), ..self }
    }
}

/// What the other clients become when a client attaches to a session: one
/// that is on it is said goodbye to.
pub open spec fn kicked(c: ClientView, id: u64) -> ClientView {
    if c.attached == Some(id) && !c.closing {
        c.farewelled("kicked: another client attached to this session"@)
    } else {
        c
    }
}

/// What the attaching client becomes.
pub open spec fn seated(c: ClientView, id: u64) -> ClientView {
    ClientView { attached: Some(id), needs_redraw: true, ..c }
}

/// The clients when client `ci` attaches to a session.
pub open spec fn seating(c: Seq<ClientView>, ci: int, id: u64) -> Seq<ClientView> {
    c.map(
        |j: int, x: ClientView|
            if j == ci {
                seated(x, id)
            } else {
                kicked(x, id)
            },
    )
}

/// Client `ci` pointed at session `si`: any other client on it is kicked,
/// and it is sized for this client.
pub open spec fn with_attached(h: Hub, ci: int, si: int) -> Hub {
    Hub {
        clients: seating(h.clients, ci, h.sessions[si].id),
        fx: h.fx + h.sessions[si].resize_requests(content(h.clients[ci].size)),
        ..h
    }
}

/// Point client `ci` at session index `si`: kick any other client on that
/// session, size it for this client, and schedule a full redraw.
pub fn attach_to(
    ci: usize,
    si: usize,
    clients: &mut Vec<Client>,
    sessions: &Vec<Session>,
    fx: &mut Vec<Effect>,
)
    requires
        ci < old(clients)@.len(),
        si < sessions@.len(),
    ensures
        client_views(final(clients)@) == seating(
            client_views(old(clients)@),
            ci as int,
            sessions@[si as int].id,
        ),
        effects(final(fx)@) == effects(old(fx)@) + sessions@[si as int]@.resize_requests(
            content(old(clients)@[ci as int].size),
        ),
        one_per_session(client_views(old(clients)@)) ==> one_per_session(
            client_views(final(clients)@),
        ),
{
    let ghost first = client_views(clients@);
    let id: u64 = sessions[si].id;
    let mut cj: usize = 0;
    while cj < clients.len()
        invariant
            cj <= clients@.len(),
            clients@.len() == first.len(),
            forall|j: int|
                0 <= j < first.len() ==> #[trigger] client_views(clients@)[j] == if j < cj && j
                    != ci {
                    kicked(first[j], id)
                } else {
                    first[j]
                },
        decreases clients@.len() - cj,
    {
        let ghost before = client_views(clients@);
        assert(before[cj as int] == clients@[cj as int]@);
        if cj != ci {
            if let Some(a) = clients[cj].attached {
                if a == id && !clients[cj].closing {
                    clients[cj].bye("kicked: another client attached to this session");
                }
            }
        }
        assert forall|j: int| 0 <= j < first.len() implies #[trigger] client_views(clients@)[j]
            == if j < cj + 1 && j != ci {
            kicked(first[j], id)
        } else {
            first[j]
        } by {
            assert(before[j] == if j < cj && j != ci {
                kicked(first[j], id)
            } else {
                first[j]
            });
            if j != cj {
                assert(client_views(clients@)[j] == before[j]);
            }
        }
        cj = cj + 1;
    }
    let ghost before = client_views(clients@);
    assert(before[ci as int] == first[ci as int]);
    assert(clients@[ci as int]@ == before[ci as int]);
    clients[ci].attached = Some(id);
    let size: (u16, u16) = clients[ci].size;
    sessions[si].resize(content_size(size), fx);
    clients[ci].needs_redraw = true;
    proof {
        let after = client_views(clients@);
        let want = seating(first, ci as int, id);
        assert forall|j: int| 0 <= j < after.len() implies after[j] == want[j] by {
            if j == ci {
                assert(after[j] =~= seated(first[j], id));
            } else {
                assert(after[j] == before[j]);
            }
        }
        assert(after =~= want);
        if one_per_session(first) {
            lemma_seating_one(first, ci as int, id);
        }
    }
}

/// A served client whose session is gone.
pub open spec fn homeless(c: ClientView, s: Seq<SessionView>) -> bool {
    c.served() && c.attached is Some && with_id_from(s, c.attached->0, 0) is None
}

/// The clients, and what has been asked of the panes so far.
#[verifier::ext_equal]
pub struct Seats {
    pub clients: Seq<ClientView>,
    pub fx: Seq<EffectView>,
}

/// Client `ci` rehomed if it is homeless: it falls back to the first
/// surviving session, where it is seated as an attaching client is, or gets a
/// goodbye when none remain.
pub open spec fn rehomed_one(p: Seats, s: Seq<SessionView>, ci: int) -> Seats {
    let c = p.clients[ci];
    if !homeless(c, s) {
        p
    } else if s.len() == 0 {
        Seats { clients: p.clients.update(ci, c.farewelled("session closed"@)), ..p }
    } else {
        Seats {
            clients: seating(
                p.clients.update(ci, ClientView { mode: ModeView::Running, ..c }),
                ci,
                s[0].id,
            ),
            fx: p.fx + s[0].resize_requests(content(c.size)),
        }
    }
}

/// The first `n` clients rehomed, one after another.
pub open spec fn rehomed(p: Seats, s: Seq<SessionView>, n: int) -> Seats
    decreases n,
{
    if n <= 0 {
        p
    } else {
        rehomed_one(rehomed(p, s, n - 1), s, n - 1)
    }
}

/// The hub with every homeless client rehomed.
pub open spec fn with_rehomed(h: Hub) -> Hub {
    let p = rehomed(
        Seats { clients: h.clients, fx: h.fx },
        h.sessions,
        h.clients.len() as int,
    );
    Hub { clients: p.clients, fx: p.fx, ..h }
}

/// Rehoming leaves clients that are said goodbye to alone.
pub proof fn lemma_rehomed_len(p: Seats, s: Seq<SessionView>, n: int)
    requires
        0 <= n <= p.clients.len(),
    ensures
        rehomed(p, s, n).clients.len() == p.clients.len(),
        forall|j: int|
            0 <= j < p.clients.len() && p.clients[j].closing ==> #[trigger] rehomed(
                p,
                s,
                n,
            ).clients[j] == p.clients[j],
    decreases n,
{
    if n > 0 {
        lemma_rehomed_len(p, s, n - 1);
        let before = rehomed(p, s, n - 1);
        assert forall|j: int| 0 <= j < p.clients.len() && p.clients[j].closing implies #[trigger]
        rehomed(p, s, n).clients[j] == p.clients[j] by {
            assert(before.clients[j] == p.clients[j]);
        }
    }
}

/// Clients whose session vanished (killed from a manager) fall back to
/// the first surviving session, or get a goodbye when none remain. One that
/// falls back is attached to it like any other client: whoever was on the
/// session is kicked.
pub fn rehome_homeless_clients(
    clients: &mut Vec<Client>,
    sessions: &Vec<Session>,
    fx: &mut Vec<Effect>,
)
    ensures
        (Seats { clients: client_views(final(clients)@), fx: effects(final(fx)@) }) == rehomed(
            Seats { clients: client_views(old(clients)@), fx: effects(old(fx)@) },
            session_views(sessions@),
            old(clients)@.len() as int,
        ),
        one_per_session(client_views(old(clients)@)) ==> one_per_session(
            client_views(final(clients)@),
        ),
        forall|j: int|
            0 <= j < final(clients)@.len() ==> !homeless(
                #[trigger] client_views(final(clients)@)[j],
                session_views(sessions@),
            ),
{
    let ghost first = Seats { clients: client_views(clients@), fx: effects(fx@) };
    let ghost s = session_views(sessions@);
    let n: usize = clients.len();
    let mut ci: usize = 0;
    while ci < n
        invariant
            ci <= n,
            clients@.len() == n,
            first.clients.len() == n,
            s == session_views(sessions@),
            (Seats { clients: client_views(clients@), fx: effects(fx@) }) == rehomed(
                first,
                s,
                ci as int,
            ),
        decreases n - ci,
    {
        let ghost before = Seats { clients: client_views(clients@), fx: effects(fx@) };
        let ghost c = before.clients[ci as int];
        assert(c == clients@[ci as int]@);
        if clients[ci].is_served() {
            if let Some(id) = clients[ci].attached {
                if find_id(sessions, id).is_none() {
                    if sessions.len() == 0 {
                        clients[ci].bye("session closed");
                        assert(client_views(clients@) =~= before.clients.update(
                            ci as int,
                            c.farewelled("session closed"@),
                        ));
                    } else {
                        clients[ci].mode = Mode::Running;
                        proof {
                            let z = ClientView { mode: ModeView::Running, ..c };
                            assert(clients@[ci as int]@ =~= z);
                            assert(client_views(clients@) =~= before.clients.update(
                                ci as int,
                                z,
                            ));
                            assert(s[0] == sessions@[0]@);
                        }
                        attach_to(ci, 0, clients, sessions, fx);
                    }
                }
            }
        }
        assert((Seats { clients: client_views(clients@), fx: effects(fx@) }) =~= rehomed_one(
            before,
            s,
            ci as int,
        ));
        assert(client_views(clients@).len() == n);
        ci = ci + 1;
    }
    proof {
        crate::laws::lemma_rehomed(first, s, n as int);
    }
}

/// A client with a redraw scheduled, where it is served and attached.
pub open spec fn marked(c: ClientView) -> ClientView {
    if c.attached is Some && c.served() {
        ClientView { needs_redraw: true, ..c }
    } else {
        c
    }
}

/// Schedule a redraw for every client that is served and attached.
pub fn mark_attached(clients: &mut Vec<Client>)
    ensures
        client_views(final(clients)@) == client_views(old(clients)@).map_values(
            |c: ClientView| marked(c),
        ),
{
    let ghost first = client_views(clients@);
    let mut ci: usize = 0;
    while ci < clients.len()
        invariant
            ci <= clients@.len(),
            clients@.len() == first.len(),
            forall|j: int|
                0 <= j < first.len() ==> #[trigger] client_views(clients@)[j] == if j < ci {
                    marked(first[j])
                } else {
                    first[j]
                },
        decreases clients@.len() - ci,
    {
        let ghost before = client_views(clients@);
        assert(before[ci as int] == clients@[ci as int]@);
        if clients[ci].attached.is_some() && clients[ci].is_served() {
            clients[ci].needs_redraw = true;
        }
        proof {
            assert(clients@[ci as int]@ =~= marked(first[ci as int]));
            assert forall|j: int| 0 <= j < first.len() implies #[trigger] client_views(
                clients@,
            )[j] == if j < ci + 1 {
                marked(first[j])
            } else {
                first[j]
            } by {
                if j != ci {
                    assert(client_views(clients@)[j] == before[j]);
                }
            }
        }
        ci = ci + 1;
    }
    assert(client_views(clients@) =~= first.map_values(|c: ClientView| marked(c)));
}

/// The session that an attach request names; "main" when it names none.
pub open spec fn attach_name(typed: Seq<char>) -> Seq<char> {
    if trimmed(typed).len() == 0 {
        "main"@
    } else {
        trimmed(typed)
    }
}

/// A client with the size it announced; one without columns or rows is not
/// taken over.
pub open spec fn resized(c: ClientView, cols: u16, rows: u16) -> ClientView {
    if cols > 0 && rows > 0 {
        ClientView { size: (cols, rows), ..c }
    } else {
        c
    }
}

/// Client `ci` attached to the session with a name, which is created if it
/// is new.
pub open spec fn attached_by_name(
    h: Hub,
    ci: int,
    cols: u16,
    rows: u16,
    name: Seq<char>,
    pins: Seq<Seq<char>>,
) -> Hub {
    let c = resized(h.clients[ci], cols, rows);
    let sized = h.with_client(ci, c);
    match named_from(h.sessions, name, 0) {
        Some(si) => with_attached(sized, ci, si),
        None => with_attached(
            Hub {
                sessions: with_session(pins, h.sessions, name, h.fresh),
                fresh: h.fresh.after_session(),
                fx: h.fx.push(
                    EffectView::Spawn {
                        pane: h.fresh.pane,
                        w: content(c.size).0,
                        h: content(c.size).1,
                    },
                ),
                ..sized
            },
            ci,
            place(pins, h.sessions, name),
        ),
    }
}

/// Attach a client to the session that it names, creating it if new.
pub fn attach_client(
    ci: usize,
    cols: u16,
    rows: u16,
    typed: &str,
    clients: &mut Vec<Client>,
    sessions: &mut Vec<Session>,
    config: &Config,
    fresh: &mut Fresh,
    fx: &mut Vec<Effect>,
)
    requires
        ci < old(clients)@.len(),
        old(fresh).room(1),
    ensures
        hub(final(clients)@, final(sessions)@, *final(fresh), final(fx)@) == attached_by_name(
            hub(old(clients)@, old(sessions)@, *old(fresh), old(fx)@),
            ci as int,
            cols,
            rows,
            attach_name(typed@),
            config.names(),
        ),
        one_per_session(client_views(old(clients)@)) ==> one_per_session(
            client_views(final(clients)@),
        ),
{
    let ghost h = hub(clients@, sessions@, *fresh, fx@);
    let mut name: String = trim(typed);
    if name.as_str().is_empty() {
        let mut main: String = String::new();
        main.append("main");
        assert(main@ =~= "main"@);
        name = main;
    }
    assert(name@ == attach_name(typed@));
    if cols > 0 && rows > 0 {
        clients[ci].size = (cols, rows);
    }
    let ghost sized = h.with_client(ci as int, resized(h.clients[ci as int], cols, rows));
    assert(client_views(clients@) =~= sized.clients) by {
        assert(clients@[ci as int]@ =~= resized(h.clients[ci as int], cols, rows));
    }
    let size: (u16, u16) = clients[ci].size;
    assert(size == sized.clients[ci as int].size);
    let si: usize = match find_named(sessions, &name) {
        Some(si) => si,
        None => create_session(sessions, config, content_size(size), name, fresh, fx),
    };
    assert(session_views(sessions@)[si as int] == sessions@[si as int]@);
    attach_to(ci, si, clients, sessions, fx);
    proof {
        if one_per_session(h.clients) {
            lemma_fewer_served(h.clients, sized.clients);
        }
    }
}

/// A client that is answered with a listing and dropped once it is
/// delivered.
pub open spec fn listed(c: ClientView, listing: Seq<char>) -> ClientView {
    ClientView { closing: true, ..c.sent(S2C_LIST, encode_utf8(listing)) }
}

/// `after` is what `before` becomes when it is answered with a listing,
/// with the colours written out or not.
pub open spec fn answered(before: ClientView, after: ClientView, listing: Seq<CmdView>) -> bool {
    exists|painted: Seq<bool>|
        painted.len() == listing.len() && after == listed(
            before,
            #[trigger] encoded(listing, painted),
        )
}

/// Answer a client's request for the listing.
pub fn answer_list(
    ci: usize,
    clients: &mut Vec<Client>,
    sessions: &Vec<Session>,
    config: &Config,
    now: u64,
)
    requires
        ci < old(clients)@.len(),
    ensures
        ({
            let c = client_views(old(clients)@);
            let after = client_views(final(clients)@);
            let l = listing_drawn(
                config.names(),
                session_views(sessions@),
                c,
                config.accent,
                now,
            );
            after == c.update(ci as int, after[ci as int]) && answered(
                c[ci as int],
                after[ci as int],
                l,
            )
        }),
{
    let ghost c = client_views(clients@);
    let queue: Vec<Cmd> = format_listing(sessions, clients, config, now);
    let listing: String = encode(&queue);
    let ghost painted = choose|painted: Seq<bool>|
        painted.len() == queue@.len() && listing@ == #[trigger] encoded(cmds(queue@), painted);
    clients[ci].send(S2C_LIST, listing.as_str().as_bytes());
    // One-shot request: close once the reply drains.
    clients[ci].closing = true;
    proof {
        assert(clients@[ci as int]@ =~= listed(c[ci as int], listing@));
        assert(client_views(clients@) =~= c.update(ci as int, listed(c[ci as int], listing@)));
        assert(listing@ == encoded(cmds(queue@), painted));
    }
}

/// Client `ci` with a new size, its session sized to it.
pub open spec fn resized_hub(h: Hub, ci: int, cols: u16, rows: u16) -> Hub {
    if cols == 0 || rows == 0 {
        h
    } else {
        let c = h.clients[ci];
        Hub {
            fx: h.fx + (match c.attached {
                Some(id) => match with_id_from(h.sessions, id, 0) {
                    Some(si) => h.sessions[si].resize_requests(content((cols, rows))),
                    None => Seq::empty(),
                },
                None => Seq::empty(),
            }),
            ..h.with_client(
                ci,
                ClientView { size: (cols, rows), needs_redraw: true, ..c },
            )
        }
    }
}

/// Take over the size of a client's terminal.
pub fn resize_client(
    ci: usize,
    cols: u16,
    rows: u16,
    clients: &mut Vec<Client>,
    sessions: &Vec<Session>,
    fx: &mut Vec<Effect>,
)
    requires
        ci < old(clients)@.len(),
    ensures
        forall|fresh: Fresh|
            #![trigger hub(old(clients)@, sessions@, fresh, old(fx)@)]
            hub(final(clients)@, sessions@, fresh, final(fx)@) == resized_hub(
                hub(old(clients)@, sessions@, fresh, old(fx)@),
                ci as int,
                cols,
                rows,
            ),
{
    if cols == 0 || rows == 0 {
        return;
    }
    let ghost c = client_views(clients@);
    let ghost s = session_views(sessions@);
    let ghost asked = effects(fx@);
    assert(c[ci as int] == clients@[ci as int]@);
    clients[ci].size = (cols, rows);
    if let Some(id) = clients[ci].attached {
        if let Some(si) = find_id(sessions, id) {
            assert(s[si as int] == sessions@[si as int]@);
            sessions[si].resize(content_size((cols, rows)), fx);
        }
    }
    clients[ci].needs_redraw = true;
    proof {
        let z = ClientView { size: (cols, rows), needs_redraw: true, ..c[ci as int] };
        assert(clients@[ci as int]@ =~= z);
        assert(client_views(clients@) =~= c.update(ci as int, z));
        assert(asked + Seq::<EffectView>::empty() =~= asked);
    }
}

/// What a frame leaves to be done.
pub enum FrameStep {
    /// Nothing.
    Done,
    /// Handle a chunk of input against the session at `active`: first the
    /// mouse events, then the keys.
    Input { active: usize, keys: Vec<u8>, events: Vec<MouseEvent> },
}

/// The index of the session that a client views.
pub open spec fn viewed_index(h: Hub, ci: int) -> Option<int> {
    match h.clients[ci].attached {
        Some(id) => with_id_from(h.sessions, id, 0),
        None => None,
    }
}

/// Handle one protocol frame from client `ci`.
pub fn handle_frame(
    ci: usize,
    kind: u8,
    payload: &Vec<u8>,
    clients: &mut Vec<Client>,
    sessions: &mut Vec<Session>,
    config: &Config,
    fresh: &mut Fresh,
    fx: &mut Vec<Effect>,
) -> (step: FrameStep)
    requires
        ci < old(clients)@.len(),
        old(fresh).room(1),
    ensures
        ({
            let h = hub(old(clients)@, old(sessions)@, *old(fresh), old(fx)@);
            let after = hub(final(clients)@, final(sessions)@, *final(fresh), final(fx)@);
            let c = h.clients[ci as int];
            let p = payload@;
            let killed = h.with_client(ci as int, ClientView { dead: true, ..c });
            if kind == C2S_ATTACH {
                &&& step is Done
                &&& after == if p.len() < 4 {
                    killed
                } else {
                    attached_by_name(
                        h,
                        ci as int,
                        from_le16(p[0], p[1]),
                        from_le16(p[2], p[3]),
                        attach_name(lossy_chars(p.skip(4))),
                        config.names(),
                    )
                }
            } else if kind == C2S_INPUT {
                &&& after == h
                &&& match viewed_index(h, ci as int) {
                    Some(si) => {
                        &&& step matches FrameStep::Input { active, keys, events }
                        &&& active == si
                        &&& keys@ == input_parts(p, c.mode).0
                        &&& mouse_views(events@) == input_parts(p, c.mode).1
                    },
                    None => step is Done,
                }
            } else if kind == C2S_LIST {
                &&& step is Done
                &&& after == h.with_client(ci as int, after.clients[ci as int])
                &&& answered(
                    c,
                    after.clients[ci as int],
                    listing_drawn(
                        config.names(),
                        h.sessions,
                        h.clients,
                        config.accent,
                        h.fresh.now,
                    ),
                )
            } else if kind == C2S_RESIZE {
                &&& step is Done
                &&& after == if p.len() < 4 {
                    h
                } else {
                    resized_hub(h, ci as int, from_le16(p[0], p[1]), from_le16(p[2], p[3]))
                }
            } else {
                step is Done && after == killed
            }
        }),
        kind == C2S_ATTACH && payload@.len() >= 4 && valid_utf8(payload@.skip(4)) ==> lossy_chars(
            payload@.skip(4),
        ) == decode_utf8(payload@.skip(4)),
        forall|name: Seq<char>|
            kind == C2S_ATTACH && payload@.len() >= 4 && payload@.skip(4)
                == #[trigger] encode_utf8(name) ==> lossy_chars(payload@.skip(4)) == name,
        one_per_session(client_views(old(clients)@)) ==> one_per_session(
            client_views(final(clients)@),
        ),
{
    let ghost h = hub(clients@, sessions@, *fresh, fx@);
    let ghost c = h.clients[ci as int];
    let ghost killed = h.with_client(ci as int, ClientView { dead: true, ..c });
    assert(c == clients@[ci as int]@);
    if kind == C2S_ATTACH {
        if payload.len() < 4 {
            clients[ci].dead = true;
            assert(client_views(clients@) =~= killed.clients) by {
                assert(clients@[ci as int]@ =~= killed.clients[ci as int]);
            }
            proof {
                if one_per_session(h.clients) {
                    lemma_fewer_served(h.clients, killed.clients);
                }
            }
            return FrameStep::Done;
        }
        let cols: u16 = read_le16(payload[0], payload[1]);
        let rows: u16 = read_le16(payload[2], payload[3]);
        let rest: &[u8] = slice_subrange(payload.as_slice(), 4, payload.len());
        assert(rest@ =~= payload@.skip(4));
        let name: String = decode_lossy(rest);
        proof {
            assert forall|name: Seq<char>|
                payload@.skip(4) == #[trigger] encode_utf8(name) implies lossy_chars(
                payload@.skip(4),
            ) == name by {
                encode_utf8_valid_utf8(name);
                encode_utf8_decode_utf8(name);
            }
        }
        attach_client(ci, cols, rows, name.as_str(), clients, sessions, config, fresh, fx);
        FrameStep::Done
    } else if kind == C2S_INPUT {
        match clients[ci].attached {
            Some(id) => match find_id(sessions, id) {
                Some(active) => {
                    let (keys, events): (Vec<u8>, Vec<MouseEvent>) = split_input(
                        payload.as_slice(),
                        &clients[ci].mode,
                    );
                    FrameStep::Input { active, keys, events }
                },
                None => FrameStep::Done,
            },
            None => FrameStep::Done,
        }
    } else if kind == C2S_LIST {
        answer_list(ci, clients, sessions, config, fresh.now);
        proof {
            if one_per_session(h.clients) {
                assert(client_views(clients@)[ci as int].closing);
                lemma_fewer_served(h.clients, client_views(clients@));
            }
        }
        FrameStep::Done
    } else if kind == C2S_RESIZE {
        if payload.len() < 4 {
            return FrameStep::Done;
        }
        let cols: u16 = read_le16(payload[0], payload[1]);
        let rows: u16 = read_le16(payload[2], payload[3]);
        resize_client(ci, cols, rows, clients, sessions, fx);
        proof {
            if one_per_session(h.clients) {
                let after = resized_hub(h, ci as int, cols, rows);
                assert(hub(clients@, sessions@, *fresh, fx@) == after);
                lemma_fewer_served(h.clients, after.clients);
            }
        }
        FrameStep::Done
    } else {
        clients[ci].dead = true;
        assert(client_views(clients@) =~= killed.clients) by {
            assert(clients@[ci as int]@ =~= killed.clients[ci as int]);
        }
        proof {
            if one_per_session(h.clients) {
                lemma_fewer_served(h.clients, killed.clients);
            }
        }
        FrameStep::Done
    }
}

/// A client after its keys were handled, with what was copied sent to its
/// clipboard.
pub open spec fn input_seen(
    c: ClientView,
    mode: ModeView,
    keys: Seq<u8>,
    copied: Option<Seq<char>>,
) -> ClientView {
    let seen = ClientView {
        mode,
        select: select_after(keys, c.mode, c.select),
        needs_redraw: true,
        ..c
    };
    match copied {
        Some(t) => seen.sent(S2C_OUTPUT, osc52(t)),
        None => seen,
    }
}

/// Where a client goes after its keys were handled: it is said goodbye to
/// when it detached or no session is left, and attached to the session that
/// it views now when that is another one.
pub open spec fn settled_view(h: Hub, ci: int, active: int, id: u64, detach: bool) -> Hub {
    if detach {
        h.with_client(ci, h.clients[ci].farewelled("detached"@))
    } else if h.sessions.len() == 0 {
        h.with_client(ci, h.clients[ci].farewelled("all sessions closed"@))
    } else {
        let at = if active < h.sessions.len() {
            active
        } else {
            h.sessions.len() - 1
        };
        if h.sessions[at].id != id {
            with_attached(h, ci, at)
        } else {
            h
        }
    }
}

/// The hub with a redraw scheduled for every client that is served and
/// attached.
pub open spec fn all_marked(h: Hub) -> Hub {
    Hub { clients: h.clients.map_values(|c: ClientView| marked(c)), ..h }
}

/// The hub after client `ci`'s keys were handled against the session at
/// `active`.
pub open spec fn after_input(
    h: Hub,
    ci: int,
    active: int,
    keys: Seq<u8>,
    copied: Option<Seq<char>>,
    pins: Seq<Seq<char>>,
    chords: Seq<BindingView>,
) -> Hub {
    let c = h.clients[ci];
    let w = World { sessions: h.sessions, active, fresh: h.fresh, fx: h.fx };
    let r = handled(keys, c.mode, c.select, w, content(c.size), pins, chords);
    let seen = Hub {
        clients: h.clients.update(ci, input_seen(c, r.mode, keys, copied)),
        sessions: r.world.sessions,
        fresh: r.world.fresh,
        fx: r.world.fx,
    };
    let placed = with_rehomed(
        settled_view(seen, ci, r.world.active, h.sessions[active].id, r.detach),
    );
    // Renames and kills change what everyone's overlays and bars show.
    if c.mode !is Running || r.mode !is Running {
        all_marked(placed)
    } else {
        placed
    }
}

/// The text that was copied, as a sequence of characters.
pub open spec fn copied_view(t: Option<String>) -> Option<Seq<char>> {
    match t {
        Some(t) => Some(t@),
        None => None,
    }
}

fn settle_view(
    ci: usize,
    active: usize,
    id: u64,
    detach: bool,
    clients: &mut Vec<Client>,
    sessions: &Vec<Session>,
    fx: &mut Vec<Effect>,
)
    requires
        ci < old(clients)@.len(),
    ensures
        forall|fresh: Fresh|
            #![trigger hub(old(clients)@, sessions@, fresh, old(fx)@)]
            hub(final(clients)@, sessions@, fresh, final(fx)@) == settled_view(
                hub(old(clients)@, sessions@, fresh, old(fx)@),
                ci as int,
                active as int,
                id,
                detach,
            ),
{
    let ghost c = client_views(clients@);
    if detach {
        clients[ci].bye("detached");
        assert(client_views(clients@) =~= c.update(
            ci as int,
            c[ci as int].farewelled("detached"@),
        ));
    } else if sessions.len() == 0 {
        // The last session was killed from the manager.
        clients[ci].bye("all sessions closed");
        assert(client_views(clients@) =~= c.update(
            ci as int,
            c[ci as int].farewelled("all sessions closed"@),
        ));
    } else {
        let at: usize = if active < sessions.len() {
            active
        } else {
            sessions.len() - 1
        };
        assert(session_views(sessions@)[at as int] == sessions@[at as int]@);
        if sessions[at].id != id {
            // The manager switched sessions (created, killed, ...).
            attach_to(ci, at, clients, sessions, fx);
        }
    }
}

/// Handle the keys of a chunk of input from client `ci`, whose mouse events
/// have been handled against the session at `active`; `copied` is what they
/// copied.
pub fn finish_input(
    ci: usize,
    active: usize,
    keys: &Vec<u8>,
    copied: Option<String>,
    clients: &mut Vec<Client>,
    sessions: &mut Vec<Session>,
    config: &Config,
    fresh: &mut Fresh,
    fx: &mut Vec<Effect>,
)
    requires
        ci < old(clients)@.len(),
        chords_ok(config.chords()),
        active < old(sessions)@.len(),
        old(clients)@[ci as int]@.mode is Running ==> world(
            old(sessions)@,
            active,
            *old(fresh),
            old(fx)@,
        ).ok(),
        old(fresh).room(keys@.len() + 1),
    ensures
        hub(final(clients)@, final(sessions)@, *final(fresh), final(fx)@) == after_input(
            hub(old(clients)@, old(sessions)@, *old(fresh), old(fx)@),
            ci as int,
            active as int,
            keys@,
            copied_view(copied),
            config.names(),
            config.chords(),
        ),
        ({
            let mode = old(clients)@[ci as int]@.mode;
            (mode is Naming || mode is Search) && valid_utf8(keys@) ==> lossy_chars(keys@)
                == decode_utf8(keys@)
        }),
        one_per_session(client_views(old(clients)@)) ==> one_per_session(
            client_views(final(clients)@),
        ),
{
    let ghost h = hub(clients@, sessions@, *fresh, fx@);
    let ghost c = h.clients[ci as int];
    let ghost w = world(sessions@, active, *fresh, fx@);
    assert(c == clients@[ci as int]@);
    let id: u64 = sessions[active].id;
    assert(id == h.sessions[active as int].id);
    let size: (u16, u16) = clients[ci].size;
    let ghost r = handled(
        keys@,
        c.mode,
        c.select,
        w,
        content(size),
        config.names(),
        config.chords(),
    );
    let mut mode: Mode = Mode::Running;
    std::mem::swap(&mut mode, &mut clients[ci].mode);
    let mut select = clients[ci].select;
    let overlay_before: bool = !matches!(mode, Mode::Running);
    let mut now_active: usize = active;
    let detach: bool = handle_input(
        keys.as_slice(),
        &mut mode,
        sessions,
        &mut now_active,
        content_size(size),
        config,
        &mut select,
        fresh,
        fx,
    );
    let overlay_involved: bool = overlay_before || !matches!(mode, Mode::Running);
    clients[ci].mode = mode;
    clients[ci].select = select;
    clients[ci].needs_redraw = true;
    if let Some(t) = &copied {
        let seq: Vec<u8> = copy_sequence(t.as_str());
        clients[ci].send(S2C_OUTPUT, seq.as_slice());
    }
    let ghost seen = Hub {
        clients: h.clients.update(
            ci as int,
            input_seen(c, r.mode, keys@, copied_view(copied)),
        ),
        sessions: r.world.sessions,
        fresh: r.world.fresh,
        fx: r.world.fx,
    };
    proof {
        assert(clients@[ci as int]@ =~= seen.clients[ci as int]);
        assert(client_views(clients@) =~= seen.clients);
        assert(world(sessions@, now_active, *fresh, fx@) == r.world);
        assert(hub(clients@, sessions@, *fresh, fx@) =~= seen);
    }
    settle_view(ci, now_active, id, detach, clients, sessions, fx);
    // Kills may have orphaned other clients; renames/kills change what
    // everyone's overlays and bars show.
    rehome_homeless_clients(clients, sessions, fx);
    if overlay_involved {
        mark_attached(clients);
    }
    proof {
        crate::laws::law_input_one_per_session(
            h,
            ci as int,
            active as int,
            keys@,
            copied_view(copied),
            config.names(),
            config.chords(),
        );
    }
}

/// The tabs with panes among the first `n`.
pub open spec fn kept_tabs(tabs: Seq<TabView>, n: int) -> Seq<TabView>
    decreases n,
{
    if n <= 0 {
        Seq::empty()
    } else if tabs[n - 1].layout is Empty {
        kept_tabs(tabs, n - 1)
    } else {
        kept_tabs(tabs, n - 1).push(tabs[n - 1])
    }
}

/// A session without its empty tabs; the open tab stays open where it can.
pub open spec fn pruned(s: SessionView) -> SessionView {
    let tabs = kept_tabs(s.tabs, s.tabs.len() as int);
    SessionView {
        tabs,
        active_tab: crate::input::at_most(
            kept_tabs(s.tabs, s.active_tab as int).len() as usize,
            tabs.len() - 1,
        ),
        ..s
    }
}

/// The sessions that still have a tab with panes among the first `n`.
pub open spec fn kept_sessions(s: Seq<SessionView>, n: int) -> Seq<SessionView>
    decreases n,
{
    if n <= 0 {
        Seq::empty()
    } else if pruned(s[n - 1]).tabs.len() == 0 {
        kept_sessions(s, n - 1)
    } else {
        kept_sessions(s, n - 1).push(pruned(s[n - 1]))
    }
}

pub proof fn lemma_kept_tabs_len(tabs: Seq<TabView>, m: int, n: int)
    requires
        0 <= m <= n <= tabs.len(),
    ensures
        kept_tabs(tabs, m).len() <= kept_tabs(tabs, n).len() <= n,
    decreases n,
{
    if m < n {
        lemma_kept_tabs_len(tabs, m, n - 1);
    } else if n > 0 {
        lemma_kept_tabs_len(tabs, n - 1, n - 1);
    }
}

/// Drop the empty tabs of a session.
fn prune(session: &mut Session)
    requires
        old(session)@.active_tab <= old(session)@.tabs.len(),
    ensures
        final(session)@ == pruned(old(session)@),
{
    let ghost s = session@;
    let n: usize = session.tabs.len();
    let active: usize = session.active_tab;
    let mut at: usize = 0;
    let mut i: usize = 0;
    let mut seen: usize = 0;
    assert(s.tabs.skip(0) =~= s.tabs);
    while seen < n
        invariant
            seen <= n,
            n == s.tabs.len(),
            active == s.active_tab <= n,
            i == kept_tabs(s.tabs, seen as int).len(),
            i <= seen,
            session@.tabs == kept_tabs(s.tabs, seen as int) + s.tabs.skip(seen as int),
            session@ == (SessionView { tabs: session@.tabs, ..s }),
            at == kept_tabs(
                s.tabs,
                if seen < active {
                    seen as int
                } else {
                    active as int
                },
            ).len(),
            at <= i,
        decreases n - seen,
    {
        let ghost before = session@.tabs;
        assert(before.len() == session.tabs@.len());
        assert(before.len() == i + (n - seen));
        assert(before[i as int] == s.tabs[seen as int]);
        assert(before[i as int] == session.tabs@[i as int]@);
        if session.tabs[i].is_empty() {
            let _gone = session.tabs.remove(i);
            assert(session@.tabs =~= before.remove(i as int));
            assert(session@.tabs =~= kept_tabs(s.tabs, seen + 1) + s.tabs.skip(seen + 1));
        } else {
            i = i + 1;
            if seen < active {
                at = at + 1;
            }
            assert(session@.tabs =~= kept_tabs(s.tabs, seen + 1) + s.tabs.skip(seen + 1));
        }
        seen = seen + 1;
    }
    session.active_tab = if i == 0 {
        0
    } else if at < i {
        at
    } else {
        i - 1
    };
    assert(session@.tabs =~= kept_tabs(s.tabs, n as int));
    assert(session@ =~= pruned(s));
}

/// Drop empty tabs, and sessions without tabs.
pub fn sweep_sessions(sessions: &mut Vec<Session>)
    requires
        forall|i: int|
            0 <= i < old(sessions)@.len() ==> (#[trigger] old(sessions)@[i])@.active_tab <= old(
                sessions,
            )@[i]@.tabs.len(),
    ensures
        session_views(final(sessions)@) == kept_sessions(
            session_views(old(sessions)@),
            old(sessions)@.len() as int,
        ),
{
    let ghost s = session_views(sessions@);
    let n: usize = sessions.len();
    let mut i: usize = 0;
    let mut seen: usize = 0;
    assert(s.skip(0) =~= s);
    while seen < n
        invariant
            seen <= n,
            n == s.len(),
            i == kept_sessions(s, seen as int).len(),
            i <= seen,
            session_views(sessions@) == kept_sessions(s, seen as int) + s.skip(seen as int),
            forall|k: int|
                0 <= k < s.len() ==> (#[trigger] s[k]).active_tab <= s[k].tabs.len(),
        decreases n - seen,
    {
        let ghost before = session_views(sessions@);
        assert(before.len() == sessions@.len());
        assert(before.len() == i + (n - seen));
        assert(before[i as int] == s[seen as int]);
        assert(before[i as int] == sessions@[i as int]@);
        prune(&mut sessions[i]);
        assert(session_views(sessions@) =~= before.update(i as int, pruned(s[seen as int])));
        if sessions[i].tabs.len() == 0 {
            let _gone: Session = sessions.remove(i);
            assert(session_views(sessions@) =~= before.remove(i as int));
        } else {
            i = i + 1;
        }
        assert(session_views(sessions@) =~= kept_sessions(s, seen + 1) + s.skip(seen + 1));
        seen = seen + 1;
    }
    assert(session_views(sessions@) =~= kept_sessions(s, n as int));
}

/// A client without a stale selection in a manager overlay, now that no
/// session is left.
pub open spec fn deselected(c: ClientView) -> ClientView {
    match c.mode {
        ModeView::Manager { overlay, .. } => ClientView {
            mode: ModeView::Manager { overlay, selected: 0 },
            ..c
        },
        _ => c,
    }
}

/// What a client becomes when sessions are swept, before those that are
/// served are rehomed: one whose session is still there is redrawn. One that
/// is no longer served is only pointed at the first session, where it is in
/// nobody's way, or said goodbye to.
pub open spec fn swept_client(c: ClientView, s: Seq<SessionView>) -> ClientView {
    match c.attached {
        None => c,
        Some(id) => if with_id_from(s, id, 0) is Some {
            ClientView { needs_redraw: true, ..c }
        } else if s.len() == 0 {
            if c.served() {
                deselected(c)
            } else {
                deselected(c.farewelled("session closed"@))
            }
        } else if c.served() {
            c
        } else {
            ClientView {
                attached: Some(s[0].id),
                mode: ModeView::Running,
                needs_redraw: true,
                ..c
            }
        },
    }
}

/// The sizing that the first `n` clients ask for: each sizes the session it
/// is attached to.
pub open spec fn refit_requests(c: Seq<ClientView>, s: Seq<SessionView>, n: int) -> Seq<EffectView>
    decreases n,
{
    if n <= 0 {
        Seq::empty()
    } else {
        refit_requests(c, s, n - 1) + (match c[n - 1].attached {
            Some(id) => match with_id_from(s, id, 0) {
                Some(si) => s[si].resize_requests(content(c[n - 1].size)),
                None => Seq::empty(),
            },
            None => Seq::empty(),
        })
    }
}

/// The clients once only the sessions `s` are left: every client sizes the
/// session it is on, and those whose session is gone are rehomed.
pub open spec fn cleaned(p: Seats, s: Seq<SessionView>) -> Seats {
    let c = p.clients.map_values(|c: ClientView| swept_client(c, s));
    let n = c.len() as int;
    rehomed(Seats { clients: c, fx: p.fx + refit_requests(c, s, n) }, s, n)
}

fn sweep_client(c: &mut Client, sessions: &Vec<Session>)
    ensures
        final(c)@ == swept_client(old(c)@, session_views(sessions@)),
{
    let ghost before = c@;
    if let Some(id) = c.attached {
        if find_id(sessions, id).is_some() {
            c.needs_redraw = true;
        } else if sessions.len() == 0 {
            if !c.is_served() {
                c.bye("session closed");
            }
            if let Mode::Manager { overlay, .. } = &c.mode {
                c.mode = Mode::Manager { overlay: *overlay, selected: 0 };
            }
        } else if !c.is_served() {
            assert(session_views(sessions@)[0] == sessions@[0]@);
            c.attached = Some(sessions[0].id);
            c.mode = Mode::Running;
            c.needs_redraw = true;
        }
    }
    assert(c@ =~= swept_client(before, session_views(sessions@)));
}

/// Clean up after shells have exited: empty tabs, empty sessions, homeless
/// clients.
pub fn clean_up(clients: &mut Vec<Client>, sessions: &mut Vec<Session>, fx: &mut Vec<Effect>)
    requires
        forall|i: int|
            0 <= i < old(sessions)@.len() ==> (#[trigger] old(sessions)@[i])@.active_tab <= old(
                sessions,
            )@[i]@.tabs.len(),
    ensures
        ({
            let s = kept_sessions(session_views(old(sessions)@), old(sessions)@.len() as int);
            let p = Seats { clients: client_views(old(clients)@), fx: effects(old(fx)@) };
            &&& session_views(final(sessions)@) == s
            &&& client_views(final(clients)@) == cleaned(p, s).clients
            &&& effects(final(fx)@) == cleaned(p, s).fx
        }),
        one_per_session(client_views(old(clients)@)) ==> one_per_session(
            client_views(final(clients)@),
        ),
        forall|j: int|
            0 <= j < final(clients)@.len() ==> !homeless(
                #[trigger] client_views(final(clients)@)[j],
                session_views(final(sessions)@),
            ),
{
    let ghost first = client_views(clients@);
    let ghost asked = effects(fx@);
    sweep_sessions(sessions);
    let ghost s = session_views(sessions@);
    let mut ci: usize = 0;
    while ci < clients.len()
        invariant
            ci <= clients@.len(),
            clients@.len() == first.len(),
            s == session_views(sessions@),
            forall|j: int|
                0 <= j < first.len() ==> #[trigger] client_views(clients@)[j] == if j < ci {
                    swept_client(first[j], s)
                } else {
                    first[j]
                },
        decreases clients@.len() - ci,
    {
        let ghost before = client_views(clients@);
        assert(before[ci as int] == clients@[ci as int]@);
        sweep_client(&mut clients[ci], sessions);
        assert forall|j: int| 0 <= j < first.len() implies #[trigger] client_views(clients@)[j]
            == if j < ci + 1 {
            swept_client(first[j], s)
        } else {
            first[j]
        } by {
            if j != ci {
                assert(client_views(clients@)[j] == before[j]);
            }
        }
        ci = ci + 1;
    }
    let ghost c = client_views(clients@);
    assert(c =~= first.map_values(|c: ClientView| swept_client(c, s)));
    // Every session is sized for the clients on it.
    let mut cj: usize = 0;
    assert(asked + refit_requests(c, s, 0) =~= asked);
    while cj < clients.len()
        invariant
            cj <= clients@.len(),
            c == client_views(clients@),
            s == session_views(sessions@),
            effects(fx@) == asked + refit_requests(c, s, cj as int),
        decreases clients@.len() - cj,
    {
        assert(c[cj as int] == clients@[cj as int]@);
        if let Some(id) = clients[cj].attached {
            if let Some(si) = find_id(sessions, id) {
                assert(s[si as int] == sessions@[si as int]@);
                sessions[si].resize(content_size(clients[cj].size), fx);
            }
        }
        cj = cj + 1;
        assert(effects(fx@) =~= asked + refit_requests(c, s, cj as int));
    }
    // Viewed session is gone: fall back to a surviving session, else say
    // goodbye.
    rehome_homeless_clients(clients, sessions, fx);
    proof {
        crate::laws::law_clean_up_one_per_session(Seats { clients: first, fx: asked }, s);
    }
}

/// What reading a pane's shell changes: a pane whose shell has exited is
/// dropped; output in the open tab is noted under the session's id.
pub struct Drained {
    pub sessions: Seq<SessionView>,
    pub changed: Seq<u64>,
    pub removed: bool,
}

/// After reading the shell of a pane of tab `ti` of session `si`; `alive`
/// says whether the shell still runs.
pub open spec fn drained(
    s: Seq<SessionView>,
    si: int,
    ti: int,
    pane: u64,
    alive: bool,
    changed: Seq<u64>,
    removed: bool,
) -> Drained {
    let x = s[si];
    if !x.tabs[ti].layout.has_pane(pane) {
        Drained { sessions: s, changed, removed }
    } else if alive {
        Drained {
            sessions: s,
            changed: if ti == x.active_tab && !changed.contains(x.id) {
                changed.push(x.id)
            } else {
                changed
            },
            removed,
        }
    } else {
        Drained {
            sessions: s.update(
                si,
                SessionView { tabs: x.tabs.update(ti, x.tabs[ti].without_pane(pane)), ..x },
            ),
            changed,
            removed: true,
        }
    }
}

fn has_id(ids: &Vec<u64>, id: u64) -> (r: bool)
    ensures
        r == ids@.contains(id),
{
    let mut i: usize = 0;
    while i < ids.len()
        invariant
            i <= ids@.len(),
            forall|k: int| 0 <= k < i ==> #[trigger] ids@[k] != id,
        decreases ids@.len() - i,
    {
        if ids[i] == id {
            assert(ids@[i as int] == id);
            return true;
        }
        i = i + 1;
    }
    false
}

/// Note how reading the shell of a pane went.
pub fn pane_read(
    si: usize,
    ti: usize,
    pane: u64,
    alive: bool,
    sessions: &mut Vec<Session>,
    changed: &mut Vec<u64>,
    removed: &mut bool,
)
    requires
        si < old(sessions)@.len(),
        ti < old(sessions)@[si as int]@.tabs.len(),
    ensures
        ({
            let r = drained(
                session_views(old(sessions)@),
                si as int,
                ti as int,
                pane,
                alive,
                old(changed)@,
                *old(removed),
            );
            &&& session_views(final(sessions)@) == r.sessions
            &&& final(changed)@ == r.changed
            &&& *final(removed) == r.removed
        }),
{
    let ghost s = session_views(sessions@);
    assert(s[si as int] == sessions@[si as int]@);
    assert(s[si as int].tabs[ti as int] == sessions@[si as int].tabs@[ti as int]@);
    if !sessions[si].tabs[ti].layout.contains(pane) {
        // Already removed earlier this round.
        return;
    }
    if alive {
        let id: u64 = sessions[si].id;
        if ti == sessions[si].active_tab && !has_id(changed, id) {
            changed.push(id);
        }
    } else {
        sessions[si].tabs[ti].remove_pane(pane);
        *removed = true;
        proof {
            let x = s[si as int];
            let z = SessionView {
                tabs: x.tabs.update(ti as int, x.tabs[ti as int].without_pane(pane)),
                ..x
            };
            assert(sessions@[si as int]@ =~= z);
            assert(session_views(sessions@) =~= s.update(si as int, z));
        }
    }
}

/// A client with a redraw scheduled where its session's open tab produced
/// output that it shows.
pub open spec fn refreshed(c: ClientView, changed: Seq<u64>) -> ClientView {
    if c.attached is Some && changed.contains(c.attached->0) && c.mode is Running {
        ClientView { needs_redraw: true, ..c }
    } else {
        c
    }
}

/// Redraw clients viewing sessions whose active tab produced output.
pub fn mark_changed(clients: &mut Vec<Client>, changed: &Vec<u64>)
    ensures
        client_views(final(clients)@) == client_views(old(clients)@).map_values(
            |c: ClientView| refreshed(c, changed@),
        ),
{
    let ghost first = client_views(clients@);
    let mut ci: usize = 0;
    while ci < clients.len()
        invariant
            ci <= clients@.len(),
            clients@.len() == first.len(),
            forall|j: int|
                0 <= j < first.len() ==> #[trigger] client_views(clients@)[j] == if j < ci {
                    refreshed(first[j], changed@)
                } else {
                    first[j]
                },
        decreases clients@.len() - ci,
    {
        let ghost before = client_views(clients@);
        assert(before[ci as int] == clients@[ci as int]@);
        if let Some(id) = clients[ci].attached {
            if has_id(changed, id) && matches!(clients[ci].mode, Mode::Running) {
                clients[ci].needs_redraw = true;
            }
        }
        proof {
            assert(clients@[ci as int]@ =~= refreshed(first[ci as int], changed@));
            assert forall|j: int| 0 <= j < first.len() implies #[trigger] client_views(
                clients@,
            )[j] == if j < ci + 1 {
                refreshed(first[j], changed@)
            } else {
                first[j]
            } by {
                if j != ci {
                    assert(client_views(clients@)[j] == before[j]);
                }
            }
        }
        ci = ci + 1;
    }
    assert(client_views(clients@) =~= first.map_values(
        |c: ClientView| refreshed(c, changed@),
    ));
}

/// The round after this one.
pub open spec fn next_round(tick: u32) -> u32 {
    if tick == u32::MAX {
        0
    } else {
        (tick + 1) as u32
    }
}

/// Count a round of the server's loop. Returns whether to look for a changed
/// config file in it: in every tenth, about once a second.
pub fn reload_due(tick: &mut u32) -> (due: bool)
    ensures
        *final(tick) == next_round(*old(tick)),
        due == (*final(tick) % 10 == 0),
{
    *tick = if *tick == u32::MAX {
        0
    } else {
        *tick + 1
    };
    *tick % 10 == 0
}

/// Take over a changed configuration: its pins reorder the sessions, and
/// everyone is redrawn.
pub fn apply_reload(clients: &mut Vec<Client>, sessions: &mut Vec<Session>, config: &Config)
    ensures
        resorted(
            config.names(),
            session_views(old(sessions)@),
            session_views(final(sessions)@),
        ),
        client_views(final(clients)@) == client_views(old(clients)@).map_values(
            |c: ClientView| marked(c),
        ),
        one_per_session(client_views(old(clients)@)) ==> one_per_session(
            client_views(final(clients)@),
        ),
{
    let ghost c = client_views(clients@);
    resort_sessions(sessions, config);
    mark_attached(clients);
    proof {
        if one_per_session(c) {
            crate::laws::law_reload_one_per_session(c);
        }
    }
}

/// Take over what reading a changed config file gave. A broken config is
/// rejected and the old one stays active: nothing changes. Returns whether
/// the configuration was taken over.
pub fn reload(
    loaded: Option<Config>,
    config: &mut Config,
    clients: &mut Vec<Client>,
    sessions: &mut Vec<Session>,
) -> (taken: bool)
    ensures
        match loaded {
            None => {
                &&& !taken
                &&& *final(config) == *old(config)
                &&& final(clients)@ == old(clients)@
                &&& final(sessions)@ == old(sessions)@
            },
            Some(new) => {
                &&& taken
                &&& *final(config) == new
                &&& resorted(
                    new.names(),
                    session_views(old(sessions)@),
                    session_views(final(sessions)@),
                )
                &&& client_views(final(clients)@) == client_views(old(clients)@).map_values(
                    |c: ClientView| marked(c),
                )
            },
        },
        one_per_session(client_views(old(clients)@)) ==> one_per_session(
            client_views(final(clients)@),
        ),
{
    match loaded {
        Some(new) => {
            *config = new;
            apply_reload(clients, sessions, config);
            true
        },
        None => false,
    }
}

/// The session to draw for a client now, if it is to be redrawn; the redraw
/// is then no longer scheduled.
pub fn take_redraw(c: &mut Client, sessions: &Vec<Session>) -> (r: Option<usize>)
    ensures
        ({
            let before = old(c)@;
            let due = before.needs_redraw && before.served();
            &&& final(c)@ == if due {
                ClientView { needs_redraw: false, ..before }
            } else {
                before
            }
            &&& match r {
                Some(si) => due && before.attached is Some && si < sessions@.len()
                    && with_id_from(session_views(sessions@), before.attached->0, 0) == Some(
                    si as int,
                ),
                None => !due || before.attached is None || with_id_from(
                    session_views(sessions@),
                    before.attached->0,
                    0,
                ) is None,
            }
        }),
{
    if !c.needs_redraw || !c.is_served() {
        return None;
    }
    c.needs_redraw = false;
    match c.attached {
        Some(id) => find_id(sessions, id),
        None => None,
    }
}

/// The clients once the shell of a pane that client `ci` asked for could not
/// be started: a client that was to view a session made for it views what it
/// viewed before.
pub open spec fn clients_back(
    c: Seq<ClientView>,
    s: Seq<SessionView>,
    ci: int,
    pane: u64,
    viewed: Option<u64>,
) -> Seq<ClientView> {
    match dropped_session(s, pane) {
        Some(i) => if c[ci].attached == Some(s[i].id) {
            c.update(ci, ClientView { attached: viewed, ..c[ci] })
        } else {
            c
        },
        None => c,
    }
}

/// Undo what client `ci` asked for, because the shell of a pane could not be
/// started: `viewed` is the session that the client was on, and `before` what
/// it viewed there.
pub fn undo_start(
    ci: usize,
    pane: u64,
    viewed: Option<u64>,
    before: Seen,
    clients: &mut Vec<Client>,
    sessions: &mut Vec<Session>,
)
    requires
        ci < old(clients)@.len(),
    ensures
        client_views(final(clients)@) == clients_back(
            client_views(old(clients)@),
            session_views(old(sessions)@),
            ci as int,
            pane,
            viewed,
        ),
        session_views(final(sessions)@) == sessions_back(
            session_views(old(sessions)@),
            pane,
            before,
        ),
{
    let ghost c = client_views(clients@);
    let ghost s = session_views(sessions@);
    assert(c[ci as int] == clients@[ci as int]@);
    let gone: Option<u64> = match find_home(sessions, pane) {
        Some((i, j)) => {
            assert(s[i as int] == sessions@[i as int]@);
            assert(s[i as int].tabs[j as int] == sessions@[i as int].tabs@[j as int]@);
            if sessions[i].tabs.len() > 1 || matches!(
                sessions[i].tabs[j].layout,
                crate::layout::Layout::Split { .. }
            ) {
                None
            } else {
                Some(sessions[i].id)
            }
        },
        None => None,
    };
    let mut active: usize = before.active;
    start_failed(pane, before, sessions, &mut active);
    if let Some(id) = gone {
        if let Some(a) = clients[ci].attached {
            if a == id {
                clients[ci].attached = viewed;
                proof {
                    let z = ClientView { attached: viewed, ..c[ci as int] };
                    assert(clients@[ci as int]@ =~= z);
                    assert(client_views(clients@) =~= c.update(ci as int, z));
                }
            }
        }
    }
}

/// Attaching to a new session that could not be started leaves the sessions
/// and what every client views as they were.
pub proof fn law_failed_attach_undone(
    h: Hub,
    ci: int,
    cols: u16,
    rows: u16,
    name: Seq<char>,
    pins: Seq<Seq<char>>,
    before: Seen,
)
    requires
        0 <= ci < h.clients.len(),
        (World { sessions: h.sessions, active: 0, fresh: h.fresh, fx: h.fx }).ok(),
        h.fresh.room(1),
        named_from(h.sessions, name, 0) is None,
        forall|j: int|
            0 <= j < h.clients.len() ==> ((#[trigger] h.clients[j]).attached matches Some(id) ==> id
                < h.fresh.session),
    ensures
        ({
            let after = attached_by_name(h, ci, cols, rows, name, pins);
            let viewed = h.clients[ci].attached;
            let back = clients_back(after.clients, after.sessions, ci, h.fresh.pane, viewed);
            &&& sessions_back(after.sessions, h.fresh.pane, before) == h.sessions
            &&& back.len() == h.clients.len()
            &&& back[ci].attached == viewed
            &&& forall|j: int|
                0 <= j < h.clients.len() && j != ci ==> #[trigger] back[j] == h.clients[j]
        }),
{
    let w = World { sessions: h.sessions, active: 0, fresh: h.fresh, fx: h.fx };
    let after = attached_by_name(h, ci, cols, rows, name, pins);
    let made = w.with_created(pins, (0, 0), name);
    let at = place(pins, h.sessions, name);
    crate::sessions::lemma_place(pins, h.sessions, name);
    crate::starts::lemma_created_home(w, pins, (0, 0), name);
    assert(after.sessions == made.sessions);
    assert(after.sessions[at].id == h.fresh.session);
    assert(after.sessions.remove(at) =~= h.sessions);
    let viewed = h.clients[ci].attached;
    let back = clients_back(after.clients, after.sessions, ci, h.fresh.pane, viewed);
    assert forall|j: int| 0 <= j < h.clients.len() && j != ci implies #[trigger] back[j]
        == h.clients[j] by {
        assert(h.clients[j].attached != Some(h.fresh.session));
        assert(after.clients[j] == h.clients[j]);
    }
}

/// At most one client is on each session: of the clients that are served, no
/// two view the same session.
pub open spec fn one_per_session(c: Seq<ClientView>) -> bool {
    forall|i: int, j: int|
        0 <= i < c.len() && 0 <= j < c.len() && (#[trigger] c[i]).served() && (
        #[trigger] c[j]).served() && c[i].attached is Some && c[i].attached == c[j].attached ==> i
            == j
}

/// Seating a client leaves at most one client on each session.
pub proof fn lemma_seating_one(c: Seq<ClientView>, ci: int, id: u64)
    requires
        one_per_session(c),
    ensures
        one_per_session(seating(c, ci, id)),
{
    let after = seating(c, ci, id);
    assert forall|j: int| 0 <= j < after.len() && j != ci implies (
    #[trigger] after[j]).attached == c[j].attached && (after[j].served() ==> c[j].served()) && (
    c[j].attached == Some(id) ==> !after[j].served()) by {}
    assert forall|i: int, j: int|
        0 <= i < after.len() && 0 <= j < after.len() && (#[trigger] after[i]).served() && (
        #[trigger] after[j]).served() && after[i].attached is Some && after[i].attached
            == after[j].attached implies i == j by {
        if i != ci && j != ci {
            assert(c[i].served() && c[j].served());
        }
    }
}

/// Clients of which fewer are served, on the sessions that they were on,
/// share no session either.
pub proof fn lemma_fewer_served(c: Seq<ClientView>, d: Seq<ClientView>)
    requires
        one_per_session(c),
        d.len() == c.len(),
        forall|j: int|
            0 <= j < d.len() && (#[trigger] d[j]).served() ==> c[j].served() && d[j].attached
                == c[j].attached,
    ensures
        one_per_session(d),
{
    assert forall|i: int, j: int|
        0 <= i < d.len() && 0 <= j < d.len() && (#[trigger] d[i]).served() && (
        #[trigger] d[j]).served() && d[i].attached is Some && d[i].attached
            == d[j].attached implies i == j by {
        assert(c[i].served() && c[j].served());
    }
}

/// A new attach kicks the old client: afterwards the attaching client is the
/// only one on its session, and if no session had two clients before, none
/// has two now.
pub proof fn law_attach_kicks(h: Hub, ci: int, si: int)
    requires
        0 <= ci < h.clients.len(),
        0 <= si < h.sessions.len(),
    ensures
        ({
            let after = with_attached(h, ci, si);
            let id = h.sessions[si].id;
            &&& after.clients[ci].attached == Some(id)
            &&& forall|j: int|
                0 <= j < after.clients.len() && j != ci && (#[trigger] after.clients[j]).attached
                    == Some(id) ==> after.clients[j].closing
            &&& one_per_session(h.clients) ==> one_per_session(after.clients)
        }),
{
    if one_per_session(h.clients) {
        lemma_seating_one(h.clients, ci, h.sessions[si].id);
    }
}

/// Attaching by name finds the session again: a client that attaches under a
/// name views a session with that name, and attaching once more under the
/// same name creates nothing.
pub proof fn law_attach_by_name(
    h: Hub,
    ci: int,
    cols: u16,
    rows: u16,
    name: Seq<char>,
    pins: Seq<Seq<char>>,
)
    requires
        0 <= ci < h.clients.len(),
        h.fresh.room(1),
    ensures
        ({
            let after = attached_by_name(h, ci, cols, rows, name, pins);
            let again = attached_by_name(after, ci, cols, rows, name, pins);
            &&& named_from(after.sessions, name, 0) matches Some(si)
            &&& 0 <= si < after.sessions.len()
            &&& after.sessions[si].name == name
            &&& after.clients[ci].attached == Some(after.sessions[si].id)
            &&& again.sessions == after.sessions
            &&& again.fresh == after.fresh
        }),
{
    crate::sessions::lemma_named_from(h.sessions, name, 0);
    crate::sessions::lemma_place(pins, h.sessions, name);
    let after = attached_by_name(h, ci, cols, rows, name, pins);
    if named_from(h.sessions, name, 0) is None {
        let at = place(pins, h.sessions, name);
        assert(after.sessions[at].name == name);
        assert forall|j: int| 0 <= j < at implies (#[trigger] after.sessions[j]).name != name by {
            assert(after.sessions[j] == h.sessions[j]);
        }
        crate::sessions::lemma_first_named(after.sessions, name, at);
    }
}

} // verus!
