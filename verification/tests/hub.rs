use crossterm::style::force_color_output;
use rmux::ansi::{encode, strip_ansi, Color};
use rmux::clients::{Client, ReadOutcome, WriteOutcome, MAX_OUTBUF};
use rmux::config::{BarPosition, Binding, BindingAction, Config, InputAction, Overlay, Pin};
use rmux::effect::Effect;
use rmux::grid::{Grid, Rgb};
use rmux::input::Mode;
use rmux::layout::SplitDir;
use rmux::listing::{age_text, format_listing, is_viewed};
use rmux::model::{Fresh, Session};
use rmux::protocol::{
    frame, FrameReader, C2S_ATTACH, C2S_INPUT, C2S_LIST, C2S_RESIZE, MAX_FRAME, S2C_BYE, S2C_LIST,
    S2C_OUTPUT,
};
use rmux::screens::{draw_client, render_client};
use rmux::server::{
    answer_list, apply_reload, attach_client, attach_to, clean_up, finish_input, handle_frame,
    mark_attached, mark_changed, pane_read, rehome_homeless_clients, reload, reload_due,
    resize_client, sweep_sessions, take_redraw, undo_start, FrameStep,
};
use rmux::starts::look;

fn config(pins: &[&str]) -> Config {
    let chord = |seq: &[u8], a| Binding { seq: seq.to_vec(), action: BindingAction::Control(a) };
    Config {
        accent: Color::Rgb { r: 1, g: 2, b: 3 },
        bar_position: BarPosition::Bottom,
        select_copy: true,
        pins: pins.iter().map(|n| Pin { name: n.to_string() }).collect(),
        bindings: vec![
            chord(b"\x07", InputAction::Detach),
            chord(b"\x0f", InputAction::Manager(Overlay::Sessions { agents: false })),
            chord(b"\x11", InputAction::SplitV),
        ],
    }
}

struct Hub {
    config: Config,
    clients: Vec<Client>,
    sessions: Vec<Session>,
    fresh: Fresh,
    fx: Vec<Effect>,
}

impl Hub {
    fn new(clients: usize) -> Hub {
        Hub {
            config: config(&[]),
            clients: (0..clients).map(|_| Client::new()).collect(),
            sessions: Vec::new(),
            fresh: Fresh { session: 1, pane: 1, now: 100 },
            fx: Vec::new(),
        }
    }

    fn frame(&mut self, ci: usize, kind: u8, payload: &[u8]) -> FrameStep {
        handle_frame(
            ci,
            kind,
            &payload.to_vec(),
            &mut self.clients,
            &mut self.sessions,
            &self.config,
            &mut self.fresh,
            &mut self.fx,
        )
    }

    fn attach(&mut self, ci: usize, name: &str) {
        let mut p = vec![80, 0, 24, 0];
        p.extend_from_slice(name.as_bytes());
        self.frame(ci, C2S_ATTACH, &p);
    }

    fn input(&mut self, ci: usize, bytes: &[u8]) {
        match self.frame(ci, C2S_INPUT, bytes) {
            FrameStep::Input { active, keys, .. } => finish_input(
                ci,
                active,
                &keys,
                None,
                &mut self.clients,
                &mut self.sessions,
                &self.config,
                &mut self.fresh,
                &mut self.fx,
            ),
            FrameStep::Done => {}
        }
    }

    fn sent(&self, ci: usize) -> Vec<(u8, Vec<u8>)> {
        frames(&self.clients[ci].outbuf)
    }
}

fn frames(bytes: &[u8]) -> Vec<(u8, Vec<u8>)> {
    let mut reader = FrameReader::new();
    reader.extend(bytes);
    let mut got = Vec::new();
    while let Ok(Some(f)) = reader.next_frame() {
        got.push(f);
    }
    got
}

fn bye(reason: &str) -> Vec<(u8, Vec<u8>)> {
    vec![(S2C_BYE, reason.as_bytes().to_vec())]
}

#[test]
fn a_client_starts_empty() {
    let c = Client::new();
    assert_eq!((c.size, c.attached, c.outbuf.len()), ((80, 24), None, 0));
    assert!(c.is_served() && !c.is_finished() && !c.wants_write() && !c.needs_redraw);
    assert!(matches!(c.mode, Mode::Running));
}

#[test]
fn frames_are_queued_in_order() {
    let mut c = Client::new();
    c.send(S2C_OUTPUT, b"one");
    c.send(S2C_LIST, b"");
    assert_eq!(frames(&c.outbuf), vec![(S2C_OUTPUT, b"one".to_vec()), (S2C_LIST, Vec::new())]);
}

#[test]
fn a_slow_client_is_killed() {
    let mut c = Client::new();
    let big = vec![0u8; MAX_OUTBUF];
    c.send(S2C_OUTPUT, &big);
    assert!(!c.dead);
    c.send(S2C_OUTPUT, b"x");
    assert!(c.dead && c.is_finished());
    let mut c = Client::new();
    c.send(S2C_OUTPUT, &vec![0u8; MAX_OUTBUF + 1]);
    assert!(c.dead && c.outbuf.is_empty());
}

#[test]
fn only_the_first_goodbye_counts() {
    let mut c = Client::new();
    c.bye("first");
    c.bye("second");
    assert_eq!(frames(&c.outbuf), bye("first"));
    assert!(c.closing && !c.is_served() && !c.is_finished());
}

#[test]
fn writing_drains_the_queue() {
    let mut c = Client::new();
    c.send(S2C_OUTPUT, b"abc");
    assert!(c.after_write(WriteOutcome::Wrote(3)));
    assert_eq!(c.outbuf, frame(S2C_OUTPUT, b"abc")[3..]);
    assert!(!c.after_write(WriteOutcome::WouldBlock));
    assert!(c.after_write(WriteOutcome::Interrupted));
    assert!(!c.after_write(WriteOutcome::Wrote(5)));
    assert!(!c.wants_write() && !c.dead);
    c.bye("x");
    let n = c.outbuf.len();
    assert!(!c.after_write(WriteOutcome::Wrote(n)));
    assert!(c.is_finished());
    let mut c = Client::new();
    c.send(S2C_OUTPUT, b"abc");
    assert!(!c.after_write(WriteOutcome::Wrote(0)));
    assert!(c.dead);
    let mut c = Client::new();
    assert!(!c.after_write(WriteOutcome::Failed));
    assert!(c.dead);
}

#[test]
fn reading_fills_the_reader() {
    let mut c = Client::new();
    assert!(c.after_read(ReadOutcome::Read(frame(C2S_INPUT, b"k"))));
    assert!(c.after_read(ReadOutcome::Interrupted));
    assert!(!c.after_read(ReadOutcome::WouldBlock));
    assert!(matches!(c.reader.next_frame(), Ok(Some((C2S_INPUT, _)))));
    assert!(!c.after_read(ReadOutcome::Read(Vec::new())));
    assert!(c.dead);
    let mut c = Client::new();
    assert!(!c.after_read(ReadOutcome::Failed));
    assert!(c.dead);
}

#[test]
fn attaching_creates_the_session_once() {
    let mut h = Hub::new(2);
    h.attach(0, " work ");
    assert_eq!(h.sessions[0].name, "work");
    assert_eq!(h.clients[0].attached, Some(1));
    assert!(h.clients[0].needs_redraw);
    assert!(matches!(h.fx[0], Effect::Spawn { pane: 1, w: 80, h: 23 }));
    assert!(matches!(h.fx[1], Effect::Resize { pane: 1, w: 80, h: 23, required: true }));
    h.attach(1, "other");
    h.attach(1, "work");
    assert_eq!(h.sessions.len(), 2);
    assert_eq!(h.clients[1].attached, Some(1));
    assert_eq!(h.sent(0), bye("kicked: another client attached to this session"));
    assert!(h.sent(1).is_empty());
}

#[test]
fn an_unnamed_attach_goes_to_main() {
    let mut h = Hub::new(1);
    h.attach(0, "  ");
    assert_eq!(h.sessions[0].name, "main");
    let mut h = Hub::new(1);
    h.frame(0, C2S_ATTACH, b"\x00\x00\x05\x00a\xff");
    assert_eq!(h.sessions[0].name, "a\u{fffd}");
    assert_eq!(h.clients[0].size, (80, 24));
    let mut h = Hub::new(1);
    attach_client(
        0,
        100,
        40,
        "direct",
        &mut h.clients,
        &mut h.sessions,
        &h.config,
        &mut h.fresh,
        &mut h.fx,
    );
    assert_eq!(h.clients[0].size, (100, 40));
    assert!(matches!(h.fx[0], Effect::Spawn { pane: 1, w: 100, h: 39 }));
}

#[test]
fn broken_frames_kill_the_client() {
    let mut h = Hub::new(2);
    assert!(matches!(h.frame(0, C2S_ATTACH, b"abc"), FrameStep::Done));
    assert!(h.clients[0].dead && h.sessions.is_empty());
    h.frame(1, 99, b"");
    assert!(h.clients[1].dead);
}

#[test]
fn resizing_sizes_the_session() {
    let mut h = Hub::new(1);
    h.frame(0, C2S_RESIZE, &[100, 0, 40, 0]);
    assert_eq!(h.clients[0].size, (100, 40));
    assert!(h.fx.is_empty() && h.clients[0].needs_redraw);
    h.attach(0, "a");
    h.fx.clear();
    h.frame(0, C2S_RESIZE, &[44, 1, 10, 0]);
    assert_eq!(h.clients[0].size, (300, 10));
    assert!(matches!(h.fx[..], [Effect::Resize { pane: 1, w: 300, h: 9, required: true }]));
    h.frame(0, C2S_RESIZE, &[0, 0, 10, 0]);
    h.frame(0, C2S_RESIZE, &[1, 0]);
    assert_eq!(h.clients[0].size, (300, 10));
    resize_client(0, 7, 0, &mut h.clients, &h.sessions, &mut h.fx);
    assert_eq!(h.clients[0].size, (300, 10));
}

#[test]
fn input_needs_a_session() {
    let mut h = Hub::new(1);
    assert!(matches!(h.frame(0, C2S_INPUT, b"x"), FrameStep::Done));
    h.attach(0, "a");
    h.attach(0, "b");
    match h.frame(0, C2S_INPUT, b"x\x1b[5~") {
        FrameStep::Input { active: 1, keys, events } => {
            assert_eq!((keys, events.len()), (b"x".to_vec(), 1));
        }
        _ => panic!("input for the second session"),
    }
    h.clients[0].attached = Some(77);
    assert!(matches!(h.frame(0, C2S_INPUT, b"x"), FrameStep::Done));
}

#[test]
fn keys_act_on_the_viewed_session() {
    let mut h = Hub::new(1);
    h.attach(0, "a");
    h.fx.clear();
    h.clients[0].needs_redraw = false;
    h.input(0, b"\x11hi");
    assert_eq!(h.sessions[0].tabs[0].layout.panes(), vec![1, 2]);
    assert!(h.clients[0].needs_redraw);
    assert!(matches!(h.fx.last(), Some(Effect::Write { pane: 2, bytes }) if bytes == b"hi"));
}

#[test]
fn detaching_says_goodbye() {
    let mut h = Hub::new(1);
    h.attach(0, "a");
    h.input(0, b"\x07");
    assert_eq!(h.sent(0), bye("detached"));
    assert_eq!(h.sessions.len(), 1);
}

#[test]
fn switching_sessions_kicks_who_is_there() {
    let mut h = Hub::new(2);
    h.attach(0, "a");
    h.attach(1, "b");
    h.input(0, b"\x0fj\r");
    assert_eq!(h.clients[0].attached, Some(2));
    assert_eq!(h.sent(1), bye("kicked: another client attached to this session"));
}

#[test]
fn killing_sessions_rehomes_their_clients() {
    let mut h = Hub::new(3);
    h.attach(0, "a");
    h.attach(1, "b");
    h.attach(2, "c");
    h.clients[2].mode = Mode::Manager { overlay: Overlay::Tabs, selected: 0 };
    h.clients[1].needs_redraw = false;
    h.fx.clear();
    // Client 1 kills session "c".
    h.input(1, b"\x0fjx");
    assert_eq!(h.sessions.len(), 2);
    assert_eq!(h.clients[1].attached, Some(2));
    assert_eq!(h.clients[2].attached, Some(1));
    assert!(matches!(h.clients[2].mode, Mode::Running));
    // The client that was on the first session makes room.
    assert_eq!(h.sent(0), bye("kicked: another client attached to this session"));
    assert!(h.clients[0].closing && h.clients[2].is_served());
    assert!(h.clients[1].needs_redraw && h.clients[1].is_served());
    assert!(h.fx.iter().any(|e| matches!(e, Effect::Resize { pane: 1, .. })));
}

#[test]
fn killing_the_last_session_says_goodbye() {
    let mut h = Hub::new(1);
    h.attach(0, "a");
    h.input(0, b"\x0fx");
    assert!(h.sessions.is_empty());
    assert_eq!(h.sent(0), bye("all sessions closed"));
}

#[test]
fn copied_text_goes_to_the_clipboard() {
    let mut h = Hub::new(1);
    h.attach(0, "a");
    finish_input(
        0,
        0,
        &Vec::new(),
        Some("hi".to_string()),
        &mut h.clients,
        &mut h.sessions,
        &h.config,
        &mut h.fresh,
        &mut h.fx,
    );
    assert_eq!(h.sent(0), vec![(S2C_OUTPUT, b"\x1b]52;c;aGk=\x07".to_vec())]);
}

#[test]
fn the_listing_names_every_session() {
    force_color_output(true);
    let mut h = Hub::new(2);
    h.config = config(&["pinned"]);
    h.attach(0, "work");
    h.attach(1, "x");
    h.attach(1, "x");
    h.input(0, b"\x11");
    h.sessions[1].agent = true;
    h.sessions[1].last_active = 40;
    h.clients[1].dead = true;
    let out = format_listing(&h.sessions, &h.clients, &h.config, 100);
    let text = encode(&out);
    assert_eq!(
        strip_ansi(&text),
        "○ pinned  not running\n● work    1 tab · 2 panes  attached\n\
         ○ x       1 tab · 1 pane · 1m ago\n"
    );
    assert!(text.starts_with("\x1b[2m○ pinned  not running\x1b[0m\n\x1b[38;2;1;2;3m● \x1b[39m"));
    assert!(is_viewed(&h.clients, 1) && !is_viewed(&h.clients, 2));
    let none = format_listing(&Vec::new(), &h.clients, &config(&[]), 0);
    assert_eq!(encode(&none), "no sessions\n");
}

#[test]
fn ages_use_the_largest_unit() {
    for (secs, text) in [
        (0, "0s"),
        (59, "59s"),
        (60, "1m"),
        (3599, "59m"),
        (3600, "1h"),
        (86399, "23h"),
        (86400, "1d"),
        (1_000_000, "11d"),
    ] {
        assert_eq!(age_text(secs), text);
    }
}

#[test]
fn a_list_request_is_answered_and_closed() {
    let mut h = Hub::new(2);
    h.attach(1, "a");
    h.frame(0, C2S_LIST, b"");
    assert!(h.clients[0].closing);
    match &h.sent(0)[..] {
        [(S2C_LIST, payload)] => {
            let text = String::from_utf8(payload.clone()).expect("text");
            assert_eq!(strip_ansi(&text), "● a  1 tab · 1 pane  attached\n");
        }
        _ => panic!("one listing"),
    }
    answer_list(1, &mut h.clients, &h.sessions, &h.config, 0);
    assert!(h.clients[1].closing);
}

#[test]
fn exited_shells_are_cleaned_up() {
    let mut h = Hub::new(2);
    h.attach(0, "a");
    h.attach(1, "b");
    h.input(0, b"\x11");
    let (mut changed, mut removed) = (Vec::new(), false);
    pane_read(0, 0, 1, true, &mut h.sessions, &mut changed, &mut removed);
    pane_read(0, 0, 2, true, &mut h.sessions, &mut changed, &mut removed);
    assert_eq!((changed.clone(), removed), (vec![1], false));
    // The shell of session "b" exits; what is gone is skipped.
    pane_read(1, 0, 2, false, &mut h.sessions, &mut changed, &mut removed);
    assert!(removed && h.sessions[1].tabs[0].is_empty());
    pane_read(1, 0, 2, false, &mut h.sessions, &mut changed, &mut removed);
    for c in h.clients.iter_mut() {
        c.needs_redraw = false;
    }
    h.fx.clear();
    clean_up(&mut h.clients, &mut h.sessions, &mut h.fx);
    assert_eq!(h.sessions.len(), 1);
    assert_eq!(h.clients[1].attached, Some(1));
    assert!(h.clients.iter().all(|c| c.needs_redraw));
    assert!(h.clients[0].closing && h.clients[1].is_served());
    assert_eq!(h.sent(0), bye("kicked: another client attached to this session"));
    // Both panes of "a" for the client on it, then for the one that comes in.
    assert_eq!(h.fx.len(), 4);
    pane_read(0, 0, 1, false, &mut h.sessions, &mut changed, &mut removed);
    pane_read(0, 0, 3, false, &mut h.sessions, &mut changed, &mut removed);
    h.clients[1].mode = Mode::Manager { overlay: Overlay::Tabs, selected: 3 };
    clean_up(&mut h.clients, &mut h.sessions, &mut h.fx);
    assert!(h.sessions.is_empty());
    assert_eq!(h.sent(1), bye("session closed"));
    assert!(matches!(h.clients[1].mode, Mode::Manager { selected: 0, .. }));
}

#[test]
fn sweeping_keeps_the_open_tab() {
    let mut f = Fresh { session: 1, pane: 1, now: 0 };
    let mut fx = Vec::new();
    let mut s = Session::new((80, 23), "a".to_string(), &mut f, &mut fx);
    for n in ["b", "c", "d"] {
        s.tabs.push(rmux::model::Tab::new((80, 23), n.to_string(), &mut f, &mut fx));
    }
    s.active_tab = 2;
    s.tabs[0].remove_pane(1);
    s.tabs[3].remove_pane(4);
    let mut all = vec![s];
    sweep_sessions(&mut all);
    assert_eq!((all[0].tabs.len(), all[0].active_tab), (2, 1));
    assert_eq!(all[0].tabs[1].name, "c");
    all[0].tabs[1].remove_pane(3);
    sweep_sessions(&mut all);
    assert_eq!((all[0].tabs.len(), all[0].active_tab), (1, 0));
    all[0].tabs[0].remove_pane(2);
    sweep_sessions(&mut all);
    assert!(all.is_empty());
}

#[test]
fn redraws_are_scheduled_and_taken() {
    let mut h = Hub::new(2);
    h.attach(0, "a");
    assert_eq!(take_redraw(&mut h.clients[0], &h.sessions), Some(0));
    assert_eq!(take_redraw(&mut h.clients[0], &h.sessions), None);
    mark_attached(&mut h.clients);
    assert!(h.clients[0].needs_redraw && !h.clients[1].needs_redraw);
    h.clients[0].closing = true;
    assert_eq!(take_redraw(&mut h.clients[0], &h.sessions), None);
    assert!(h.clients[0].needs_redraw);
    let mut h = Hub::new(2);
    h.attach(0, "a");
    h.attach(1, "b");
    for c in h.clients.iter_mut() {
        c.needs_redraw = false;
    }
    mark_changed(&mut h.clients, &vec![2]);
    assert!(!h.clients[0].needs_redraw && h.clients[1].needs_redraw);
    h.clients[0].mode = Mode::Manager { overlay: Overlay::Tabs, selected: 0 };
    mark_changed(&mut h.clients, &vec![1]);
    assert!(!h.clients[0].needs_redraw);
}

#[test]
fn reloads_are_due_every_tenth_round() {
    let mut tick = 0;
    let due: Vec<bool> = (0..20).map(|_| reload_due(&mut tick)).collect();
    assert_eq!(due.iter().filter(|d| **d).count(), 2);
    assert!(due[9] && due[19]);
    tick = u32::MAX;
    assert!(reload_due(&mut tick));
    assert_eq!(tick, 0);
}

#[test]
fn a_reload_applies_the_pins() {
    let mut h = Hub::new(1);
    h.attach(0, "a");
    h.attach(0, "b");
    h.clients[0].needs_redraw = false;
    apply_reload(&mut h.clients, &mut h.sessions, &config(&["b"]));
    assert_eq!(h.sessions[0].name, "b");
    assert!(h.clients[0].needs_redraw);
}

#[test]
fn attach_and_rehome_directly() {
    let mut h = Hub::new(3);
    h.attach(0, "a");
    h.attach(1, "b");
    attach_to(2, 0, &mut h.clients, &h.sessions, &mut h.fx);
    assert!(h.clients[0].closing && !h.clients[1].closing);
    assert_eq!(h.clients[2].attached, Some(1));
    h.clients[1].attached = Some(99);
    rehome_homeless_clients(&mut h.clients, &h.sessions, &mut h.fx);
    assert_eq!(h.clients[1].attached, Some(1));
    assert_eq!(h.sent(2), bye("kicked: another client attached to this session"));
    h.clients[1].attached = Some(99);
    rehome_homeless_clients(&mut h.clients, &Vec::new(), &mut h.fx);
    assert_eq!(h.sent(1), bye("session closed"));
}

#[test]
fn homeless_clients_never_share_a_session() {
    let mut h = Hub::new(4);
    h.attach(0, "a");
    for ci in 1..4 {
        h.clients[ci].attached = Some(90 + ci as u64);
    }
    h.clients[3].dead = true;
    rehome_homeless_clients(&mut h.clients, &h.sessions, &mut h.fx);
    let served: Vec<usize> =
        (0..4).filter(|&ci| h.clients[ci].is_served() && h.clients[ci].attached.is_some()).collect();
    assert_eq!(served, vec![2]);
    assert_eq!(h.clients[2].attached, Some(1));
    assert_eq!(h.sent(0), bye("kicked: another client attached to this session"));
    assert_eq!(h.sent(1), bye("kicked: another client attached to this session"));
    assert_eq!(h.clients[3].attached, Some(93));
}

fn blank() -> Grid {
    let c = Rgb { r: 0, g: 0, b: 0 };
    Grid { fg: c, bg: c, rows: Vec::new(), cursor: None }
}

#[test]
fn each_mode_has_its_screen() {
    let mut h = Hub::new(1);
    h.config = config(&["pin"]);
    h.attach(0, "work");
    let view = |h: &Hub| {
        let out = draw_client(&h.clients[0], 0, &h.sessions, &vec![blank()], &h.config, 160);
        strip_ansi(&encode(&out))
    };
    assert!(view(&h).ends_with(" work  tab 1 "));
    h.clients[0].mode = Mode::Manager { overlay: Overlay::Sessions { agents: false }, selected: 1 };
    let screen = view(&h);
    assert!(screen.contains("╭─ sessions ") && screen.contains("    pin"));
    assert!(screen.contains("❯ ● work") && screen.contains("a agents"));
    h.sessions[0].agent = true;
    h.clients[0].mode = Mode::Manager { overlay: Overlay::Sessions { agents: true }, selected: 0 };
    let screen = view(&h);
    assert!(screen.contains("╭─ agents ") && screen.contains("❯ ● work  1m"));
    h.clients[0].mode = Mode::Manager { overlay: Overlay::Tabs, selected: 0 };
    let screen = view(&h);
    assert!(screen.contains("╭─ work · tabs ") && screen.contains("❯ ● tab 1"));
    h.clients[0].mode =
        Mode::Search { overlay: Overlay::Tabs, text: "b 1".to_string(), selected: 0 };
    let screen = view(&h);
    assert!(screen.contains("╭─ work · tabs / b 1 ") && screen.contains("❯ ● tab 1"));
    h.clients[0].mode =
        Mode::Search { overlay: Overlay::Tabs, text: "zz".to_string(), selected: 0 };
    let screen = view(&h);
    assert!(!screen.contains("tab 1") && screen.contains("esc back"));
    for (overlay, rename, title) in [
        (Overlay::Tabs, None, "new tab"),
        (Overlay::Tabs, Some(rmux::input::RenameTarget::Tab(0)), "rename tab"),
        (Overlay::Sessions { agents: false }, None, "new session"),
        (
            Overlay::Sessions { agents: true },
            Some(rmux::input::RenameTarget::Session(1)),
            "rename session",
        ),
    ] {
        h.clients[0].mode = Mode::Naming { overlay, name: "nm".to_string(), rename };
        let screen = view(&h);
        assert!(screen.contains(&format!("╭─ {title} ")) && screen.contains("❯ nm"));
        let verb = if rename.is_some() { "enter rename" } else { "enter create" };
        assert!(screen.contains(verb));
    }
}

#[test]
fn a_screen_is_sent_as_output() {
    let mut h = Hub::new(1);
    h.attach(0, "work");
    render_client(&mut h.clients[0], 0, &h.sessions, &vec![blank()], &h.config, 0);
    let sent = h.sent(0);
    assert_eq!(sent.len(), 1);
    assert_eq!(sent[0].0, S2C_OUTPUT);
    assert!(sent[0].1.starts_with(b"\x1b[?2026h\x1b[?25l"));
    assert!(sent[0].1.ends_with(b"\x1b[?2026l"));
}

#[test]
fn panes_of_two_sessions_never_mix() {
    let mut h = Hub::new(2);
    h.attach(0, "a");
    h.attach(1, "b");
    for _ in 0..3 {
        h.input(0, b"\x11");
        h.input(1, b"\x11");
    }
    h.sessions[0].tabs[0].split(SplitDir::Horizontal, (80, 23), &mut h.fresh, &mut h.fx);
    let mut seen = Vec::new();
    for s in &h.sessions {
        for t in &s.tabs {
            seen.extend(t.layout.panes());
        }
    }
    let n = seen.len();
    seen.sort();
    seen.dedup();
    assert_eq!((n, seen.len()), (9, 9));
}

#[test]
fn frames_are_taken_one_by_one() {
    let mut c = Client::new();
    assert!(c.take_frame().is_none() && !c.dead);
    let mut bytes = frame(C2S_LIST, b"");
    bytes.extend(frame(C2S_INPUT, b"ab"));
    let (head, tail) = bytes.split_at(bytes.len() - 1);
    c.after_read(ReadOutcome::Read(head.to_vec()));
    assert_eq!(c.take_frame(), Some((C2S_LIST, Vec::new())));
    assert!(c.take_frame().is_none() && c.is_served());
    c.after_read(ReadOutcome::Read(tail.to_vec()));
    assert_eq!(c.take_frame(), Some((C2S_INPUT, b"ab".to_vec())));
    assert!(c.take_frame().is_none() && c.is_served());
}

#[test]
fn too_long_a_frame_ends_its_client() {
    let mut c = Client::new();
    let mut bytes = (MAX_FRAME as u32 + 1).to_le_bytes().to_vec();
    bytes.push(C2S_INPUT);
    c.after_read(ReadOutcome::Read(bytes));
    assert!(!c.dead);
    assert!(c.take_frame().is_none() && c.dead && !c.is_served());
}

#[test]
fn a_broken_config_changes_nothing() {
    let mut h = Hub::new(1);
    h.attach(0, "a");
    h.attach(0, "b");
    h.clients[0].needs_redraw = false;
    assert!(!reload(None, &mut h.config, &mut h.clients, &mut h.sessions));
    assert!(h.config.pins.is_empty() && !h.clients[0].needs_redraw);
    assert_eq!(h.sessions[0].name, "a");
    let mut new = config(&["b"]);
    new.bar_position = BarPosition::Top;
    assert!(reload(Some(new), &mut h.config, &mut h.clients, &mut h.sessions));
    assert_eq!(h.config.pins[0].name, "b");
    assert_eq!((h.sessions[0].name.as_str(), h.sessions[1].name.as_str()), ("b", "a"));
    assert!(h.clients[0].needs_redraw);
    // The bar is on top from the next frame on.
    let grids = vec![blank()];
    let out = draw_client(&h.clients[0], 0, &h.sessions, &grids, &h.config, 100);
    force_color_output(false);
    assert!(encode(&out).contains("\x1b[1;1H\x1b[0m"));
}

#[test]
fn clients_on_their_way_out_follow_a_clean_up() {
    let mut h = Hub::new(3);
    h.attach(0, "a");
    h.attach(1, "b");
    h.attach(2, "c");
    h.clients[1].closing = true;
    h.clients[1].mode = Mode::Manager { overlay: Overlay::Tabs, selected: 2 };
    h.clients[2].dead = true;
    let (mut changed, mut removed) = (Vec::new(), false);
    pane_read(1, 0, 2, false, &mut h.sessions, &mut changed, &mut removed);
    pane_read(2, 0, 3, false, &mut h.sessions, &mut changed, &mut removed);
    h.fx.clear();
    clean_up(&mut h.clients, &mut h.sessions, &mut h.fx);
    // They are pointed at the first session, which they size, and kick
    // nobody off it.
    for c in &h.clients[1..] {
        assert_eq!(c.attached, Some(1));
        assert!(matches!(c.mode, Mode::Running) && c.needs_redraw && !c.is_served());
    }
    assert!(h.clients[0].is_served());
    assert_eq!(h.fx.len(), 3);
    assert!(h.fx.iter().all(|e| matches!(e, Effect::Resize { pane: 1, .. })));
    // Without a session left everyone is said goodbye to, once.
    pane_read(0, 0, 1, false, &mut h.sessions, &mut changed, &mut removed);
    clean_up(&mut h.clients, &mut h.sessions, &mut h.fx);
    assert_eq!(h.sent(0), bye("session closed"));
    assert!(h.sent(1).is_empty());
    assert_eq!(h.sent(2), bye("session closed"));
    assert!(h.clients.iter().all(|c| c.closing));
}

#[test]
fn an_attach_that_fails_is_undone() {
    let mut h = Hub::new(2);
    h.attach(0, "a");
    let before = look(&h.sessions, 0);
    // A first attach that makes a session.
    h.attach(1, "b");
    assert_eq!((h.sessions.len(), h.clients[1].attached), (2, Some(2)));
    undo_start(1, 2, None, before, &mut h.clients, &mut h.sessions);
    assert_eq!((h.sessions.len(), h.clients[1].attached), (1, None));
    assert_eq!((h.sessions[0].id, h.clients[0].attached), (1, Some(1)));
    // A switch to a session that is made for it.
    h.attach(0, "c");
    assert_eq!(h.clients[0].attached, Some(3));
    undo_start(0, 3, Some(1), before, &mut h.clients, &mut h.sessions);
    assert_eq!((h.sessions.len(), h.clients[0].attached), (1, Some(1)));
    // A split leaves the client where it is.
    h.input(0, b"\x11");
    assert_eq!(h.sessions[0].tabs[0].layout.panes(), vec![1, 4]);
    undo_start(0, 4, Some(1), before, &mut h.clients, &mut h.sessions);
    assert_eq!(h.sessions[0].tabs[0].layout.panes(), vec![1]);
    assert_eq!((h.sessions[0].tabs[0].focused, h.clients[0].attached), (1, Some(1)));
}

#[test]
fn an_attach_name_is_read_as_text() {
    let mut h = Hub::new(2);
    h.attach(0, "größe漢");
    assert_eq!(h.sessions[0].name, "größe漢");
    h.frame(1, C2S_ATTACH, &[80, 0, 24, 0, b'a', 0xff, b'b']);
    assert_eq!(h.sessions[1].name, "a\u{fffd}b");
}
