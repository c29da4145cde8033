use rmux::ansi::Color;
use rmux::config::{BarPosition, Config, Pin};
use rmux::effect::Effect;
use rmux::model::{Fresh, Session};
use rmux::sessions::{
    create_session, find_id, find_named, manager_entries, resort_sessions, session_entries,
};

fn config(pins: &[&str]) -> Config {
    Config {
        accent: Color::Reset,
        bar_position: BarPosition::Bottom,
        select_copy: true,
        pins: pins.iter().map(|n| Pin { name: n.to_string() }).collect(),
        bindings: Vec::new(),
    }
}

fn sessions(names: &[&str]) -> Vec<Session> {
    let mut f = Fresh { session: 1, pane: 1, now: 0 };
    let mut fx = Vec::new();
    names.iter().map(|n| Session::new((80, 23), n.to_string(), &mut f, &mut fx)).collect()
}

fn names(s: &[Session]) -> Vec<&str> {
    s.iter().map(|x| x.name.as_str()).collect()
}

#[test]
fn entries_list_pins_then_the_rest() {
    let c = config(&["web", "db"]);
    let s = sessions(&["misc", "db", "other"]);
    let e = session_entries(&c.pins, &s);
    let got: Vec<(&str, Option<usize>)> =
        e.iter().map(|x| (x.name.as_str(), x.running)).collect();
    assert_eq!(
        got,
        vec![("web", None), ("db", Some(1)), ("misc", Some(0)), ("other", Some(2))]
    );
    assert!(session_entries(&config(&[]).pins, &Vec::new()).is_empty());
}

#[test]
fn a_pinned_agent_session_is_listed_once() {
    let c = config(&["bot", "web"]);
    let mut s = sessions(&["bot", "other", "helper"]);
    s[0].agent = true;
    s[2].agent = true;
    let got: Vec<(String, Option<usize>)> =
        session_entries(&c.pins, &s).into_iter().map(|x| (x.name, x.running)).collect();
    let want = [("bot", Some(0)), ("web", None), ("other", Some(1)), ("helper", Some(2))];
    assert_eq!(got, want.map(|(n, r)| (n.to_string(), r)).to_vec());
    // A second session under a pinned name is not the one that the pin shows.
    s[2].name = "bot".to_string();
    let got: Vec<Option<usize>> =
        session_entries(&c.pins, &s).iter().map(|x| x.running).collect();
    assert_eq!(got, vec![Some(0), None, Some(1), Some(2)]);
    let agents = manager_entries(&c.pins, &s, true);
    assert_eq!(agents.len(), 2);
}

#[test]
fn agent_entries_come_last_by_activity() {
    let c = config(&["web"]);
    let mut s = sessions(&["a1", "plain", "a2", "a3"]);
    for (i, at) in [(0, 50), (2, 90), (3, 50)] {
        s[i].agent = true;
        s[i].last_active = at;
    }
    let e = session_entries(&c.pins, &s);
    let got: Vec<Option<usize>> = e.iter().map(|x| x.running).collect();
    assert_eq!(got, vec![None, Some(1), Some(2), Some(0), Some(3)]);
    let plain = manager_entries(&c.pins, &s, false);
    assert_eq!(plain.len(), 2);
    let agents = manager_entries(&c.pins, &s, true);
    let got: Vec<&str> = agents.iter().map(|x| x.name.as_str()).collect();
    assert_eq!(got, vec!["a2", "a1", "a3"]);
}

#[test]
fn new_sessions_go_to_their_place() {
    let c = config(&["one", "two", "three"]);
    let mut s = Vec::new();
    let mut f = Fresh { session: 7, pane: 70, now: 5 };
    let mut fx: Vec<Effect> = Vec::new();
    for (name, at) in [("x", 0), ("two", 0), ("y", 2), ("three", 1), ("one", 0)] {
        assert_eq!(create_session(&mut s, &c, (80, 23), name.to_string(), &mut f, &mut fx), at);
    }
    assert_eq!(names(&s), vec!["one", "two", "three", "x", "y"]);
    assert_eq!((f.session, f.pane), (12, 75));
    assert_eq!(fx.len(), 5);
    assert!(matches!(fx[4], Effect::Spawn { pane: 74, w: 80, h: 23 }));
}

#[test]
fn a_reload_reorders_the_sessions() {
    let mut s = sessions(&["a", "b", "c", "d", "b"]);
    resort_sessions(&mut s, &config(&["c", "b"]));
    assert_eq!(names(&s), vec!["c", "b", "b", "a", "d"]);
    assert_eq!(s.iter().map(|x| x.id).collect::<Vec<_>>(), vec![3, 2, 5, 1, 4]);
    resort_sessions(&mut s, &config(&[]));
    assert_eq!(names(&s), vec!["c", "b", "b", "a", "d"]);
}

#[test]
fn sessions_are_found_by_name_and_id() {
    let s = sessions(&["a", "b", "a"]);
    assert_eq!(find_named(&s, &"a".to_string()), Some(0));
    assert_eq!(find_named(&s, &"z".to_string()), None);
    assert_eq!(find_id(&s, 3), Some(2));
    assert_eq!(find_id(&s, 4), None);
}
