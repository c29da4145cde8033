use rmux::config::{Binding, BindingAction, InputAction, Overlay};
use rmux::effect::Effect;
use rmux::keys::{
    forward_input, manager_actions, manager_apply, naming_apply, naming_keys, MgrAction,
    MgrOutcome, NamingOutcome,
};

fn control(seq: &[u8], a: InputAction) -> Binding {
    Binding { seq: seq.to_vec(), action: BindingAction::Control(a) }
}

fn run(seq: &[u8], cmd: &str) -> Binding {
    Binding { seq: seq.to_vec(), action: BindingAction::Run(cmd.to_string()) }
}

fn bindings() -> Vec<Binding> {
    vec![
        run(b"\x1bOP", "htop"),
        control(b"\x07", InputAction::Detach),
        control(b"\x0f", InputAction::Manager(Overlay::Sessions { agents: false })),
        run(b"\x0c", "lazygit"),
    ]
}

fn typed(fx: &[Effect]) -> Vec<u8> {
    let mut out = Vec::new();
    for e in fx {
        match e {
            Effect::Write { pane: 3, bytes } => out.extend_from_slice(bytes),
            _ => panic!("only pane 3 is typed into"),
        }
    }
    out
}

#[test]
fn plain_input_is_forwarded() {
    let mut fx = Vec::new();
    assert!(forward_input(3, &bindings(), b"ls -l\r", &mut fx).is_none());
    assert_eq!(typed(&fx), b"ls -l\r");
    let mut fx = Vec::new();
    assert!(forward_input(3, &bindings(), b"", &mut fx).is_none());
    assert!(fx.is_empty());
}

#[test]
fn a_control_chord_is_swallowed() {
    let mut fx = Vec::new();
    let r = forward_input(3, &bindings(), b"ab\x07cd", &mut fx);
    assert!(r == Some((InputAction::Detach, 3)));
    assert_eq!(typed(&fx), b"ab");
}

#[test]
fn a_command_chord_types_its_program() {
    let mut fx = Vec::new();
    let r = forward_input(3, &bindings(), b"a\x0cb\x1bOPc", &mut fx);
    assert!(r.is_none());
    assert_eq!(typed(&fx), b"alazygit\rbhtop\rc");
}

#[test]
fn a_split_chord_does_not_match() {
    let mut fx = Vec::new();
    assert!(forward_input(3, &bindings(), b"\x1bO", &mut fx).is_none());
    assert!(forward_input(3, &bindings(), b"P", &mut fx).is_none());
    assert_eq!(typed(&fx), b"\x1bOP");
}

#[test]
fn the_first_binding_that_fits_wins() {
    let b = vec![run(b"ab", "long"), run(b"a", "short")];
    let mut fx = Vec::new();
    forward_input(3, &b, b"aba", &mut fx);
    assert_eq!(typed(&fx), b"long\rshort\r");
}

#[test]
fn manager_keys_are_parsed() {
    let got = manager_actions(b"jkrnxa\r\nq?\x1b[A\x1b[B\x1b\x0f\x07", &bindings());
    assert!(
        got == vec![
            MgrAction::Down,
            MgrAction::Up,
            MgrAction::Rename,
            MgrAction::New,
            MgrAction::Kill,
            MgrAction::ToggleAgents,
            MgrAction::Select,
            MgrAction::Select,
            MgrAction::Close,
            MgrAction::Up,
            MgrAction::Down,
            MgrAction::Close,
            MgrAction::Close,
        ]
    );
}

#[test]
fn a_slash_starts_a_search() {
    assert!(manager_actions(b"/", &Vec::new()) == vec![MgrAction::Search]);
    assert!(manager_actions(b"j/", &bindings()) == vec![MgrAction::Down, MgrAction::Search]);
}

#[test]
fn the_manager_chord_closes_the_manager() {
    assert!(manager_actions(b"\x0f", &bindings()) == vec![MgrAction::Close]);
}

#[test]
fn manager_selection_stays_in_the_list() {
    let mut at = 0;
    let moves = vec![MgrAction::Up, MgrAction::Down, MgrAction::Down, MgrAction::Down];
    assert!(manager_apply(&moves, &mut at, 3) == MgrOutcome::Stay);
    assert_eq!(at, 2);
    at = 9;
    assert!(manager_apply(&vec![MgrAction::Down], &mut at, 3) == MgrOutcome::Stay);
    assert_eq!(at, 2);
}

#[test]
fn manager_outcomes_drop_what_follows() {
    let pairs = [
        (MgrAction::Select, MgrOutcome::Switch(1)),
        (MgrAction::New, MgrOutcome::StartNaming),
        (MgrAction::Rename, MgrOutcome::Rename(1)),
        (MgrAction::Kill, MgrOutcome::Kill(1)),
        (MgrAction::ToggleAgents, MgrOutcome::ToggleAgents),
        (MgrAction::Search, MgrOutcome::StartSearch(1)),
        (MgrAction::Close, MgrOutcome::Close),
    ];
    for (key, outcome) in pairs {
        let mut at = 0;
        let keys = vec![MgrAction::Down, key, MgrAction::Down];
        assert!(manager_apply(&keys, &mut at, 5) == outcome);
        assert_eq!(at, 1);
    }
}

#[test]
fn names_are_typed() {
    let mut name = String::new();
    assert!(naming_apply(b"wo\x7frk \xc3\xa4", &mut name) == NamingOutcome::Pending);
    assert_eq!(name, "wrk ä");
    assert!(naming_apply(b"\x08\x08!\rmore", &mut name) == NamingOutcome::Create);
    assert_eq!(name, "wrk!");
    assert!(naming_apply(b"x\x1b[A", &mut name) == NamingOutcome::Cancel);
    assert_eq!(name, "wrk!x");
    let mut empty = String::new();
    assert!(naming_apply(b"\x7f\x01\t", &mut empty) == NamingOutcome::Pending);
    assert_eq!(empty, "");
}

#[test]
fn invalid_bytes_become_replacement_characters() {
    let mut name = String::new();
    assert!(naming_apply(b"a\xffb", &mut name) == NamingOutcome::Pending);
    assert_eq!(name, "a\u{fffd}b");
}

#[test]
fn names_have_at_most_forty_characters() {
    let mut name = String::new();
    let keys: Vec<char> = vec!['ü'; 50];
    assert!(naming_keys(&keys, &mut name) == NamingOutcome::Pending);
    assert_eq!(name.chars().count(), 40);
}
