//! Key presses: bound chords in the input stream, the keys of a manager
//! overlay and those of the name prompt.

use crate::config::{
    binding_views, chords_ok, longest_first, ActionView, Binding, BindingAction, BindingView, InputAction,
};
use crate::effect::{effects, request, Effect, EffectView};
use crate::protocol::push_bytes;
use crate::text::{
    begins_at, control, decode_lossy, is_control, lossy_chars, starts_at, to_chars,
};
use vstd::prelude::*;
use vstd::utf8::{decode_utf8, encode_utf8, valid_utf8};

verus! {

/// The first binding from `k` on whose chord stands at `i`.
pub open spec fn chord_at(b: Seq<BindingView>, buf: Seq<u8>, i: int, k: int) -> Option<int>
    decreases b.len() - k,
{
    if k >= b.len() {
        None
    } else if begins_at(buf, i, b[k].seq) {
        Some(k)
    } else {
        chord_at(b, buf, i, k + 1)
    }
}

proof fn lemma_chord_at(b: Seq<BindingView>, buf: Seq<u8>, i: int, k: int)
    requires
        0 <= k,
    ensures
        chord_at(b, buf, i, k) matches Some(j) ==> k <= j < b.len() && begins_at(buf, i, b[j].seq),
        chord_at(b, buf, i, k) is None ==> (forall|j: int|
            k <= j < b.len() ==> !begins_at(buf, i, (#[trigger] b[j]).seq)),
    decreases b.len() - k,
{
    if k < b.len() && !begins_at(buf, i, b[k].seq) {
        lemma_chord_at(b, buf, i, k + 1);
    }
}

/// What scanning input for chords gives: the bytes typed into the shell up
/// to the first control chord, and that chord with the index just past it.
pub struct Scan {
    pub typed: Seq<u8>,
    pub action: Option<(InputAction, int)>,
}

/// Scan `buf` from `i` on: a command chord types its program and Enter, a
/// control chord ends the scan, everything else is typed as it stands.
pub open spec fn scanned(b: Seq<BindingView>, buf: Seq<u8>, i: int) -> Scan
    decreases buf.len() - i,
    when 0 <= i
{
    if i >= buf.len() {
        Scan { typed: Seq::empty(), action: None }
    } else {
        match chord_at(b, buf, i, 0) {
            Some(k) => match b[k].action {
                ActionView::Control(a) => Scan {
                    typed: Seq::empty(),
                    action: Some((a, i + b[k].seq.len())),
                },
                ActionView::Run(cmd) => {
                    let rest = if 0 < b[k].seq.len() <= buf.len() - i {
                        scanned(b, buf, i + b[k].seq.len())
                    } else {
                        Scan { typed: Seq::empty(), action: None }
                    };
                    Scan {
                        typed: encode_utf8(cmd) + seq![0x0du8] + rest.typed,
                        action: rest.action,
                    }
                },
            },
            None => {
                let rest = scanned(b, buf, i + 1);
                Scan { typed: seq![buf[i]] + rest.typed, action: rest.action }
            },
        }
    }
}

/// Typing bytes into a pane; nothing to ask for when there are none.
pub open spec fn typing(pane: u64, bytes: Seq<u8>) -> Seq<EffectView> {
    if bytes.len() == 0 {
        Seq::empty()
    } else {
        seq![EffectView::Write { pane, bytes }]
    }
}

pub proof fn lemma_scanned_range(b: Seq<BindingView>, buf: Seq<u8>, i: int)
    requires
        0 <= i,
        chords_ok(b),
    ensures
        scanned(b, buf, i).action matches Some((a, rest)) ==> i < rest <= buf.len(),
    decreases buf.len() - i,
{
    if i < buf.len() {
        lemma_chord_at(b, buf, i, 0);
        match chord_at(b, buf, i, 0) {
            Some(k) => {
                assert(b[k].seq.len() > 0);
                if b[k].action is Run {
                    lemma_scanned_range(b, buf, (i + b[k].seq.len()) as int);
                }
            },
            None => {
                lemma_scanned_range(b, buf, i + 1);
            },
        }
    }
}

/// Type input into a pane up to the first control chord.
///
/// Returns `Some((action, i))` when a control chord was pressed, where
/// `i` is the index just past it; bytes before it have been forwarded,
/// bytes from `i` on have not.
///
/// When the byte sequence of a `Run` command binding appears, we swallow it
/// and instead type the configured program name plus Enter into the shell.
/// Bindings are matched in order, and a chord split across two reads (e.g.
/// a lone ESC press followed later by a letter) does not match.
pub fn forward_input(
    pane: u64,
    bindings: &Vec<Binding>,
    buf: &[u8],
    fx: &mut Vec<Effect>,
) -> (r: Option<(InputAction, usize)>)
    requires
        chords_ok(binding_views(bindings@)),
    ensures
        effects(final(fx)@) == effects(old(fx)@) + typing(
            pane,
            scanned(binding_views(bindings@), buf@, 0).typed,
        ),
        match r {
            Some((a, i)) => i <= buf@.len() && scanned(
                binding_views(bindings@),
                buf@,
                0,
            ).action == Some((a, i as int)),
            None => scanned(binding_views(bindings@), buf@, 0).action is None,
        },
{
    let ghost b = binding_views(bindings@);
    let mut typed: Vec<u8> = Vec::new();
    let mut found: Option<(InputAction, usize)> = None;
    let mut i: usize = 0;
    assert(typed@ + scanned(b, buf@, 0).typed =~= scanned(b, buf@, 0).typed);
    while i < buf.len() && found.is_none()
        invariant
            i <= buf@.len(),
            b == binding_views(bindings@),
            chords_ok(b),
            found is None ==> typed@ + scanned(b, buf@, i as int).typed == scanned(
                b,
                buf@,
                0,
            ).typed && scanned(b, buf@, i as int).action == scanned(b, buf@, 0).action,
            found matches Some((a, k)) ==> typed@ == scanned(b, buf@, 0).typed && k <= buf@.len()
                && scanned(b, buf@, 0).action == Some((a, k as int)),
        decreases buf@.len() - i, if found is None { 1int } else { 0int },
    {
        let mut k: usize = 0;
        while k < bindings.len() && !starts_at(buf, i, bindings[k].seq.as_slice())
            invariant
                k <= bindings@.len(),
                i < buf@.len(),
                b == binding_views(bindings@),
                chord_at(b, buf@, i as int, 0) == chord_at(b, buf@, i as int, k as int),
            decreases bindings@.len() - k,
        {
            k = k + 1;
        }
        let ghost before = typed@;
        if k < bindings.len() {
            let binding: &Binding = &bindings[k];
            assert(b[k as int] == binding@);
            assert(chord_at(b, buf@, i as int, 0) == Some(k as int));
            assert(b[k as int].seq.len() > 0);
            match &binding.action {
                BindingAction::Control(action) => {
                    found = Some((*action, i + binding.seq.len()));
                    assert(typed@ + Seq::<u8>::empty() =~= typed@);
                },
                BindingAction::Run(cmd) => {
                    let ghost rest = scanned(b, buf@, i + binding.seq@.len());
                    push_bytes(&mut typed, cmd.as_str().as_bytes());
                    typed.push(0x0d);
                    assert(typed@ + rest.typed =~= before + (encode_utf8(cmd@) + seq![0x0du8]
                        + rest.typed));
                    i = i + binding.seq.len();
                },
            }
        } else {
            typed.push(buf[i]);
            assert(typed@ + scanned(b, buf@, i + 1).typed =~= before + (seq![buf@[i as int]]
                + scanned(b, buf@, i + 1).typed));
            i = i + 1;
        }
    }
    assert(found is None ==> typed@ =~= scanned(b, buf@, 0).typed);
    let ghost asked = effects(fx@);
    if typed.len() > 0 {
        request(fx, Effect::Write { pane, bytes: typed });
    }
    assert(effects(fx@) =~= asked + typing(pane, typed@));
    found
}

/// A key press inside a manager overlay.
#[derive(Clone, Copy, PartialEq, Eq, Structural)]
pub enum MgrAction {
    Up,
    Down,
    Select,
    New,
    Rename,
    Kill,
    /// Flip the session manager between normal and agent sessions.
    ToggleAgents,
    /// Search the list.
    Search,
    Close,
}

/// What happened after applying manager key presses.
#[derive(Clone, Copy, PartialEq, Eq, Structural)]
pub enum MgrOutcome {
    /// Keep showing the manager.
    Stay,
    /// Close it and show the viewed tab.
    Close,
    /// Switch to the selected entry, then close.
    Switch(usize),
    /// Open the name prompt for a new session/tab.
    StartNaming,
    /// Open the rename prompt for the selected entry.
    Rename(usize),
    /// Kill the selected entry (all its shells).
    Kill(usize),
    /// Flip between the normal and agent session lists.
    ToggleAgents,
    /// Search the list, with the selection where it is.
    StartSearch(usize),
}

/// The first binding from `k` on that opens a manager and whose chord
/// stands at `i`.
pub open spec fn manager_chord_at(b: Seq<BindingView>, buf: Seq<u8>, i: int, k: int) -> Option<int>
    decreases b.len() - k,
{
    if k >= b.len() {
        None
    } else if b[k].action matches ActionView::Control(InputAction::Manager(_)) && begins_at(
        buf,
        i,
        b[k].seq,
    ) {
        Some(k)
    } else {
        manager_chord_at(b, buf, i, k + 1)
    }
}

/// The manager key of a single byte.
pub open spec fn manager_key(byte: u8) -> Option<MgrAction> {
    if byte == 0x0d || byte == 0x0a {
        Some(MgrAction::Select)
    } else if byte == 0x6e {
        Some(MgrAction::New)
    } else if byte == 0x72 {
        Some(MgrAction::Rename)
    } else if byte == 0x78 {
        Some(MgrAction::Kill)
    } else if byte == 0x61 {
        Some(MgrAction::ToggleAgents)
    } else if byte == 0x2f {
        Some(MgrAction::Search)
    } else if byte == 0x6a {
        Some(MgrAction::Down)
    } else if byte == 0x6b {
        Some(MgrAction::Up)
    } else if byte == 0x71 || byte == 0x1b {
        Some(MgrAction::Close)
    } else {
        None
    }
}

/// The manager keys in `buf` from `i` on. The chords that open a manager
/// close it; arrow keys move; a bare escape closes.
pub open spec fn manager_keys(b: Seq<BindingView>, buf: Seq<u8>, i: int) -> Seq<MgrAction>
    decreases buf.len() - i,
    when 0 <= i
{
    if i >= buf.len() {
        Seq::empty()
    } else {
        match manager_chord_at(b, buf, i, 0) {
            Some(k) => seq![MgrAction::Close] + (if 0 < b[k].seq.len() <= buf.len() - i {
                manager_keys(b, buf, i + b[k].seq.len())
            } else {
                Seq::empty()
            }),
            None => if begins_at(buf, i, seq![0x1bu8, 0x5bu8, 0x41u8]) {
                seq![MgrAction::Up] + manager_keys(b, buf, i + 3)
            } else if begins_at(buf, i, seq![0x1bu8, 0x5bu8, 0x42u8]) {
                seq![MgrAction::Down] + manager_keys(b, buf, i + 3)
            } else {
                crate::mouse::optional(manager_key(buf[i])) + manager_keys(b, buf, i + 1)
            },
        }
    }
}

/// The manager key of a single byte.
fn manager_key_of(byte: u8) -> (r: Option<MgrAction>)
    ensures
        r == manager_key(byte),
{
    match byte {
        0x0d => Some(MgrAction::Select),
        0x0a => Some(MgrAction::Select),
        0x6e => Some(MgrAction::New),
        0x72 => Some(MgrAction::Rename),
        0x78 => Some(MgrAction::Kill),
        0x61 => Some(MgrAction::ToggleAgents),
        0x2f => Some(MgrAction::Search),
        0x6a => Some(MgrAction::Down),
        0x6b => Some(MgrAction::Up),
        0x71 => Some(MgrAction::Close),
        0x1b => Some(MgrAction::Close),
        _ => None,
    }
}

/// Parse manager-mode key presses from raw stdin bytes. The chords bound
/// to opening a manager also close it (toggle behavior).
pub fn manager_actions(buf: &[u8], bindings: &Vec<Binding>) -> (r: Vec<MgrAction>)
    requires
        chords_ok(binding_views(bindings@)),
    ensures
        r@ == manager_keys(binding_views(bindings@), buf@, 0),
{
    let up: [u8; 3] = [0x1b, 0x5b, 0x41];
    let down: [u8; 3] = [0x1b, 0x5b, 0x42];
    assert(up@ =~= seq![0x1bu8, 0x5bu8, 0x41u8]);
    assert(down@ =~= seq![0x1bu8, 0x5bu8, 0x42u8]);
    let ghost b = binding_views(bindings@);
    let mut actions: Vec<MgrAction> = Vec::new();
    let mut i: usize = 0;
    assert(actions@ + manager_keys(b, buf@, 0) =~= manager_keys(b, buf@, 0));
    while i < buf.len()
        invariant
            i <= buf@.len(),
            b == binding_views(bindings@),
            chords_ok(b),
            up@ == seq![0x1bu8, 0x5bu8, 0x41u8],
            down@ == seq![0x1bu8, 0x5bu8, 0x42u8],
            actions@ + manager_keys(b, buf@, i as int) == manager_keys(b, buf@, 0),
        decreases buf@.len() - i,
    {
        let mut k: usize = 0;
        while k < bindings.len() && !(matches!(
            bindings[k].action,
            BindingAction::Control(InputAction::Manager(_))
        ) && starts_at(buf, i, bindings[k].seq.as_slice()))
            invariant
                k <= bindings@.len(),
                i < buf@.len(),
                b == binding_views(bindings@),
                manager_chord_at(b, buf@, i as int, 0) == manager_chord_at(
                    b,
                    buf@,
                    i as int,
                    k as int,
                ),
            decreases bindings@.len() - k,
        {
            k = k + 1;
        }
        let ghost before = actions@;
        let ghost at = i as int;
        let mut step: usize = 1;
        if k < bindings.len() {
            assert(b[k as int] == bindings@[k as int]@);
            assert(manager_chord_at(b, buf@, i as int, 0) == Some(k as int));
            assert(b[k as int].seq.len() > 0);
            actions.push(MgrAction::Close);
            step = bindings[k].seq.len();
        } else if starts_at(buf, i, &up) {
            actions.push(MgrAction::Up);
            step = 3;
        } else if starts_at(buf, i, &down) {
            actions.push(MgrAction::Down);
            step = 3;
        } else if let Some(a) = manager_key_of(buf[i]) {
            actions.push(a);
        }
        i = i + step;
        assert(actions@ + manager_keys(b, buf@, i as int) =~= before + manager_keys(b, buf@, at));
    }
    actions
}

/// The selection moved down in a list of `count` entries.
pub open spec fn moved_down(selected: usize, count: usize) -> usize {
    if selected + 1 < count {
        (selected + 1) as usize
    } else {
        (count - 1) as usize
    }
}

/// The selection and the outcome after the keys from `i` on, in a list of
/// `count` entries.
pub open spec fn manager_applied(
    actions: Seq<MgrAction>,
    i: int,
    selected: usize,
    count: usize,
) -> (usize, MgrOutcome)
    decreases actions.len() - i,
{
    if i >= actions.len() {
        (selected, MgrOutcome::Stay)
    } else {
        match actions[i] {
            MgrAction::Up => manager_applied(
                actions,
                i + 1,
                if selected > 0 {
                    (selected - 1) as usize
                } else {
                    0
                },
                count,
            ),
            MgrAction::Down => manager_applied(
                actions,
                i + 1,
                moved_down(selected, count),
                count,
            ),
            MgrAction::Select => (selected, MgrOutcome::Switch(selected)),
            MgrAction::New => (selected, MgrOutcome::StartNaming),
            MgrAction::Rename => (selected, MgrOutcome::Rename(selected)),
            MgrAction::Kill => (selected, MgrOutcome::Kill(selected)),
            MgrAction::ToggleAgents => (selected, MgrOutcome::ToggleAgents),
            MgrAction::Search => (selected, MgrOutcome::StartSearch(selected)),
            MgrAction::Close => (selected, MgrOutcome::Close),
        }
    }
}

/// Apply manager key presses; any actions after one that leaves the
/// manager are dropped.
pub fn manager_apply(actions: &Vec<MgrAction>, selected: &mut usize, count: usize) -> (r: MgrOutcome)
    requires
        count > 0,
    ensures
        (*final(selected), r) == manager_applied(actions@, 0, *old(selected), count),
{
    let mut i: usize = 0;
    while i < actions.len()
        invariant
            i <= actions@.len(),
            count > 0,
            manager_applied(actions@, 0, *old(selected), count) == manager_applied(
                actions@,
                i as int,
                *selected,
                count,
            ),
        decreases actions@.len() - i,
    {
        match actions[i] {
            MgrAction::Up => {
                if *selected > 0 {
                    *selected = *selected - 1;
                }
            },
            MgrAction::Down => {
                if *selected < count - 1 {
                    *selected = *selected + 1;
                } else {
                    *selected = count - 1;
                }
            },
            MgrAction::Select => return MgrOutcome::Switch(*selected),
            MgrAction::New => return MgrOutcome::StartNaming,
            MgrAction::Rename => return MgrOutcome::Rename(*selected),
            MgrAction::Kill => return MgrOutcome::Kill(*selected),
            MgrAction::ToggleAgents => return MgrOutcome::ToggleAgents,
            MgrAction::Search => return MgrOutcome::StartSearch(*selected),
            MgrAction::Close => return MgrOutcome::Close,
        }
        i = i + 1;
    }
    MgrOutcome::Stay
}

/// What happened after applying name-prompt key presses.
#[derive(Clone, Copy, PartialEq, Eq, Structural)]
pub enum NamingOutcome {
    /// Still typing.
    Pending,
    /// Enter pressed: create with the typed name.
    Create,
    /// Esc pressed: back to the manager.
    Cancel,
}

/// The most characters a typed name can have.
pub const MAX_NAME: usize = 40;

/// The name and the outcome after the keys from `i` on.
pub open spec fn named(keys: Seq<char>, i: int, name: Seq<char>) -> (Seq<char>, NamingOutcome)
    decreases keys.len() - i,
{
    if i >= keys.len() {
        (name, NamingOutcome::Pending)
    } else if keys[i] == '\r' || keys[i] == '\n' {
        (name, NamingOutcome::Create)
    } else if keys[i] == '\u{1b}' {
        (name, NamingOutcome::Cancel)
    } else if keys[i] == '\u{7f}' || keys[i] == '\u{8}' {
        named(
            keys,
            i + 1,
            if name.len() > 0 {
                name.drop_last()
            } else {
                name
            },
        )
    } else if !control(keys[i]) && name.len() < MAX_NAME {
        named(keys, i + 1, name.push(keys[i]))
    } else {
        named(keys, i + 1, name)
    }
}

/// Apply typed characters to the name in the name prompt.
pub fn naming_keys(keys: &Vec<char>, name: &mut String) -> (r: NamingOutcome)
    ensures
        (final(name)@, r) == named(keys@, 0, old(name)@),
{
    let mut len: usize = to_chars(name.as_str()).len();
    let mut i: usize = 0;
    while i < keys.len()
        invariant
            i <= keys@.len(),
            len == name@.len(),
            named(keys@, 0, old(name)@) == named(keys@, i as int, name@),
        decreases keys@.len() - i,
    {
        let c: char = keys[i];
        if c == '\r' || c == '\n' {
            return NamingOutcome::Create;
        }
        if c == '\u{1b}' {
            return NamingOutcome::Cancel;
        }
        if c == '\u{7f}' || c == '\u{8}' {
            let _ = name.pop();
            if len > 0 {
                len = len - 1;
            }
        } else if !is_control(c) && len < MAX_NAME {
            name.push(c);
            len = len + 1;
        }
        i = i + 1;
    }
    NamingOutcome::Pending
}

/// Apply key presses to the name being typed in the name prompt.
pub fn naming_apply(buf: &[u8], name: &mut String) -> (r: NamingOutcome)
    ensures
        (final(name)@, r) == named(lossy_chars(buf@), 0, old(name)@),
        valid_utf8(buf@) ==> lossy_chars(buf@) == decode_utf8(buf@),
{
    let typed: String = decode_lossy(buf);
    let keys: Vec<char> = to_chars(typed.as_str());
    naming_keys(&keys, name)
}

/// A typed name never grows past the limit, and typing adds no control
/// codes to it.
pub proof fn law_typed_name(keys: Seq<char>, i: int, name: Seq<char>)
    requires
        0 <= i,
        name.len() <= MAX_NAME,
        forall|k: int| 0 <= k < name.len() ==> !control(#[trigger] name[k]),
    ensures
        named(keys, i, name).0.len() <= MAX_NAME,
        forall|k: int|
            0 <= k < named(keys, i, name).0.len() ==> !control(#[trigger] named(keys, i, name).0[k]),
    decreases keys.len() - i,
{
    if i < keys.len() {
        if keys[i] == '\u{7f}' || keys[i] == '\u{8}' {
            law_typed_name(
                keys,
                i + 1,
                if name.len() > 0 {
                    name.drop_last()
                } else {
                    name
                },
            );
        } else if keys[i] == '\r' || keys[i] == '\n' || keys[i] == '\u{1b}' {
        } else if !control(keys[i]) && name.len() < MAX_NAME {
            law_typed_name(keys, i + 1, name.push(keys[i]));
        } else {
            law_typed_name(keys, i + 1, name);
        }
    }
}

proof fn lemma_scan_unbound(b: Seq<BindingView>, buf: Seq<u8>, from: int, to: int)
    requires
        0 <= from <= to <= buf.len(),
        forall|i: int| from <= i < to ==> #[trigger] chord_at(b, buf, i, 0) is None,
    ensures
        scanned(b, buf, from).typed == buf.subrange(from, to) + scanned(b, buf, to).typed,
        scanned(b, buf, from).action == scanned(b, buf, to).action,
    decreases to - from,
{
    if from < to {
        lemma_scan_unbound(b, buf, from + 1, to);
        assert(chord_at(b, buf, from, 0) is None);
        assert(seq![buf[from]] + (buf.subrange(from + 1, to) + scanned(b, buf, to).typed)
            =~= buf.subrange(from, to) + scanned(b, buf, to).typed);
    } else {
        assert(buf.subrange(from, to) + scanned(b, buf, to).typed =~= scanned(b, buf, to).typed);
    }
}

/// Input in which no chord stands reaches the shell unchanged.
pub proof fn law_unbound_input_passes(b: Seq<BindingView>, buf: Seq<u8>)
    requires
        forall|i: int| 0 <= i < buf.len() ==> #[trigger] chord_at(b, buf, i, 0) is None,
    ensures
        scanned(b, buf, 0) == (Scan { typed: buf, action: None }),
{
    lemma_scan_unbound(b, buf, 0, buf.len() as int);
    assert(buf.subrange(0, buf.len() as int) + Seq::<u8>::empty() =~= buf);
}

/// A control chord is swallowed: the shell gets the bytes before it, and
/// what follows it is left for the caller.
pub proof fn law_control_chord_swallowed(
    b: Seq<BindingView>,
    buf: Seq<u8>,
    i: int,
    k: int,
    a: InputAction,
)
    requires
        0 <= i < buf.len(),
        forall|j: int| 0 <= j < i ==> #[trigger] chord_at(b, buf, j, 0) is None,
        chord_at(b, buf, i, 0) == Some(k),
        b[k].action == ActionView::Control(a),
    ensures
        scanned(b, buf, 0) == (Scan {
            typed: buf.take(i),
            action: Some((a, i + b[k].seq.len())),
        }),
{
    lemma_scan_unbound(b, buf, 0, i);
    assert(buf.subrange(0, i) + Seq::<u8>::empty() =~= buf.take(i));
}

/// A command chord is swallowed: the shell gets the bytes before it, then
/// the program and Enter, then what the rest of the input gives.
pub proof fn law_command_chord_types(
    b: Seq<BindingView>,
    buf: Seq<u8>,
    i: int,
    k: int,
    cmd: Seq<char>,
)
    requires
        chords_ok(b),
        0 <= i < buf.len(),
        forall|j: int| 0 <= j < i ==> #[trigger] chord_at(b, buf, j, 0) is None,
        chord_at(b, buf, i, 0) == Some(k),
        b[k].action == ActionView::Run(cmd),
    ensures
        ({
            let rest = scanned(b, buf, i + b[k].seq.len());
            scanned(b, buf, 0) == (Scan {
                typed: buf.take(i) + encode_utf8(cmd) + seq![0x0du8] + rest.typed,
                action: rest.action,
            })
        }),
{
    lemma_scan_unbound(b, buf, 0, i);
    lemma_chord_at(b, buf, i, 0);
    assert(b[k].seq.len() > 0);
    let rest = scanned(b, buf, i + b[k].seq.len());
    assert(buf.subrange(0, i) + (encode_utf8(cmd) + seq![0x0du8] + rest.typed) =~= buf.take(i)
        + encode_utf8(cmd) + seq![0x0du8] + rest.typed);
}

/// A selection within the list stays within it, and so does the entry that
/// a key acts on.
pub proof fn law_selection_in_range(actions: Seq<MgrAction>, i: int, selected: usize, count: usize)
    requires
        0 <= i,
        selected < count,
    ensures
        manager_applied(actions, i, selected, count).0 < count,
        match manager_applied(actions, i, selected, count).1 {
            MgrOutcome::Switch(k) => k < count,
            MgrOutcome::Rename(k) => k < count,
            MgrOutcome::Kill(k) => k < count,
            MgrOutcome::StartSearch(k) => k < count,
            _ => true,
        },
    decreases actions.len() - i,
{
    if i < actions.len() {
        match actions[i] {
            MgrAction::Up => law_selection_in_range(
                actions,
                i + 1,
                if selected > 0 {
                    (selected - 1) as usize
                } else {
                    0
                },
                count,
            ),
            MgrAction::Down => law_selection_in_range(
                actions,
                i + 1,
                moved_down(selected, count),
                count,
            ),
            _ => {},
        }
    }
}

/// The chord that opens a manager also closes it.
pub proof fn law_manager_chord_toggles(b: Seq<BindingView>, buf: Seq<u8>, k: int)
    requires
        buf.len() > 0,
        manager_chord_at(b, buf, 0, 0) == Some(k),
        b[k].seq == buf,
    ensures
        manager_keys(b, buf, 0) == seq![MgrAction::Close],
{
    assert(manager_keys(b, buf, buf.len() as int) == Seq::<MgrAction>::empty());
    assert(seq![MgrAction::Close] + Seq::<MgrAction>::empty() =~= seq![MgrAction::Close]);
}

/// Chords are matched longest-first: with the bindings in that order, the
/// chord found at a place is the longest that stands there.
pub proof fn law_longest_chord_wins(b: Seq<BindingView>, buf: Seq<u8>, i: int, j: int)
    requires
        longest_first(b),
        0 <= j < b.len(),
        begins_at(buf, i, b[j].seq),
    ensures
        chord_at(b, buf, i, 0) matches Some(k) && 0 <= k < b.len() && begins_at(buf, i, b[k].seq)
            && b[k].seq.len() >= b[j].seq.len(),
{
    lemma_chord_at(b, buf, i, 0);
    lemma_chord_first(b, buf, i, 0, j);
}

proof fn lemma_chord_first(b: Seq<BindingView>, buf: Seq<u8>, i: int, k: int, j: int)
    requires
        0 <= k <= j < b.len(),
        begins_at(buf, i, b[j].seq),
    ensures
        chord_at(b, buf, i, k) matches Some(f) && f <= j,
    decreases j - k,
{
    if k < j && !begins_at(buf, i, b[k].seq) {
        lemma_chord_first(b, buf, i, k + 1, j);
    }
}

} // verus!
