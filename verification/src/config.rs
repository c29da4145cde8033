//! The configuration as the state machines read it.

use crate::ansi::Color;
use crate::layout::NavDir;
use vstd::prelude::*;

verus! {

/// Which manager overlay is on screen (or being named for).
#[derive(Clone, Copy, PartialEq, Eq, Structural)]
pub enum Overlay {
    /// Sessions: named groups of tabs. `agents` selects which list is
    /// shown: normal sessions or agent sessions (toggled with `a`).
    Sessions { agents: bool },
    /// Tabs of the currently viewed session.
    Tabs,
}

/// A control chord found in the input stream.
#[derive(Clone, Copy, PartialEq, Eq, Structural)]
pub enum InputAction {
    /// Open a manager overlay.
    Manager(Overlay),
    /// Split the focused pane horizontally (stacked).
    SplitH,
    /// Split the focused pane vertically (side by side).
    SplitV,
    /// Move focus to the next pane.
    FocusNext,
    /// Move focus directionally.
    FocusDir(NavDir),
    /// Detach the client from the server.
    Detach,
    /// Toggle fullscreen for the focused pane.
    Fullscreen,
    /// Switch to the pinned session at this index in `Config::pins`,
    /// starting it if it isn't running.
    OpenSession(usize),
}

/// A session with a fixed place in the session list.
pub struct Pin {
    pub name: String,
}

/// What a bound chord does.
pub enum BindingAction {
    Control(InputAction),
    /// Type this program and Enter into the focused pane.
    Run(String),
}

/// A chord, as the bytes a terminal sends for it, and what it does.
pub struct Binding {
    pub seq: Vec<u8>,
    pub action: BindingAction,
}

/// Where the tab bar stands.
#[derive(Clone, Copy, PartialEq, Eq, Structural)]
pub enum BarPosition {
    Bottom,
    Top,
}

/// The configuration. Bindings are matched in order.
pub struct Config {
    pub accent: Color,
    pub bar_position: BarPosition,
    /// Mouse select-to-copy.
    pub select_copy: bool,
    /// Pinned sessions, in slot order.
    pub pins: Vec<Pin>,
    pub bindings: Vec<Binding>,
}

/// What a bound chord does, with the program as a sequence of characters.
pub enum ActionView {
    Control(InputAction),
    Run(Seq<char>),
}

/// A chord and what it does.
pub struct BindingView {
    pub seq: Seq<u8>,
    pub action: ActionView,
}

impl View for Binding {
    type V = BindingView;

    open spec fn view(&self) -> BindingView {
        BindingView {
            seq: self.seq@,
            action: match self.action {
                BindingAction::Control(a) => ActionView::Control(a),
                BindingAction::Run(s) => ActionView::Run(s@),
            },
        }
    }
}

/// Bindings with their chords as sequences.
pub open spec fn binding_views(s: Seq<Binding>) -> Seq<BindingView> {
    s.map_values(|b: Binding| b@)
}

/// The names of the pinned sessions, in slot order.
pub open spec fn pin_names(s: Seq<Pin>) -> Seq<Seq<char>> {
    s.map_values(|p: Pin| p.name@)
}

/// No chord is empty: every match makes progress.
pub open spec fn chords_ok(b: Seq<BindingView>) -> bool {
    forall|i: int| 0 <= i < b.len() ==> (#[trigger] b[i]).seq.len() > 0
}

/// Longer chords come before shorter ones.
pub open spec fn longest_first(b: Seq<BindingView>) -> bool {
    forall|i: int, j: int|
        0 <= i < j < b.len() ==> (#[trigger] b[i]).seq.len() >= (#[trigger] b[j]).seq.len()
}

impl Config {
    /// The names of the pinned sessions, in slot order.
    pub open spec fn names(self) -> Seq<Seq<char>> {
        pin_names(self.pins@)
    }

    /// The bindings with their chords as sequences.
    pub open spec fn chords(self) -> Seq<BindingView> {
        binding_views(self.bindings@)
    }
}

} // verus!
