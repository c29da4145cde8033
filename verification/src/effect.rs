//! What the state machines ask the terminals and shells to do.

use vstd::prelude::*;

verus! {

/// One request to the terminal or the shell of a pane, performed in order.
pub enum Effect {
    /// Start a shell in a terminal of this size.
    Spawn { pane: u64, w: u16, h: u16 },
    /// Give the terminal and its shell this size. A failure ends the server
    /// when `required`, and is ignored otherwise.
    Resize { pane: u64, w: u16, h: u16, required: bool },
    /// Type bytes into the shell.
    Write { pane: u64, bytes: Vec<u8> },
    /// Scroll the view by this many lines (negative is up).
    Scroll { pane: u64, delta: i32 },
    /// Scroll the view to the live bottom.
    ScrollBottom { pane: u64 },
    /// Remove the visible selection.
    ClearSelection { pane: u64 },
}

/// A request with its bytes as a sequence.
pub enum EffectView {
    Spawn { pane: u64, w: u16, h: u16 },
    Resize { pane: u64, w: u16, h: u16, required: bool },
    Write { pane: u64, bytes: Seq<u8> },
    Scroll { pane: u64, delta: i32 },
    ScrollBottom { pane: u64 },
    ClearSelection { pane: u64 },
}

impl View for Effect {
    type V = EffectView;

    open spec fn view(&self) -> EffectView {
        match *self {
            Effect::Spawn { pane, w, h } => EffectView::Spawn { pane, w, h },
            Effect::Resize { pane, w, h, required } => EffectView::Resize { pane, w, h, required },
            Effect::Write { pane, bytes } => EffectView::Write { pane, bytes: bytes@ },
            Effect::Scroll { pane, delta } => EffectView::Scroll { pane, delta },
            Effect::ScrollBottom { pane } => EffectView::ScrollBottom { pane },
            Effect::ClearSelection { pane } => EffectView::ClearSelection { pane },
        }
    }
}

/// A list of requests with their bytes as sequences.
pub open spec fn effects(s: Seq<Effect>) -> Seq<EffectView> {
    s.map_values(|e: Effect| e@)
}

/// Add a request to the end of the list.
pub fn request(fx: &mut Vec<Effect>, e: Effect)
    ensures
        effects(final(fx)@) == effects(old(fx)@).push(e@),
{
    fx.push(e);
    assert(effects(fx@) =~= effects(old(fx)@).push(e@));
}

} // verus!
