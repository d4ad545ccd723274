use vstd::prelude::*;

verus! {

/// A player's token colour. `Red` moves first; positive score entries favour
/// `Red`, negative entries favour `Yellow`.
#[derive(Clone, Copy, Debug, PartialEq, Eq, Structural)]
pub enum Color {
    Red,
    Yellow,
}

impl Color {
    /// The opposing colour.
    pub open spec fn spec_other(self) -> Color {
        match self {
            Color::Red => Color::Yellow,
            Color::Yellow => Color::Red,
        }
    }

    /// The opposing colour; an involution.
    pub fn other(&self) -> (c: Color)
        ensures
            c == self.spec_other(),
    {
        match self {
            Color::Red => Color::Yellow,
            Color::Yellow => Color::Red,
        }
    }
}

} // verus!
