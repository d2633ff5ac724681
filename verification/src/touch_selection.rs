//! The ends of a touch selection, as its grab handles hold them.

use vstd::prelude::*;

verus! {

/// One end of a selection, as a touch handle grabs it.
#[derive(Clone, Copy, Debug, PartialEq, Eq, Hash, Structural)]
pub enum SelectionEdge {
    /// The end before the first selected character.
    Start,
    /// The end after the last selected character.
    End,
}

impl SelectionEdge {
    /// The end that stays put while this one is dragged.
    pub fn opposite(self) -> (r: Self)
        ensures
            r == opposite_of(self),
            r != self,
    {
        match self {
            SelectionEdge::Start => SelectionEdge::End,
            SelectionEdge::End => SelectionEdge::Start,
        }
    }
}

/// Taking the opposite end twice gives the end back: dragging one handle
/// and then the other never loses track of either end.
pub proof fn lemma_opposite_involution(edge: SelectionEdge)
    ensures
        opposite_of(opposite_of(edge)) == edge,
{
}

/// The opposite end, as a value.
pub open spec fn opposite_of(edge: SelectionEdge) -> SelectionEdge {
    match edge {
        SelectionEdge::Start => SelectionEdge::End,
        SelectionEdge::End => SelectionEdge::Start,
    }
}

} // verus!
