//! The interaction state of a resize handle, and the shared cell that the
//! handle's mouse listeners write it into.

use std::cell::Cell;
use std::rc::Rc;
use vstd::prelude::*;

verus! {

/// How far the pointer has gone with a resize handle.
#[derive(Clone, Copy, Debug, Default, PartialEq, Eq, Structural)]
pub enum ResizeHandleState {
    /// The pointer is somewhere else.
    #[default]
    Idle,
    /// The pointer is over the handle's band.
    Hovered,
    /// The pointer went down on the handle and has not moved since.
    Pressed,
    /// The handle is being dragged.
    Dragging,
}

impl ResizeHandleState {
    /// Whether the pointer owns the handle: pressed on it, or dragging it.
    pub fn is_active(self) -> (r: bool)
        ensures
            r == (self is Pressed || self is Dragging),
    {
        match self {
            ResizeHandleState::Pressed | ResizeHandleState::Dragging => true,
            _ => false,
        }
    }
}

/// Which edge of its own container a handle hugs.
#[derive(Clone, Copy, Debug, PartialEq, Eq, Structural)]
pub enum HandleEdge {
    /// Where the axis starts.
    Leading,
    /// Where the axis ends.
    Trailing,
}

#[verifier::external_type_specification]
#[verifier::external_body]
#[verifier::reject_recursive_types(T)]
pub struct ExCell<T: ?Sized>(Cell<T>);

/// The value in a cell, from `Cell::get`. What it holds depends on the
/// writes made through every handle to the cell, which this library does
/// not track, so nothing is stated of the result.
#[verifier::external_body]
fn cell_get(cell: &Cell<ResizeHandleState>) -> (r: ResizeHandleState) {
    cell.get()
}

/// Put `value` into a cell and return what it held, from `Cell::replace`.
/// What it held is not tracked, so nothing is stated of the result.
#[verifier::external_body]
fn cell_replace(cell: &Cell<ResizeHandleState>, value: ResizeHandleState) -> (r: ResizeHandleState) {
    cell.replace(value)
}

/// Whether moving from `previous` to `next` is a change worth a repaint.
pub fn changed(previous: ResizeHandleState, next: ResizeHandleState) -> (r: bool)
    ensures
        r == (previous != next),
{
    previous != next
}

/// A handle state shared by every clone: the handle and each of its mouse
/// listeners hold the same cell.
#[derive(Clone, Default)]
pub struct SharedHandleState {
    state: Rc<Cell<ResizeHandleState>>,
}

impl SharedHandleState {
    /// The current state.
    pub fn get(&self) -> ResizeHandleState {
        cell_get(&self.state)
    }

    /// Store `state`, reporting whether it differs from the state before, so
    /// a listener repaints only when there is something new to paint. The
    /// state before lives in the shared cell, which is not tracked here; the
    /// comparison is `changed`.
    pub fn set(&self, state: ResizeHandleState) -> (r: bool) {
        let previous = cell_replace(&self.state, state);
        changed(previous, state)
    }
}

} // verus!
