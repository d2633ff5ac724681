//! The kinds of haptic feedback a behavior may ask a host for.

use vstd::prelude::*;

verus! {

/// The kinds of feedback a behavior may ask for, named after what happened
/// rather than after a motor pattern, so a host maps each to its own idiom.
#[derive(Clone, Copy, Debug, PartialEq, Eq, Hash, Structural)]
pub enum HapticFeedback {
    /// A selection was taken or changed under a finger.
    Selection,
    /// Something snapped or locked in.
    Impact,
}

} // verus!
