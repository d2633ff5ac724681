//! The sides of an input group that addons sit on, and the compact button
//! sizes used inside a group.

use vstd::prelude::*;

verus! {

/// The logical side of an addon relative to the text control.
#[derive(Clone, Copy, Debug, Default, PartialEq, Eq, Structural)]
pub enum InputGroupAddonAlignment {
    #[default]
    InlineStart,
    InlineEnd,
    BlockStart,
    BlockEnd,
}

/// Compact text and square-icon button sizes used inside input groups.
#[derive(Clone, Copy, Debug, Default, PartialEq, Eq, Structural)]
pub enum InputGroupButtonSize {
    #[default]
    XSmall,
    Small,
    IconXSmall,
    IconSmall,
}

/// Which sides of a group have at least one addon.
#[derive(Clone, Copy, Debug, PartialEq, Eq, Structural)]
pub struct AddonSides {
    pub inline_start: bool,
    pub inline_end: bool,
    pub block_start: bool,
    pub block_end: bool,
}

/// Whether some addon sits on side `side`.
pub open spec fn has_side(addons: Seq<InputGroupAddonAlignment>, side: InputGroupAddonAlignment) -> bool {
    exists|i: int| 0 <= i < addons.len() && addons[i] == side
}

/// The sides of a group that its addons, in order, sit on.
pub fn addon_sides(addons: &Vec<InputGroupAddonAlignment>) -> (r: AddonSides)
    ensures
        r.inline_start == has_side(addons@, InputGroupAddonAlignment::InlineStart),
        r.inline_end == has_side(addons@, InputGroupAddonAlignment::InlineEnd),
        r.block_start == has_side(addons@, InputGroupAddonAlignment::BlockStart),
        r.block_end == has_side(addons@, InputGroupAddonAlignment::BlockEnd),
{
    let mut sides = AddonSides { inline_start: false, inline_end: false, block_start: false, block_end: false };
    let n = addons.len();
    let mut i: usize = 0;
    while i < n
        invariant
            n == addons@.len(),
            i <= n,
            sides.inline_start == has_side(addons@.take(i as int), InputGroupAddonAlignment::InlineStart),
            sides.inline_end == has_side(addons@.take(i as int), InputGroupAddonAlignment::InlineEnd),
            sides.block_start == has_side(addons@.take(i as int), InputGroupAddonAlignment::BlockStart),
            sides.block_end == has_side(addons@.take(i as int), InputGroupAddonAlignment::BlockEnd),
        decreases n - i,
    {
        let a = addons[i];
        let ghost before = addons@.take(i as int);
        let ghost after = addons@.take(i + 1);
        assert(after == before.push(a));
        match a {
            InputGroupAddonAlignment::InlineStart => sides.inline_start = true,
            InputGroupAddonAlignment::InlineEnd => sides.inline_end = true,
            InputGroupAddonAlignment::BlockStart => sides.block_start = true,
            InputGroupAddonAlignment::BlockEnd => sides.block_end = true,
        }
        proof {
            assert(after[i as int] == a);
            assert forall|side: InputGroupAddonAlignment| #[trigger] has_side(after, side) == (has_side(before, side) || side == a) by {
                if has_side(after, side) && side != a {
                    let j = choose|j: int| 0 <= j < after.len() && after[j] == side;
                    assert(before[j] == after[j]);
                }
                if has_side(before, side) {
                    let j = choose|j: int| 0 <= j < before.len() && before[j] == side;
                    assert(after[j] == before[j]);
                }
            }
        }
        i = i + 1;
    }
    assert(addons@.take(n as int) == addons@);
    sides
}

} // verus!
