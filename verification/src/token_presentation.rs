//! The decisions behind inline tokens in a text input: whether they show,
//! whether one is selected, and whether a click activates one.

use std::ops::Range;
use vstd::prelude::*;

verus! {

/// Whether inline tokens show: not in a masked or secret field, not under
/// a mask pattern, and only when there are token spans.
pub fn tokens_visible(masked: bool, secret: bool, has_mask_pattern: bool, span_count: usize) -> (r: bool)
    ensures
        r == (!masked && !secret && !has_mask_pattern && span_count > 0),
{
    !masked && !secret && !has_mask_pattern && span_count != 0
}

/// Whether a token over `token` is selected: it overlaps the selection.
pub fn token_selected(token: Range<usize>, selection: Range<usize>) -> (r: bool)
    ensures
        r == (selection.start < token.end && token.start < selection.end),
{
    selection.start < token.end && token.start < selection.end
}

/// Whether a click on a token activates it: the input is enabled, tokens
/// show, the token is found and a click listener is installed.
pub fn token_activates(disabled: bool, visible: bool, found: bool, has_listener: bool) -> (r: bool)
    ensures
        r == (!disabled && visible && found && has_listener),
{
    !disabled && visible && found && has_listener
}

/// Whether the host field is secret, so tokens hide their labels.
pub fn token_is_secret(secret: bool) -> (r: bool)
    ensures
        r == secret,
{
    secret
}

} // verus!
