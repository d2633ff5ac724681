//! How a questionnaire answers a key press that none of its controls took:
//! confirming, moving focus between answers, moving a radio selection,
//! going back and forth between items, and choice shortcuts; and where a
//! choice stands among the enabled ones.

use vstd::prelude::*;
use crate::edit_rules::spells;
use crate::utf16::chars_of;

verus! {

/// What a key press asks of the questionnaire.
#[derive(Clone, Copy, Debug, PartialEq, Eq, Structural)]
pub enum QuestionnaireKeyAction {
    /// Nothing: the key is left to others.
    Ignore,
    /// Confirm the current item.
    Confirm,
    /// Focus the previous answer; when there is none and `or_radio`, move
    /// the selected radio back instead.
    FocusPrevious { or_radio: bool },
    /// Focus the next answer; when there is none and `or_radio`, move the
    /// selected radio forward instead.
    FocusNext { or_radio: bool },
    /// Move the selected radio forward (or back).
    MoveRadio { forward: bool },
    /// Go to the previous item.
    GoPrevious,
    /// Go to the next item.
    GoNext,
    /// Activate the choice whose shortcut the key is.
    ActivateShortcut,
}

/// The key press and where focus is, as the questionnaire sees them.
#[derive(Clone, Copy, Debug, PartialEq, Eq, Structural)]
pub struct QuestionnaireKeyContext {
    /// Another handler already took the event.
    pub default_prevented: bool,
    /// The key is held down and repeating.
    pub held: bool,
    /// The key is meant as character input.
    pub prefer_character_input: bool,
    /// An input method is composing.
    pub ime_in_progress: bool,
    /// How many modifiers are down.
    pub modifier_count: usize,
    /// Whether the platform's main modifier (command or control) is down.
    pub secondary: bool,
    /// Whether the current item's text input has focus.
    pub input_focused: bool,
    /// Whether that input holds text.
    pub input_has_text: bool,
    /// Whether a choice of a single-choice item has focus.
    pub single_radio_focused: bool,
    /// Whether the focused answer is filled: the input holds an answer, or
    /// the focused choice is selected.
    pub answer_filled: bool,
    /// Whether the current item can be confirmed.
    pub confirmable: bool,
}

/// What the key `key` asks of the questionnaire in context `c`: nothing
/// for a handled, held, character or composing key; the main modifier with
/// Enter confirms; with other modifiers nothing. In a focused input, Enter
/// confirms a filled answer and the up and down arrows move between answers
/// while the input is empty. Elsewhere the up and down arrows move between
/// answers (else move a focused radio selection), left and right move a
/// focused radio selection or go back and forth between items (forth only
/// when the item can be confirmed), Enter confirms a filled answer, and any
/// other key may be a choice's shortcut.
pub open spec fn spec_key_action(key: Seq<char>, c: QuestionnaireKeyContext) -> QuestionnaireKeyAction {
    if c.default_prevented || c.held || c.prefer_character_input || c.ime_in_progress {
        QuestionnaireKeyAction::Ignore
    } else if key == "enter"@ && c.secondary && c.modifier_count == 1 {
        QuestionnaireKeyAction::Confirm
    } else if c.modifier_count != 0 {
        QuestionnaireKeyAction::Ignore
    } else if c.input_focused {
        if key == "enter"@ && c.answer_filled {
            QuestionnaireKeyAction::Confirm
        } else if key == "up"@ && !c.input_has_text {
            QuestionnaireKeyAction::FocusPrevious { or_radio: false }
        } else if key == "down"@ && !c.input_has_text {
            QuestionnaireKeyAction::FocusNext { or_radio: false }
        } else {
            QuestionnaireKeyAction::Ignore
        }
    } else if key == "up"@ {
        QuestionnaireKeyAction::FocusPrevious { or_radio: c.single_radio_focused }
    } else if key == "down"@ {
        QuestionnaireKeyAction::FocusNext { or_radio: c.single_radio_focused }
    } else if key == "left"@ {
        if c.single_radio_focused {
            QuestionnaireKeyAction::MoveRadio { forward: false }
        } else {
            QuestionnaireKeyAction::GoPrevious
        }
    } else if key == "right"@ {
        if c.single_radio_focused {
            QuestionnaireKeyAction::MoveRadio { forward: true }
        } else if c.confirmable {
            QuestionnaireKeyAction::GoNext
        } else {
            QuestionnaireKeyAction::Ignore
        }
    } else if key == "enter"@ {
        if c.answer_filled {
            QuestionnaireKeyAction::Confirm
        } else {
            QuestionnaireKeyAction::Ignore
        }
    } else {
        QuestionnaireKeyAction::ActivateShortcut
    }
}

/// What the key `key` asks of the questionnaire (see `spec_key_action`).
pub fn key_action(key: &str, c: QuestionnaireKeyContext) -> (r: QuestionnaireKeyAction)
    ensures
        r == spec_key_action(key@, c),
{
    if c.default_prevented || c.held || c.prefer_character_input || c.ime_in_progress {
        return QuestionnaireKeyAction::Ignore;
    }
    let k = chars_of(key);
    let enter = spells(&k, "enter");
    let up = spells(&k, "up");
    let down = spells(&k, "down");
    let left = spells(&k, "left");
    let right = spells(&k, "right");
    if enter && c.secondary && c.modifier_count == 1 {
        QuestionnaireKeyAction::Confirm
    } else if c.modifier_count != 0 {
        QuestionnaireKeyAction::Ignore
    } else if c.input_focused {
        if enter && c.answer_filled {
            QuestionnaireKeyAction::Confirm
        } else if up && !c.input_has_text {
            QuestionnaireKeyAction::FocusPrevious { or_radio: false }
        } else if down && !c.input_has_text {
            QuestionnaireKeyAction::FocusNext { or_radio: false }
        } else {
            QuestionnaireKeyAction::Ignore
        }
    } else if up {
        QuestionnaireKeyAction::FocusPrevious { or_radio: c.single_radio_focused }
    } else if down {
        QuestionnaireKeyAction::FocusNext { or_radio: c.single_radio_focused }
    } else if left {
        if c.single_radio_focused {
            QuestionnaireKeyAction::MoveRadio { forward: false }
        } else {
            QuestionnaireKeyAction::GoPrevious
        }
    } else if right {
        if c.single_radio_focused {
            QuestionnaireKeyAction::MoveRadio { forward: true }
        } else if c.confirmable {
            QuestionnaireKeyAction::GoNext
        } else {
            QuestionnaireKeyAction::Ignore
        }
    } else if enter {
        if c.answer_filled {
            QuestionnaireKeyAction::Confirm
        } else {
            QuestionnaireKeyAction::Ignore
        }
    } else {
        QuestionnaireKeyAction::ActivateShortcut
    }
}

/// The number of enabled choices among `choices`, each given as whether it
/// is enabled and whether it holds the value asked about.
pub open spec fn enabled_count(choices: Seq<(bool, bool)>) -> nat
    decreases choices.len(),
{
    if choices.len() == 0 {
        0
    } else {
        enabled_count(choices.drop_last()) + if choices.last().0 { 1nat } else { 0nat }
    }
}

/// The first enabled choice from `i` on that holds the value, or the
/// number of choices.
pub open spec fn first_enabled_match(choices: Seq<(bool, bool)>, i: int) -> int
    decreases choices.len() - i,
{
    if 0 <= i < choices.len() && !(choices[i].0 && choices[i].1) {
        first_enabled_match(choices, i + 1)
    } else {
        i
    }
}

/// Where the choice holding the value stands among the enabled choices,
/// counted from one, and how many are enabled; none when no enabled choice
/// holds it.
pub open spec fn spec_choice_position(choices: Seq<(bool, bool)>) -> Option<(nat, nat)> {
    let f = first_enabled_match(choices, 0);
    if f < choices.len() {
        Some((enabled_count(choices.take(f)) + 1, enabled_count(choices)))
    } else {
        None
    }
}

/// Where a choice stands among the enabled choices of its item, counted
/// from one, with how many are enabled, as assistive technology announces
/// it: `choices` gives, for each choice in order, whether it is enabled and
/// whether it holds this choice's value.
pub fn choice_position(choices: &Vec<(bool, bool)>) -> (r: Option<(usize, usize)>)
    ensures
        r matches Some((p, t)) ==> spec_choice_position(choices@) == Some((p as nat, t as nat)),
        r is None <==> spec_choice_position(choices@) is None,
{
    let n = choices.len();
    let mut count: usize = 0;
    let mut found: Option<usize> = None;
    let mut i: usize = 0;
    while i < n
        invariant
            i <= n,
            n == choices@.len(),
            count == enabled_count(choices@.take(i as int)),
            count <= i,
            found is None ==> first_enabled_match(choices@, 0) == first_enabled_match(choices@, i as int),
            found matches Some(p) ==> first_enabled_match(choices@, 0) < i && p == enabled_count(
                choices@.take(first_enabled_match(choices@, 0)),
            ) + 1,
        decreases n - i,
    {
        proof {
            assert(choices@.take(i + 1).drop_last() == choices@.take(i as int));
            assert(choices@.take(i + 1).last() == choices@[i as int]);
        }
        let (enabled, matches) = choices[i];
        if found.is_none() && enabled && matches {
            found = Some(count + 1);
        }
        if enabled {
            count = count + 1;
        }
        i = i + 1;
    }
    assert(choices@.take(n as int) == choices@);
    match found {
        Some(p) => Some((p, count)),
        None => None,
    }
}

} // verus!
