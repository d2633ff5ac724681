use gpui_base::questionnaire::{choice_position, key_action, QuestionnaireKeyAction, QuestionnaireKeyContext};

fn at_root() -> QuestionnaireKeyContext {
    QuestionnaireKeyContext {
        default_prevented: false,
        held: false,
        prefer_character_input: false,
        ime_in_progress: false,
        modifier_count: 0,
        secondary: false,
        input_focused: false,
        input_has_text: false,
        single_radio_focused: false,
        answer_filled: false,
        confirmable: false,
    }
}

#[test]
fn held_and_handled_keys_are_left_alone() {
    let held = QuestionnaireKeyContext { held: true, ..at_root() };
    assert_eq!(key_action("a", held), QuestionnaireKeyAction::Ignore);
    let taken = QuestionnaireKeyContext { default_prevented: true, ..at_root() };
    assert_eq!(key_action("enter", taken), QuestionnaireKeyAction::Ignore);
    let composing = QuestionnaireKeyContext { ime_in_progress: true, ..at_root() };
    assert_eq!(key_action("down", composing), QuestionnaireKeyAction::Ignore);
}

#[test]
fn main_modifier_enter_confirms_anywhere() {
    let c = QuestionnaireKeyContext { modifier_count: 1, secondary: true, input_focused: true, ..at_root() };
    assert_eq!(key_action("enter", c), QuestionnaireKeyAction::Confirm);
    let shifted = QuestionnaireKeyContext { modifier_count: 1, ..at_root() };
    assert_eq!(key_action("enter", shifted), QuestionnaireKeyAction::Ignore);
    assert_eq!(key_action("a", shifted), QuestionnaireKeyAction::Ignore);
}

#[test]
fn empty_input_enter_stays_put_and_arrows_move_to_answers() {
    let empty = QuestionnaireKeyContext { input_focused: true, ..at_root() };
    assert_eq!(key_action("enter", empty), QuestionnaireKeyAction::Ignore);
    assert_eq!(key_action("up", empty), QuestionnaireKeyAction::FocusPrevious { or_radio: false });
    assert_eq!(key_action("down", empty), QuestionnaireKeyAction::FocusNext { or_radio: false });
    assert_eq!(key_action("x", empty), QuestionnaireKeyAction::Ignore);
    let filled = QuestionnaireKeyContext { answer_filled: true, input_has_text: true, ..empty };
    assert_eq!(key_action("enter", filled), QuestionnaireKeyAction::Confirm);
}

#[test]
fn filled_input_keeps_text_editing_directions() {
    let c = QuestionnaireKeyContext { input_focused: true, input_has_text: true, ..at_root() };
    assert_eq!(key_action("up", c), QuestionnaireKeyAction::Ignore);
    assert_eq!(key_action("down", c), QuestionnaireKeyAction::Ignore);
    assert_eq!(key_action("left", c), QuestionnaireKeyAction::Ignore);
}

#[test]
fn root_keys_navigate_and_keep_radio_semantics() {
    let radio = QuestionnaireKeyContext { single_radio_focused: true, ..at_root() };
    assert_eq!(key_action("up", radio), QuestionnaireKeyAction::FocusPrevious { or_radio: true });
    assert_eq!(key_action("down", radio), QuestionnaireKeyAction::FocusNext { or_radio: true });
    assert_eq!(key_action("left", radio), QuestionnaireKeyAction::MoveRadio { forward: false });
    assert_eq!(key_action("right", radio), QuestionnaireKeyAction::MoveRadio { forward: true });
    let root = at_root();
    assert_eq!(key_action("left", root), QuestionnaireKeyAction::GoPrevious);
    assert_eq!(key_action("right", root), QuestionnaireKeyAction::Ignore);
    let confirmable = QuestionnaireKeyContext { confirmable: true, ..at_root() };
    assert_eq!(key_action("right", confirmable), QuestionnaireKeyAction::GoNext);
    assert_eq!(key_action("enter", root), QuestionnaireKeyAction::Ignore);
    let selected = QuestionnaireKeyContext { answer_filled: true, ..at_root() };
    assert_eq!(key_action("enter", selected), QuestionnaireKeyAction::Confirm);
    assert_eq!(key_action("b", root), QuestionnaireKeyAction::ActivateShortcut);
}

#[test]
fn choices_are_counted_among_the_enabled_ones() {
    let choices = vec![(true, false), (false, false), (true, true), (true, false)];
    assert_eq!(choice_position(&choices), Some((2, 3)));
    assert_eq!(choice_position(&vec![(false, true), (true, false)]), None);
    assert_eq!(choice_position(&vec![(true, true), (true, true)]), Some((1, 2)));
    assert_eq!(choice_position(&vec![]), None);
}
