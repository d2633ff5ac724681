use gpui_base::accessibility::{default_role, exposes_accessibility_value, InputContentType, InputRole};
use gpui_base::haptics::HapticFeedback;
use gpui_base::input_group::{addon_sides, InputGroupAddonAlignment, InputGroupButtonSize};
use gpui_base::plot::{AxisLabelPlacement, AxisLabelSide, Curve};
use gpui_base::range_highlight::RangeHighlightError;
use gpui_base::token_presentation::{token_activates, token_is_secret, token_selected, tokens_visible};
use gpui_base::touch_selection::SelectionEdge;

#[test]
fn opposite_edges_swap() {
    assert_eq!(SelectionEdge::Start.opposite(), SelectionEdge::End);
    assert_eq!(SelectionEdge::End.opposite(), SelectionEdge::Start);
    assert_eq!(SelectionEdge::Start.opposite().opposite(), SelectionEdge::Start);
}

#[test]
fn defaults_of_presentation_enums() {
    assert_eq!(Curve::default(), Curve::Natural);
    assert_eq!(AxisLabelSide::default(), AxisLabelSide::End);
    assert_eq!(AxisLabelPlacement::default(), AxisLabelPlacement::Outside);
    assert_eq!(InputGroupAddonAlignment::default(), InputGroupAddonAlignment::InlineStart);
    assert_eq!(InputGroupButtonSize::default(), InputGroupButtonSize::XSmall);
    assert_ne!(HapticFeedback::Selection, HapticFeedback::Impact);
    assert_ne!(RangeHighlightError::InvalidRange(1), RangeHighlightError::InvalidRange(2));
    assert_ne!(RangeHighlightError::Unsupported, RangeHighlightError::InvalidRange(0));
}

#[test]
fn addon_sides_report_each_side_present() {
    let sides = addon_sides(&vec![
        InputGroupAddonAlignment::InlineEnd,
        InputGroupAddonAlignment::BlockStart,
        InputGroupAddonAlignment::InlineEnd,
    ]);
    assert!(!sides.inline_start);
    assert!(sides.inline_end);
    assert!(sides.block_start);
    assert!(!sides.block_end);
    let none = addon_sides(&Vec::new());
    assert!(!none.inline_start && !none.inline_end && !none.block_start && !none.block_end);
}

#[test]
fn passwords_and_masked_inputs_hide_their_value() {
    assert!(exposes_accessibility_value(false, None));
    assert!(exposes_accessibility_value(false, Some(InputContentType::Username)));
    assert!(!exposes_accessibility_value(true, None));
    assert!(!exposes_accessibility_value(false, Some(InputContentType::Password)));
    assert!(!exposes_accessibility_value(false, Some(InputContentType::NewPassword)));
}

#[test]
fn tokens_show_only_in_plain_fields_with_spans() {
    assert!(tokens_visible(false, false, false, 2));
    assert!(!tokens_visible(true, false, false, 2));
    assert!(!tokens_visible(false, true, false, 2));
    assert!(!tokens_visible(false, false, true, 2));
    assert!(!tokens_visible(false, false, false, 0));
    assert!(token_selected(2..5, 4..8));
    assert!(!token_selected(2..5, 5..8));
    assert!(!token_selected(2..5, 0..2));
    assert!(token_activates(false, true, true, true));
    assert!(!token_activates(true, true, true, true));
    assert!(!token_activates(false, true, true, false));
    assert!(token_is_secret(true));
    assert!(!token_is_secret(false));
}

#[test]
fn inputs_announce_the_role_of_their_content() {
    assert_eq!(default_role(true, Some(InputContentType::Password)), InputRole::MultilineTextInput);
    assert_eq!(default_role(false, None), InputRole::TextInput);
    assert_eq!(default_role(false, Some(InputContentType::TelephoneNumber)), InputRole::PhoneNumberInput);
    assert_eq!(default_role(false, Some(InputContentType::EmailAddress)), InputRole::EmailInput);
    assert_eq!(default_role(false, Some(InputContentType::Url)), InputRole::UrlInput);
    assert_eq!(default_role(false, Some(InputContentType::NewPassword)), InputRole::PasswordInput);
    assert_eq!(default_role(false, Some(InputContentType::DateTime)), InputRole::DateTimeInput);
    assert_eq!(default_role(false, Some(InputContentType::Birthdate)), InputRole::DateInput);
    assert_eq!(default_role(false, Some(InputContentType::CreditCardNumber)), InputRole::TextInput);
}
