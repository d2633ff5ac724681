//! Verified core of a GPUI component kit: window behaviour flags, the
//! folding projection of a code editor, editing rules, and the structured
//! Markdown document model behind the rich text editor.

pub mod accessibility;
pub mod document;
pub mod edit_rules;
pub mod editor;
pub mod fold_map;
pub mod grapheme;
pub mod haptics;
pub mod input_group;
pub mod language_config;
pub mod line_join;
pub mod list_edit;
pub mod markdown;
pub mod plot;
pub mod questionnaire;
pub mod range_highlight;
pub mod recent_projects;
pub mod resize;
pub mod round_trip;
pub mod terminal_keys;
pub mod terminal_runs;
pub mod token_presentation;
pub mod touch_selection;
pub mod utf16;
pub mod window_ext;
