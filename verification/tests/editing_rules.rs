use gpui_base::edit_rules::{
    auto_close_action, c_style_pairs, is_plain_text, language_rules, matching_close, AutoClose, BracketPair,
    EditRules,
};

#[test]
fn known_languages_get_default_pairs() {
    for language in ["rust", "json", "html", "python", "rs", "yml"] {
        let rules = language_rules(language);
        assert_eq!(rules.pairs.len(), 5, "{language}");
        assert!(rules.auto_close, "{language}");
        assert!(rules.smart_indent, "{language}");
        assert!(rules.indent_triggers.contains(&'{'), "{language}");
    }
}

#[test]
fn plain_text_gets_no_pairs_or_triggers() {
    for language in ["text", "plain", "plaintext", "TEXT"] {
        let rules = language_rules(language);
        assert!(rules.pairs.is_empty(), "{language}");
        assert!(rules.indent_triggers.is_empty(), "{language}");
    }
}

#[test]
fn unknown_language_falls_back_to_default() {
    let rules = language_rules("not-a-language");
    let default = EditRules::default();
    assert_eq!(rules.pairs, default.pairs);
    assert_eq!(rules.indent_triggers, default.indent_triggers);
    assert_eq!(rules.auto_close, default.auto_close);
    assert_eq!(rules.smart_indent, default.smart_indent);
}

#[test]
fn plain_text_names_match_case_insensitively() {
    assert!(is_plain_text("PlainText"));
    assert!(is_plain_text("Plain"));
    assert!(!is_plain_text("plain text"));
    assert!(!is_plain_text(""));
}

#[test]
fn rules_find_closers_and_indent_triggers() {
    let rules = EditRules::default();
    assert_eq!(rules.matching_close('('), Some(')'));
    assert_eq!(rules.matching_close('"'), Some('"'));
    assert_eq!(rules.matching_close('<'), None);
    assert!(rules.is_closer(']'));
    assert!(!rules.is_closer('['));
    assert!(rules.opens_indent("fn main() {"));
    assert!(rules.opens_indent("if x:"));
    assert!(!rules.opens_indent("let x = 1;"));
    assert!(!rules.opens_indent(""));
    let pairs = c_style_pairs();
    assert_eq!(pairs[0], BracketPair { open: '(', close: ')' });
    assert_eq!(pairs.len(), 5);
    let custom = EditRules {
        pairs: vec![BracketPair { open: '<', close: '>' }, BracketPair { open: '<', close: ']' }],
        indent_triggers: vec!['>'],
        auto_close: true,
        smart_indent: false,
    };
    assert_eq!(custom.matching_close('<'), Some('>'));
    assert!(custom.opens_indent("<a>"));
}

#[test]
fn auto_close_pairs_openers_and_skips_closers() {
    assert_eq!(matching_close('{'), Some('}'));
    assert_eq!(matching_close('a'), None);
    assert_eq!(auto_close_action(true, true, "(", true, None, None), AutoClose::Insert(')'));
    assert_eq!(auto_close_action(true, true, ")", true, Some('('), Some(')')), AutoClose::SkipOver);
    assert_eq!(auto_close_action(true, true, "'", true, Some('n'), Some('t')), AutoClose::Keep);
    assert_eq!(auto_close_action(true, true, "'", true, Some(' '), None), AutoClose::Insert('\''));
    assert_eq!(auto_close_action(true, true, "\"", true, Some('x'), Some('"')), AutoClose::Keep);
    assert_eq!(auto_close_action(true, true, "\"", true, Some(' '), Some('"')), AutoClose::SkipOver);
    assert_eq!(auto_close_action(false, true, "(", true, None, None), AutoClose::Keep);
    assert_eq!(auto_close_action(true, false, "(", true, None, None), AutoClose::Keep);
    assert_eq!(auto_close_action(true, true, "((", true, None, None), AutoClose::Keep);
    assert_eq!(auto_close_action(true, true, "(", false, None, None), AutoClose::Keep);
    assert_eq!(auto_close_action(true, true, "x", true, None, None), AutoClose::Keep);
}
