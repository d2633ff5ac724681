use gpui_base::language_config::{
    classify, AutoClosingPair, BracketPair, IndentPattern, IndentationRules, LanguageConfig, SyntaxContext,
};

#[test]
fn default_config_closes_brackets_and_quotes_outside_strings() {
    let config = LanguageConfig::default();
    let pairs = config.closing_pairs();
    assert_eq!(pairs.len(), 5);
    assert_eq!(pairs[0].0, "(");
    assert_eq!(pairs[0].1, ")");
    assert_eq!(pairs[4].0, "'");
    assert_eq!(pairs[4].2, vec![SyntaxContext::String, SyntaxContext::Comment]);
    assert_eq!(config.auto_close_before, ";:.,=}])>");
}

#[test]
fn brackets_close_when_no_pairs_are_configured_and_empty_pairs_are_ignored() {
    let mut config = LanguageConfig::default();
    config.auto_closing_pairs = None;
    let config = config.brackets(vec![BracketPair::new("<", ">"), BracketPair::new("", ")")]);
    let pairs = config.closing_pairs();
    assert_eq!(pairs.len(), 1);
    assert_eq!(pairs[0].0, "<");
    assert!(pairs[0].2.is_empty());
    let none = LanguageConfig::default().auto_closing_pairs(vec![]);
    assert!(none.closing_pairs().is_empty());
    let comment = LanguageConfig::default()
        .auto_closing_pairs(vec![AutoClosingPair::new("/*", "*/").not_in(vec![SyntaxContext::String])]);
    assert_eq!(comment.closing_pairs()[0].0, "/*");
}

#[test]
fn indentation_follows_brackets_or_patterns() {
    let config = LanguageConfig::default();
    assert!(config.opens_indent("fn main() {  "));
    assert!(config.opens_indent("call("));
    assert!(!config.opens_indent("x = 1;"));
    assert!(!config.closes_indent("}"));
    let rules = IndentationRules::new(
        IndentPattern::new(r":\s*$").unwrap(),
        IndentPattern::new(r"^\s*(end|else)\b").unwrap(),
    );
    let config = LanguageConfig::default().indentation_rules(rules);
    assert!(config.opens_indent("if x:"));
    assert!(!config.opens_indent("call("));
    assert!(config.closes_indent("  else"));
    assert!(!config.closes_indent("x"));
}

#[test]
fn node_kinds_classify_by_comment_then_string() {
    assert_eq!(classify("line_comment"), Some(SyntaxContext::Comment));
    assert_eq!(classify("String_Literal"), Some(SyntaxContext::String));
    assert_eq!(classify("BLOCK_COMMENT"), Some(SyntaxContext::Comment));
    assert_eq!(classify("string_in_comment"), Some(SyntaxContext::Comment));
    assert_eq!(classify("identifier"), None);
    assert_eq!(classify("strin"), None);
    assert_eq!(classify(""), None);
}

#[test]
fn trailing_unicode_white_space_is_trimmed_before_brackets() {
    let config = LanguageConfig::default();
    assert!(config.opens_indent("call(\u{3000}\u{a0}\t"));
    assert!(config.opens_indent("call(\u{2028}"));
    assert!(!config.opens_indent("call(\u{200b}"));
}

#[test]
fn invalid_indent_patterns_are_refused_at_setup() {
    assert!(IndentPattern::new("(").is_none());
    assert!(IndentPattern::new("[a-").is_none());
    let pattern = IndentPattern::new(r"^\s*end").unwrap();
    assert_eq!(pattern.as_str(), r"^\s*end");
}

#[test]
fn one_pattern_leaves_the_other_side_to_its_default() {
    let mut rules = IndentationRules::default();
    rules.decrease_indent_pattern = Some(IndentPattern::new(r"^\s*\}").unwrap());
    let config = LanguageConfig::default().indentation_rules(rules);
    assert!(config.opens_indent("fn main() {"));
    assert!(config.closes_indent("  }"));
    assert!(!config.closes_indent("x }"));
}
