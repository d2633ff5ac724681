//! Declarative language editing rules: structural bracket pairs, automatic
//! closing pairs with the syntax contexts that disable them, and the
//! indentation patterns applied on Enter.

use std::sync::Arc;
use regex::Regex;
use vstd::prelude::*;
use crate::utf16::chars_of;
use crate::edit_rules::{lowercase, to_lowercase};

verus! {

#[verifier::external_type_specification]
#[verifier::external_body]
pub struct ExRegex(Regex);

/// Whether `Regex::new` compiles `pattern`: false exactly when the
/// pattern is not a valid expression or its compiled form exceeds the
/// default size limit.
pub uninterp spec fn regex_compiles(pattern: Seq<char>) -> bool;

/// Whether the expression `pattern`, compiled by `Regex::new` with the
/// default options, matches anywhere in `haystack` (`Regex::is_match`).
pub uninterp spec fn regex_matches(pattern: Seq<char>, haystack: Seq<char>) -> bool;

/// `Regex::new`: the compiled expression when `pattern` compiles, named by
/// `regex_compiles`.
#[verifier::external_body]
fn compile(pattern: &str) -> (r: Option<Regex>)
    ensures
        r is Some == regex_compiles(pattern@),
{
    Regex::new(pattern).ok()
}

/// `Regex::is_match` on the expression of an indentation pattern. Its
/// expression was compiled from its source by `Regex::new` with the
/// default options (`IndentPattern::new` is the only way to make one), so
/// the answer is `regex_matches` of that source and the haystack.
#[verifier::external_body]
fn pattern_is_match(pattern: &IndentPattern, haystack: &str) -> (r: bool)
    ensures
        r == regex_matches(pattern@, haystack@),
{
    pattern.compiled.is_match(haystack)
}

/// An indentation pattern in Rust's `regex` syntax: its source, and the
/// expression compiled from it with the default options.
#[derive(Debug, Clone)]
pub struct IndentPattern {
    source: String,
    compiled: Arc<Regex>,
}

impl View for IndentPattern {
    type V = Seq<char>;

    closed spec fn view(&self) -> Seq<char> {
        self.source@
    }
}

impl IndentPattern {
    /// Compiles `source`; `None` when it is not a valid expression, so that
    /// a bad pattern is reported when the rules are set up.
    pub fn new(source: &str) -> (r: Option<IndentPattern>)
        ensures
            r is Some == regex_compiles(source@),
            r matches Some(p) ==> p@ == source@,
    {
        match compile(source) {
            Some(re) => Some(IndentPattern { source: source.to_owned(), compiled: Arc::new(re) }),
            None => None,
        }
    }

    /// The pattern's source.
    pub fn as_str(&self) -> (r: &str)
        ensures
            r@ == self@,
    {
        self.source.as_str()
    }
}

/// Whether a character has the Unicode `White_Space` property: U+0009 to
/// U+000D, U+0020, U+0085, U+00A0, U+1680, U+2000 to U+200A, U+2028,
/// U+2029, U+202F, U+205F and U+3000.
pub open spec fn white_space(c: char) -> bool {
    let u = c as u32;
    (0x09 <= u && u <= 0x0d) || u == 0x20 || u == 0x85 || u == 0xa0 || u == 0x1680 || (0x2000 <= u && u <= 0x200a)
        || u == 0x2028 || u == 0x2029 || u == 0x202f || u == 0x205f || u == 0x3000
}

/// `text` without its trailing whitespace.
pub open spec fn trimmed_end(text: Seq<char>) -> Seq<char>
    decreases text.len(),
{
    if text.len() > 0 && white_space(text.last()) {
        trimmed_end(text.drop_last())
    } else {
        text
    }
}

/// `str::trim_end`: the text with trailing Unicode `White_Space` removed.
#[verifier::external_body]
fn trim_end(text: &str) -> (r: &str)
    ensures
        r@ == trimmed_end(text@),
{
    text.trim_end()
}

/// A syntax context in which automatic closing can be disabled.
#[derive(Debug, Clone, Copy, PartialEq, Eq, Structural)]
pub enum SyntaxContext {
    /// Inside a string literal.
    String,
    /// Inside a comment.
    Comment,
}

/// Whether `word` occurs in `text` as a run of adjacent characters.
pub open spec fn has_word(text: Seq<char>, word: Seq<char>) -> bool {
    exists|i: int| 0 <= i && i + word.len() <= text.len() && #[trigger] text.subrange(i, i + word.len()) == word
}

/// The syntax context a node kind names, read from its lower-case form:
/// a comment when it mentions "comment", else a string when it mentions
/// "string", else none.
pub open spec fn kind_context(lower: Seq<char>) -> Option<SyntaxContext> {
    if has_word(lower, seq!['c', 'o', 'm', 'm', 'e', 'n', 't']) {
        Some(SyntaxContext::Comment)
    } else if has_word(lower, seq!['s', 't', 'r', 'i', 'n', 'g']) {
        Some(SyntaxContext::String)
    } else {
        None
    }
}

/// Whether `cs` holds `w` from index `at` on.
fn word_at(cs: &Vec<char>, w: &Vec<char>, at: usize) -> (r: bool)
    requires
        at + w@.len() <= cs@.len(),
    ensures
        r == (cs@.subrange(at as int, at + w@.len()) == w@),
{
    let n = w.len();
    let mut j: usize = 0;
    while j < n
        invariant
            n == w@.len(),
            at + n <= cs.len(),
            j <= n,
            forall|k: int| 0 <= k < j ==> cs@[at + k] == w@[k],
        decreases n - j,
    {
        if cs[at + j] != w[j] {
            assert(cs@.subrange(at as int, at + n)[j as int] != w@[j as int]);
            return false;
        }
        j = j + 1;
    }
    assert(cs@.subrange(at as int, at + n) =~= w@);
    true
}

/// Whether the characters `word` spells occur together in `cs`.
fn holds_word(cs: &Vec<char>, word: &str) -> (r: bool)
    ensures
        r == has_word(cs@, word@),
{
    let w = chars_of(word);
    if w.len() > cs.len() {
        return false;
    }
    let last = cs.len() - w.len();
    let mut i: usize = 0;
    while i <= last
        invariant
            w@ == word@,
            last + w@.len() == cs@.len(),
            forall|k: int| 0 <= k < i ==> #[trigger] cs@.subrange(k, k + w@.len()) != w@,
        decreases last + 1 - i,
    {
        if word_at(&cs, &w, i) {
            return true;
        }
        if i == last {
            return false;
        }
        i = i + 1;
    }
    false
}

/// The syntax context that a parse-tree node kind marks, matched without
/// regard to case: comments first, then strings.
pub fn classify(kind: &str) -> (r: Option<SyntaxContext>)
    ensures
        r == kind_context(lowercase(kind@)),
{
    let lower = to_lowercase(kind);
    let cs = chars_of(lower.as_str());
    proof {
        reveal_strlit("comment");
        reveal_strlit("string");
        assert("comment"@ =~= seq!['c', 'o', 'm', 'm', 'e', 'n', 't']);
        assert("string"@ =~= seq!['s', 't', 'r', 'i', 'n', 'g']);
    }
    if holds_word(&cs, "comment") {
        Some(SyntaxContext::Comment)
    } else if holds_word(&cs, "string") {
        Some(SyntaxContext::String)
    } else {
        None
    }
}

/// A structural pair, used for indentation and for splitting Enter between
/// delimiters.
#[derive(Debug, Clone)]
pub struct BracketPair {
    pub open: String,
    pub close: String,
}

impl BracketPair {
    /// The pair of `open` and `close`.
    pub fn new(open: &str, close: &str) -> (r: Self)
        ensures
            r.open@ == open@,
            r.close@ == close@,
    {
        BracketPair { open: open.to_owned(), close: close.to_owned() }
    }
}

/// An automatic closing pair and the syntax contexts in which insertion is
/// disabled. Empty delimiters are ignored.
#[derive(Debug)]
pub struct AutoClosingPair {
    pub open: String,
    pub close: String,
    pub not_in: Vec<SyntaxContext>,
}

impl AutoClosingPair {
    /// The pair of `open` and `close`, allowed everywhere.
    pub fn new(open: &str, close: &str) -> (r: Self)
        ensures
            r.open@ == open@,
            r.close@ == close@,
            r.not_in@.len() == 0,
    {
        AutoClosingPair { open: open.to_owned(), close: close.to_owned(), not_in: Vec::new() }
    }

    /// The pair, disabled in `contexts`.
    pub fn not_in(self, contexts: Vec<SyntaxContext>) -> (r: Self)
        ensures
            r.open@ == self.open@,
            r.close@ == self.close@,
            r.not_in@ == contexts@,
    {
        AutoClosingPair { open: self.open, close: self.close, not_in: contexts }
    }
}

/// Indentation patterns: `increase` is matched against the text before the
/// caret on Enter, `decrease` against the text after it. The patterns are
/// compiled by the caller (`IndentPattern::new`), so invalid expressions
/// are reported at setup.
#[derive(Debug, Clone, Default)]
pub struct IndentationRules {
    pub increase_indent_pattern: Option<IndentPattern>,
    pub decrease_indent_pattern: Option<IndentPattern>,
}

impl IndentationRules {
    /// Rules with both patterns.
    pub fn new(increase: IndentPattern, decrease: IndentPattern) -> (r: Self)
        ensures
            r.increase_indent_pattern == Some(increase),
            r.decrease_indent_pattern == Some(decrease),
    {
        IndentationRules { increase_indent_pattern: Some(increase), decrease_indent_pattern: Some(decrease) }
    }
}

/// Declarative language editing rules. Without `auto_closing_pairs` the
/// brackets close themselves; an empty list disables automatic pairs.
#[derive(Debug)]
pub struct LanguageConfig {
    pub brackets: Vec<BracketPair>,
    pub auto_closing_pairs: Option<Vec<AutoClosingPair>>,
    /// Automatic insertion is allowed before these characters, whitespace,
    /// or the end.
    pub auto_close_before: String,
    pub indentation_rules: Option<IndentationRules>,
}

/// A closing pair as text: its opener, its closer, and where it is off.
pub type PairView = (Seq<char>, Seq<char>, Seq<SyntaxContext>);

/// The pairs with both delimiters non-empty, in order.
pub open spec fn keep_nonempty(s: Seq<PairView>) -> Seq<PairView>
    decreases s.len(),
{
    if s.len() == 0 {
        seq![]
    } else if s.last().0.len() > 0 && s.last().1.len() > 0 {
        keep_nonempty(s.drop_last()).push(s.last())
    } else {
        keep_nonempty(s.drop_last())
    }
}

/// The automatic pairs as text.
pub open spec fn auto_views(pairs: Seq<AutoClosingPair>) -> Seq<PairView> {
    pairs.map_values(|p: AutoClosingPair| (p.open@, p.close@, p.not_in@))
}

/// The brackets as closing pairs, allowed everywhere.
pub open spec fn bracket_views(pairs: Seq<BracketPair>) -> Seq<PairView> {
    pairs.map_values(|p: BracketPair| (p.open@, p.close@, Seq::<SyntaxContext>::empty()))
}

/// The closing pairs of a configuration: the automatic pairs when given,
/// else the brackets; pairs with an empty delimiter are left out.
pub open spec fn spec_closing_pairs(cfg: LanguageConfig) -> Seq<PairView> {
    match cfg.auto_closing_pairs {
        Some(v) => keep_nonempty(auto_views(v@)),
        None => keep_nonempty(bracket_views(cfg.brackets@)),
    }
}

/// Whether `suffix` ends `text`.
pub open spec fn ends_with(text: Seq<char>, suffix: Seq<char>) -> bool {
    suffix.len() <= text.len() && text.skip(text.len() - suffix.len()) == suffix
}

/// Whether a text opens an indent by the brackets: its end, without
/// trailing whitespace, is the opener of some bracket.
pub open spec fn bracket_opens(brackets: Seq<BracketPair>, text: Seq<char>) -> bool {
    exists|i: int|
        0 <= i < brackets.len() && (#[trigger] brackets[i]).open@.len() > 0 && ends_with(trimmed_end(text), brackets[i].open@)
}

/// The configuration's increase pattern, if it has one.
pub open spec fn increase_pattern(cfg: LanguageConfig) -> Option<IndentPattern> {
    match cfg.indentation_rules {
        Some(r) => r.increase_indent_pattern,
        None => None,
    }
}

/// The configuration's decrease pattern, if it has one.
pub open spec fn decrease_pattern(cfg: LanguageConfig) -> Option<IndentPattern> {
    match cfg.indentation_rules {
        Some(r) => r.decrease_indent_pattern,
        None => None,
    }
}

/// A copy of a run of syntax contexts.
fn copy_contexts(v: &Vec<SyntaxContext>) -> (r: Vec<SyntaxContext>)
    ensures
        r@ == v@,
{
    let mut r: Vec<SyntaxContext> = Vec::new();
    let n = v.len();
    let mut i: usize = 0;
    while i < n
        invariant
            n == v@.len(),
            i <= n,
            r@ == v@.take(i as int),
        decreases n - i,
    {
        r.push(v[i]);
        assert(v@.take(i + 1) == v@.take(i as int).push(v@[i as int]));
        i = i + 1;
    }
    assert(v@.take(n as int) == v@);
    r
}

/// Whether `suffix` ends `text`.
fn ends_with_chars(text: &Vec<char>, suffix: &Vec<char>) -> (r: bool)
    ensures
        r == ends_with(text@, suffix@),
{
    let n = text.len();
    let m = suffix.len();
    if m > n {
        return false;
    }
    let off = n - m;
    let mut i: usize = 0;
    while i < m
        invariant
            n == text@.len(),
            m == suffix@.len(),
            off == n - m,
            i <= m,
            forall|j: int| 0 <= j < i ==> text@[off + j] == suffix@[j],
        decreases m - i,
    {
        if text[off + i] != suffix[i] {
            assert(text@.skip(off as int)[i as int] != suffix@[i as int]);
            return false;
        }
        i = i + 1;
    }
    assert(text@.skip(off as int) =~= suffix@);
    true
}

impl Default for LanguageConfig {
    fn default() -> (r: Self)
        ensures
            r.brackets@.len() == 3,
            r.brackets@[0].open@ == "("@ && r.brackets@[0].close@ == ")"@,
            r.brackets@[1].open@ == "["@ && r.brackets@[1].close@ == "]"@,
            r.brackets@[2].open@ == "{"@ && r.brackets@[2].close@ == "}"@,
            r.auto_closing_pairs matches Some(v) && v@.len() == 5 && auto_views(v@) == seq![
                ("("@, ")"@, seq![SyntaxContext::String, SyntaxContext::Comment]),
                ("["@, "]"@, seq![SyntaxContext::String, SyntaxContext::Comment]),
                ("{"@, "}"@, seq![SyntaxContext::String, SyntaxContext::Comment]),
                ("\""@, "\""@, seq![SyntaxContext::String, SyntaxContext::Comment]),
                ("'"@, "'"@, seq![SyntaxContext::String, SyntaxContext::Comment]),
            ],
            r.auto_close_before@ == ";:.,=}])>"@,
            r.indentation_rules is None,
    {
        let mut brackets: Vec<BracketPair> = Vec::new();
        brackets.push(BracketPair::new("(", ")"));
        brackets.push(BracketPair::new("[", "]"));
        brackets.push(BracketPair::new("{", "}"));
        let mut pairs: Vec<AutoClosingPair> = Vec::new();
        pairs.push(AutoClosingPair::new("(", ")").not_in(string_and_comment()));
        pairs.push(AutoClosingPair::new("[", "]").not_in(string_and_comment()));
        pairs.push(AutoClosingPair::new("{", "}").not_in(string_and_comment()));
        pairs.push(AutoClosingPair::new("\"", "\"").not_in(string_and_comment()));
        pairs.push(AutoClosingPair::new("'", "'").not_in(string_and_comment()));
        assert(auto_views(pairs@) =~= seq![
            ("("@, ")"@, seq![SyntaxContext::String, SyntaxContext::Comment]),
            ("["@, "]"@, seq![SyntaxContext::String, SyntaxContext::Comment]),
            ("{"@, "}"@, seq![SyntaxContext::String, SyntaxContext::Comment]),
            ("\""@, "\""@, seq![SyntaxContext::String, SyntaxContext::Comment]),
            ("'"@, "'"@, seq![SyntaxContext::String, SyntaxContext::Comment]),
        ]);
        LanguageConfig {
            brackets,
            auto_closing_pairs: Some(pairs),
            auto_close_before: ";:.,=}])>".to_owned(),
            indentation_rules: None,
        }
    }
}

/// The contexts in which the default pairs are off.
fn string_and_comment() -> (r: Vec<SyntaxContext>)
    ensures
        r@ == seq![SyntaxContext::String, SyntaxContext::Comment],
{
    let mut v: Vec<SyntaxContext> = Vec::new();
    v.push(SyntaxContext::String);
    v.push(SyntaxContext::Comment);
    assert(v@ =~= seq![SyntaxContext::String, SyntaxContext::Comment]);
    v
}

impl LanguageConfig {
    /// The configuration with these structural pairs.
    pub fn brackets(self, pairs: Vec<BracketPair>) -> (r: Self)
        ensures
            r.brackets@ == pairs@,
            r.auto_closing_pairs == self.auto_closing_pairs,
            r.auto_close_before == self.auto_close_before,
            r.indentation_rules == self.indentation_rules,
    {
        LanguageConfig { brackets: pairs, ..self }
    }

    /// The configuration with these automatic pairs.
    pub fn auto_closing_pairs(self, pairs: Vec<AutoClosingPair>) -> (r: Self)
        ensures
            r.auto_closing_pairs matches Some(v) && v@ == pairs@,
            r.brackets == self.brackets,
            r.auto_close_before == self.auto_close_before,
            r.indentation_rules == self.indentation_rules,
    {
        LanguageConfig { auto_closing_pairs: Some(pairs), ..self }
    }

    /// The configuration with automatic insertion allowed before these
    /// characters.
    pub fn auto_close_before(self, characters: &str) -> (r: Self)
        ensures
            r.auto_close_before@ == characters@,
            r.brackets == self.brackets,
            r.auto_closing_pairs == self.auto_closing_pairs,
            r.indentation_rules == self.indentation_rules,
    {
        LanguageConfig { auto_close_before: characters.to_owned(), ..self }
    }

    /// The configuration with these indentation rules.
    pub fn indentation_rules(self, rules: IndentationRules) -> (r: Self)
        ensures
            r.indentation_rules == Some(rules),
            r.brackets == self.brackets,
            r.auto_closing_pairs == self.auto_closing_pairs,
            r.auto_close_before == self.auto_close_before,
    {
        LanguageConfig { indentation_rules: Some(rules), ..self }
    }

    /// The pairs that close automatically: the configured automatic pairs,
    /// or else the brackets, allowed everywhere; pairs with an empty
    /// delimiter are left out.
    pub fn closing_pairs(&self) -> (r: Vec<(String, String, Vec<SyntaxContext>)>)
        ensures
            r@.map_values(|t: (String, String, Vec<SyntaxContext>)| (t.0@, t.1@, t.2@)) == spec_closing_pairs(*self),
    {
        let mut out: Vec<(String, String, Vec<SyntaxContext>)> = Vec::new();
        match &self.auto_closing_pairs {
            Some(pairs) => {
                let ghost all = auto_views(pairs@);
                let n = pairs.len();
                let mut i: usize = 0;
                while i < n
                    invariant
                        n == pairs@.len(),
                        all == auto_views(pairs@),
                        i <= n,
                        out@.map_values(|t: (String, String, Vec<SyntaxContext>)| (t.0@, t.1@, t.2@)) == keep_nonempty(
                            all.take(i as int),
                        ),
                    decreases n - i,
                {
                    let p = &pairs[i];
                    let ghost before = out@;
                    proof {
                        assert(all.take(i + 1).drop_last() == all.take(i as int));
                        assert(all.take(i + 1).last() == all[i as int]);
                    }
                    if !p.open.as_str().is_empty() && !p.close.as_str().is_empty() {
                        let t = (p.open.clone(), p.close.clone(), copy_contexts(&p.not_in));
                        out.push(t);
                        assert(out@.map_values(|t: (String, String, Vec<SyntaxContext>)| (t.0@, t.1@, t.2@)) =~= before.map_values(
                            |t: (String, String, Vec<SyntaxContext>)| (t.0@, t.1@, t.2@),
                        ).push(all[i as int]));
                    }
                    i = i + 1;
                }
                assert(all.take(n as int) == all);
            },
            None => {
                let ghost all = bracket_views(self.brackets@);
                let n = self.brackets.len();
                let mut i: usize = 0;
                while i < n
                    invariant
                        n == self.brackets@.len(),
                        all == bracket_views(self.brackets@),
                        i <= n,
                        out@.map_values(|t: (String, String, Vec<SyntaxContext>)| (t.0@, t.1@, t.2@)) == keep_nonempty(
                            all.take(i as int),
                        ),
                    decreases n - i,
                {
                    let p = &self.brackets[i];
                    let ghost before = out@;
                    proof {
                        assert(all.take(i + 1).drop_last() == all.take(i as int));
                        assert(all.take(i + 1).last() == all[i as int]);
                    }
                    if !p.open.as_str().is_empty() && !p.close.as_str().is_empty() {
                        let t = (p.open.clone(), p.close.clone(), Vec::new());
                        out.push(t);
                        assert(out@.map_values(|t: (String, String, Vec<SyntaxContext>)| (t.0@, t.1@, t.2@)) =~= before.map_values(
                            |t: (String, String, Vec<SyntaxContext>)| (t.0@, t.1@, t.2@),
                        ).push(all[i as int]));
                    }
                    i = i + 1;
                }
                assert(all.take(n as int) == all);
            },
        }
        out
    }

    /// Whether Enter after `text` adds an indent level: by the increase
    /// pattern when there is one, else when the text, without trailing
    /// whitespace, ends with the opener of a bracket.
    pub fn opens_indent(&self, text: &str) -> (r: bool)
        ensures
            r == match increase_pattern(*self) {
                Some(p) => regex_matches(p@, text@),
                None => bracket_opens(self.brackets@, text@),
            },
    {
        match &self.indentation_rules {
            Some(rules) => match &rules.increase_indent_pattern {
                Some(p) => {
                    return pattern_is_match(p, text);
                },
                None => {},
            },
            None => {},
        }
        let trimmed = chars_of(trim_end(text));
        let n = self.brackets.len();
        let mut i: usize = 0;
        while i < n
            invariant
                n == self.brackets@.len(),
                i <= n,
                trimmed@ == trimmed_end(text@),
                increase_pattern(*self) is None,
                forall|j: int| 0 <= j < i ==> !((#[trigger] self.brackets@[j]).open@.len() > 0 && ends_with(trimmed@, self.brackets@[j].open@)),
            decreases n - i,
        {
            let open = chars_of(self.brackets[i].open.as_str());
            if open.len() > 0 && ends_with_chars(&trimmed, &open) {
                assert(self.brackets@[i as int].open@.len() > 0);
                return true;
            }
            i = i + 1;
        }
        false
    }

    /// Whether the text after the caret takes an indent level away: only by
    /// the decrease pattern, when there is one.
    pub fn closes_indent(&self, text: &str) -> (r: bool)
        ensures
            r == match decrease_pattern(*self) {
                Some(p) => regex_matches(p@, text@),
                None => false,
            },
    {
        match &self.indentation_rules {
            Some(rules) => match &rules.decrease_indent_pattern {
                Some(p) => pattern_is_match(p, text),
                None => false,
            },
            None => false,
        }
    }
}

} // verus!
