//! Editing rules for automatic brackets and indentation, the per-language
//! defaults, and the decision an editor takes when a character is typed.

use vstd::prelude::*;
use crate::utf16::chars_of;

verus! {

/// A bracket or quote pair for automatic closing.
#[derive(Debug, Clone, Copy, PartialEq, Eq, Structural)]
pub struct BracketPair {
    /// The typed character, e.g. `(`.
    pub open: char,
    /// The inserted or skipped character, e.g. `)`.
    pub close: char,
}

/// Editing rules for automatic brackets and indentation.
#[derive(Debug)]
pub struct EditRules {
    /// Pairs inserted or skipped by auto-close, in priority order.
    pub pairs: Vec<BracketPair>,
    /// Line-end characters that add one indent level on Enter.
    pub indent_triggers: Vec<char>,
    /// Insert or skip matching closers when typing openers.
    pub auto_close: bool,
    /// Add one indent level after lines ending with an indent trigger.
    pub smart_indent: bool,
}

/// The pairs of C-like languages: round, square and curly brackets, then
/// double and single quotes.
pub open spec fn c_style() -> Seq<BracketPair> {
    seq![
        BracketPair { open: '(', close: ')' },
        BracketPair { open: '[', close: ']' },
        BracketPair { open: '{', close: '}' },
        BracketPair { open: '"', close: '"' },
        BracketPair { open: '\'', close: '\'' },
    ]
}

/// The default indent triggers.
pub open spec fn default_triggers() -> Seq<char> {
    seq!['{', '(', '[', ':']
}

/// The closer of the first pair opened by `opener`, if any.
pub open spec fn spec_matching_close(pairs: Seq<BracketPair>, opener: char) -> Option<char>
    decreases pairs.len(),
{
    if pairs.len() == 0 {
        None
    } else if pairs[0].open == opener {
        Some(pairs[0].close)
    } else {
        spec_matching_close(pairs.drop_first(), opener)
    }
}

/// The closer that `matching_close` finds belongs to a pair that the opener
/// opens, so it is one that `is_closer` recognizes.
pub proof fn lemma_matching_close_is_closer(pairs: Seq<BracketPair>, opener: char)
    ensures
        spec_matching_close(pairs, opener) matches Some(c) ==> exists|i: int|
            0 <= i < pairs.len() && (#[trigger] pairs[i]).open == opener && pairs[i].close == c,
    decreases pairs.len(),
{
    if pairs.len() > 0 && pairs[0].open != opener {
        let d = pairs.drop_first();
        lemma_matching_close_is_closer(d, opener);
        if spec_matching_close(pairs, opener) is Some {
            let c = spec_matching_close(pairs, opener)->0;
            let i = choose|i: int| 0 <= i < d.len() && (#[trigger] d[i]).open == opener && d[i].close == c;
            assert(pairs[i + 1] == d[i]);
        }
    } else if pairs.len() > 0 {
        assert(pairs[0].open == opener);
    }
}

/// Bracket pairs shared by C-like languages.
pub fn c_style_pairs() -> (r: Vec<BracketPair>)
    ensures
        r@ == c_style(),
{
    let mut v: Vec<BracketPair> = Vec::new();
    v.push(BracketPair { open: '(', close: ')' });
    v.push(BracketPair { open: '[', close: ']' });
    v.push(BracketPair { open: '{', close: '}' });
    v.push(BracketPair { open: '"', close: '"' });
    v.push(BracketPair { open: '\'', close: '\'' });
    assert(v@ =~= c_style());
    v
}

impl Default for EditRules {
    fn default() -> (r: Self)
        ensures
            r.pairs@ == c_style(),
            r.indent_triggers@ == default_triggers(),
            r.auto_close,
            r.smart_indent,
    {
        let mut triggers: Vec<char> = Vec::new();
        triggers.push('{');
        triggers.push('(');
        triggers.push('[');
        triggers.push(':');
        assert(triggers@ =~= default_triggers());
        EditRules { pairs: c_style_pairs(), indent_triggers: triggers, auto_close: true, smart_indent: true }
    }
}

impl EditRules {
    /// The closing counterpart of an opening bracket or quote: that of the
    /// first pair it opens.
    pub fn matching_close(&self, opener: char) -> (r: Option<char>)
        ensures
            r == spec_matching_close(self.pairs@, opener),
    {
        let n = self.pairs.len();
        let mut i: usize = 0;
        assert(self.pairs@.skip(0) == self.pairs@);
        while i < n
            invariant
                n == self.pairs@.len(),
                i <= n,
                spec_matching_close(self.pairs@, opener) == spec_matching_close(self.pairs@.skip(i as int), opener),
            decreases n - i,
        {
            assert(self.pairs@.skip(i as int)[0] == self.pairs@[i as int]);
            assert(self.pairs@.skip(i as int).drop_first() == self.pairs@.skip(i + 1));
            if self.pairs[i].open == opener {
                return Some(self.pairs[i].close);
            }
            i = i + 1;
        }
        None
    }

    /// Whether `typed` closes one of the pairs.
    pub fn is_closer(&self, typed: char) -> (r: bool)
        ensures
            r == exists|i: int| 0 <= i < self.pairs@.len() && (#[trigger] self.pairs@[i]).close == typed,
    {
        let n = self.pairs.len();
        let mut i: usize = 0;
        while i < n
            invariant
                n == self.pairs@.len(),
                i <= n,
                forall|j: int| 0 <= j < i ==> (#[trigger] self.pairs@[j]).close != typed,
            decreases n - i,
        {
            if self.pairs[i].close == typed {
                return true;
            }
            i = i + 1;
        }
        false
    }

    /// Whether a line whose trimmed end is `trimmed_line_end` opens a new
    /// indent level: its last character is an indent trigger.
    pub fn opens_indent(&self, trimmed_line_end: &str) -> (r: bool)
        ensures
            r == (trimmed_line_end@.len() > 0 && self.indent_triggers@.contains(trimmed_line_end@.last())),
    {
        let cs = chars_of(trimmed_line_end);
        if cs.len() == 0 {
            return false;
        }
        let last = cs[cs.len() - 1];
        assert(last == trimmed_line_end@.last());
        let n = self.indent_triggers.len();
        let mut i: usize = 0;
        while i < n
            invariant
                n == self.indent_triggers@.len(),
                i <= n,
                trimmed_line_end@.len() > 0,
                last == trimmed_line_end@.last(),
                forall|j: int| 0 <= j < i ==> self.indent_triggers@[j] != last,
            decreases n - i,
        {
            if self.indent_triggers[i] == last {
                assert(self.indent_triggers@[i as int] == last);
                assert(self.indent_triggers@.contains(last));
                return true;
            }
            i = i + 1;
        }
        false
    }
}

/// The lower-case form of a text, as `str::to_lowercase` maps it.
pub uninterp spec fn lowercase(text: Seq<char>) -> Seq<char>;

/// The lower-case form of `text`, from `str::to_lowercase`: each character
/// mapped by the Unicode lower-case rules, which are named here rather
/// than written out.
#[verifier::external_body]
pub(crate) fn to_lowercase(text: &str) -> (r: String)
    ensures
        r@ == lowercase(text@),
{
    text.to_lowercase()
}

/// The names of plain text.
pub open spec fn plain_names(name: Seq<char>) -> bool {
    name == seq!['t', 'e', 'x', 't'] || name == seq!['p', 'l', 'a', 'i', 'n'] || name == seq![
        'p',
        'l',
        'a',
        'i',
        'n',
        't',
        'e',
        'x',
        't',
    ]
}

/// Whether `cs` spells `word`.
pub fn spells(cs: &Vec<char>, word: &str) -> (r: bool)
    ensures
        r == (cs@ == word@),
{
    let w = chars_of(word);
    if cs.len() != w.len() {
        return false;
    }
    let n = cs.len();
    let mut i: usize = 0;
    while i < n
        invariant
            n == cs@.len(),
            n == w@.len(),
            w@ == word@,
            i <= n,
            forall|j: int| 0 <= j < i ==> cs@[j] == w@[j],
        decreases n - i,
    {
        if cs[i] != w[i] {
            return false;
        }
        i = i + 1;
    }
    assert(cs@ =~= w@);
    true
}

/// Whether a text spells one of the names of plain text.
pub fn is_plain_name(name: &str) -> (r: bool)
    ensures
        r == plain_names(name@),
{
    let cs = chars_of(name);
    proof {
        reveal_strlit("text");
        reveal_strlit("plain");
        reveal_strlit("plaintext");
        assert("text"@ =~= seq!['t', 'e', 'x', 't']);
        assert("plain"@ =~= seq!['p', 'l', 'a', 'i', 'n']);
        assert("plaintext"@ =~= seq!['p', 'l', 'a', 'i', 'n', 't', 'e', 'x', 't']);
    }
    spells(&cs, "text") || spells(&cs, "plain") || spells(&cs, "plaintext")
}

/// Whether `language` names unstyled plain text, matching case-insensitively.
pub fn is_plain_text(language: &str) -> (r: bool)
    ensures
        r == plain_names(lowercase(language@)),
{
    let lower = to_lowercase(language);
    is_plain_name(lower.as_str())
}

/// Default editing rules for a language name: plain text gets no pairs or
/// triggers; every other language gets the defaults.
pub fn language_rules(language: &str) -> (r: EditRules)
    ensures
        plain_names(lowercase(language@)) ==> r.pairs@.len() == 0 && r.indent_triggers@.len() == 0,
        !plain_names(lowercase(language@)) ==> r.pairs@ == c_style() && r.indent_triggers@ == default_triggers(),
        r.auto_close,
        r.smart_indent,
{
    if is_plain_text(language) {
        return EditRules { pairs: Vec::new(), indent_triggers: Vec::new(), auto_close: true, smart_indent: true };
    }
    EditRules::default()
}

/// The closing counterpart an editor types for an opening bracket or quote.
pub open spec fn spec_closer(opener: char) -> Option<char> {
    if opener == '(' {
        Some(')')
    } else if opener == '[' {
        Some(']')
    } else if opener == '{' {
        Some('}')
    } else if opener == '"' {
        Some('"')
    } else if opener == '\'' {
        Some('\'')
    } else {
        None
    }
}

/// The closing counterpart for an opening bracket or quote, if any.
pub fn matching_close(opener: char) -> (r: Option<char>)
    ensures
        r == spec_closer(opener),
{
    match opener {
        '(' => Some(')'),
        '[' => Some(']'),
        '{' => Some('}'),
        '"' => Some('"'),
        '\'' => Some('\''),
        _ => None,
    }
}

/// Whether a character is alphabetic or numeric, as `char::is_alphanumeric`
/// classifies it by the Unicode tables.
pub uninterp spec fn alphanumeric(c: char) -> bool;

/// `char::is_alphanumeric`: whether the character is alphabetic or numeric
/// under Unicode's derived properties, named here rather than written out.
#[verifier::external_body]
fn is_alphanumeric(c: char) -> (r: bool)
    ensures
        r == alphanumeric(c),
{
    c.is_alphanumeric()
}

/// Whether a character belongs to a word.
pub open spec fn word_char(c: char) -> bool {
    alphanumeric(c) || c == '_'
}

/// Whether an optional neighbour is a word character.
pub open spec fn word_neighbour(c: Option<char>) -> bool {
    match c {
        Some(c) => word_char(c),
        None => false,
    }
}

fn is_word_neighbour(c: Option<char>) -> (r: bool)
    ensures
        r == word_neighbour(c),
{
    match c {
        Some(c) => is_alphanumeric(c) || c == '_',
        None => false,
    }
}

/// What auto-close does after one character is typed.
#[derive(Debug, Clone, Copy, PartialEq, Eq, Structural)]
pub enum AutoClose {
    /// Leave the text as typed.
    Keep,
    /// The typed closer was already there: drop the typed one and move the
    /// caret past the existing one.
    SkipOver,
    /// Insert this closer after the caret, which stays before it.
    Insert(char),
}

/// Whether a character is a quote.
pub open spec fn is_quote(c: char) -> bool {
    c == '"' || c == '\''
}

/// The auto-close decision for `typed` typed over `range_empty`, with
/// `before` the character before the typed one and `after` the one after
/// the caret.
pub open spec fn spec_auto_close(
    enabled: bool,
    collapsed: bool,
    typed: Seq<char>,
    range_empty: bool,
    before: Option<char>,
    after: Option<char>,
) -> AutoClose {
    if !enabled || !collapsed || typed.len() != 1 || !range_empty {
        AutoClose::Keep
    } else {
        let t = typed[0];
        if (t == ')' || t == ']' || t == '}' || is_quote(t)) && after == Some(t) {
            if is_quote(t) && word_neighbour(before) {
                AutoClose::Keep
            } else {
                AutoClose::SkipOver
            }
        } else {
            match spec_closer(t) {
                None => AutoClose::Keep,
                Some(c) => if is_quote(t) && word_neighbour(after) {
                    AutoClose::Keep
                } else {
                    AutoClose::Insert(c)
                },
            }
        }
    }
}

/// Decide what auto-close does after `text` was typed over `range_empty`:
/// only a single character typed at a lone collapsed caret of an editable,
/// auto-closing editor (`enabled` and `collapsed`) counts. A closer typed
/// before the same closer skips over it; an opener gets its closer; quotes
/// are left alone inside words.
pub fn auto_close_action(
    enabled: bool,
    collapsed: bool,
    text: &str,
    range_empty: bool,
    before: Option<char>,
    after: Option<char>,
) -> (r: AutoClose)
    ensures
        r == spec_auto_close(enabled, collapsed, text@, range_empty, before, after),
{
    if !enabled || !collapsed || !range_empty {
        return AutoClose::Keep;
    }
    let cs = chars_of(text);
    if cs.len() != 1 {
        return AutoClose::Keep;
    }
    let t = cs[0];
    let quote = t == '"' || t == '\'';
    if (t == ')' || t == ']' || t == '}' || quote) && after == Some(t) {
        if quote && is_word_neighbour(before) {
            return AutoClose::Keep;
        }
        return AutoClose::SkipOver;
    }
    match matching_close(t) {
        None => AutoClose::Keep,
        Some(c) => {
            if quote && is_word_neighbour(after) {
                AutoClose::Keep
            } else {
                AutoClose::Insert(c)
            }
        },
    }
}


/// Whether `(o, c)` is a bracket or quote pair that auto-close knows:
/// parentheses, square brackets, braces, double or single quotes.
pub open spec fn known_pair(o: char, c: char) -> bool {
    ||| (o == '(' && c == ')')
    ||| (o == '[' && c == ']')
    ||| (o == '{' && c == '}')
    ||| (o == '"' && c == '"')
    ||| (o == '\'' && c == '\'')
}

/// Only one character typed at a lone collapsed caret of an auto-closing
/// editor, over an empty range, is ever acted on; an inserted closer is
/// the partner of the typed opener, and a skip happens only over the very
/// character typed, a closer or a quote.
pub proof fn lemma_auto_close_outcomes(
    enabled: bool,
    collapsed: bool,
    typed: Seq<char>,
    range_empty: bool,
    before: Option<char>,
    after: Option<char>,
)
    ensures
        ({
            let r = spec_auto_close(enabled, collapsed, typed, range_empty, before, after);
            &&& (!enabled || !collapsed || typed.len() != 1 || !range_empty) ==> r == AutoClose::Keep
            &&& r is SkipOver ==> typed.len() == 1 && after == Some(typed[0]) && (typed[0] == ')' || typed[0]
                == ']' || typed[0] == '}' || typed[0] == '"' || typed[0] == '\'')
            &&& r is Insert ==> typed.len() == 1 && known_pair(typed[0], r->Insert_0)
        }),
{
}

/// Typing a closing bracket right before the same bracket steps over the
/// one already there, whatever precedes the caret.
pub proof fn lemma_closer_skips(c: char, before: Option<char>)
    requires
        c == ')' || c == ']' || c == '}',
    ensures
        spec_auto_close(true, true, seq![c], true, before, Some(c)) == AutoClose::SkipOver,
{
}

/// A quote typed right before the same quote steps over it, unless a word
/// character comes before it (as in a contraction).
pub proof fn lemma_quote_skips(q: char, before: Option<char>)
    requires
        q == '"' || q == '\'',
    ensures
        spec_auto_close(true, true, seq![q], true, before, Some(q)) == (if word_neighbour(before) {
            AutoClose::Keep
        } else {
            AutoClose::SkipOver
        }),
{
}

/// An opening bracket typed at a lone caret always gets its closing
/// bracket inserted after it, whatever surrounds the caret.
pub proof fn lemma_opener_inserts(o: char, c: char, before: Option<char>, after: Option<char>)
    requires
        known_pair(o, c),
        o != '"' && o != '\'',
    ensures
        spec_auto_close(true, true, seq![o], true, before, after) == AutoClose::Insert(c),
{
}

/// What auto-close inserts, typing it next steps over: once an opening
/// bracket got its closer inserted, typing that closer before it skips
/// over it.
pub proof fn lemma_inserted_closer_skips(o: char, before: Option<char>, after: Option<char>)
    requires
        o != '"' && o != '\'',
    ensures
        spec_auto_close(true, true, seq![o], true, before, after) is Insert ==> spec_auto_close(
            true,
            true,
            seq![spec_auto_close(true, true, seq![o], true, before, after)->Insert_0],
            true,
            Some(o),
            Some(spec_auto_close(true, true, seq![o], true, before, after)->Insert_0),
        ) == AutoClose::SkipOver,
{
}


/// A quote typed at a lone caret gets its partner inserted after it,
/// unless the same quote already follows (it steps over that) or a word
/// character follows (as in a contraction).
pub proof fn lemma_quote_pairs(q: char, before: Option<char>, after: Option<char>)
    requires
        q == '"' || q == '\'',
        after != Some(q),
        !word_neighbour(after),
    ensures
        spec_auto_close(true, true, seq![q], true, before, after) == AutoClose::Insert(q),
{
}

} // verus!
