//! Cleaning a line of output, and telling its level.
use crate::filters::{contains_any_pattern, holds_pattern, lower_text, CommandFilterConfig};
use crate::outside::{regex_compiles, regex_matches, regex_replaced, Pattern};
use crate::text::{is_space, lemma_char_pos, lemma_trim_of_trimmed, lemma_trim_start, lower, split_once, split_once_at, start_trimmed, texts, trim, trim_end, trim_start, trimmed, without_prefix};
use vstd::prelude::*;

verus! {

// ---------------------------------------------------------------------------
// Cleaning

/// The pattern of terminal escape sequences.
pub open spec fn ansi_pattern() -> Seq<char> {
    r"\x1B(?:\[[0-?]*[ -/]*[@-~]|\][^\x07\x1B]*(?:\x07|\x1B\\))"@
}

/// The pattern of a date, a date and time, or a time of day.
pub open spec fn timestamp_pattern() -> Seq<char> {
    r"^(?:\d{4}-\d{2}-\d{2}(?:[T ][0-9:.+\-Z]+)?|\d{2}:\d{2}:\d{2}(?:[.,]\d+)?)$"@
}

/// The two regular expressions that cleaning a line takes.
pub struct LineRules {
    ansi: Pattern,
    timestamp: Pattern,
}

impl LineRules {
    /// They are those of escape sequences and of timestamps.
    pub closed spec fn wf(&self) -> bool {
        &&& self.ansi.source() == ansi_pattern()
        &&& self.timestamp.source() == timestamp_pattern()
    }

    /// Compiles both.
    pub fn new() -> (r: Option<Self>)
        ensures
            r is Some <==> regex_compiles(ansi_pattern()) && regex_compiles(timestamp_pattern()),
            r matches Some(rules) ==> rules.wf(),
    {
        let ansi = Pattern::compile(r"\x1B(?:\[[0-?]*[ -/]*[@-~]|\][^\x07\x1B]*(?:\x07|\x1B\\))");
        let timestamp = Pattern::compile(
            r"^(?:\d{4}-\d{2}-\d{2}(?:[T ][0-9:.+\-Z]+)?|\d{2}:\d{2}:\d{2}(?:[.,]\d+)?)$",
        );
        match (ansi, timestamp) {
            (Some(ansi), Some(timestamp)) => Some(LineRules { ansi, timestamp }),
            _ => None,
        }
    }

    /// Whether a text is a timestamp.
    fn is_timestamp(&self, text: &str) -> (r: bool)
        requires
            self.wf(),
        ensures
            r == regex_matches(timestamp_pattern(), text@),
    {
        self.timestamp.is_match(text)
    }

    /// A line without escape sequences.
    fn without_escapes(&self, line: &str) -> (r: String)
        requires
            self.wf(),
        ensures
            r@ == regex_replaced(ansi_pattern(), line@, ""@),
            !regex_matches(ansi_pattern(), line@) ==> r@ == line@,
    {
        self.ansi.replace_all(line, "")
    }
}

/// What a text holds in brackets at its start, trimmed, and what follows them.
pub open spec fn bracketed(text: Seq<char>) -> Option<(Seq<char>, Seq<char>)> {
    if text.len() > 0 && text[0] == '[' {
        match split_once(text.skip(1), ']') {
            Some((inside, after)) => Some((trim(inside), trim_start(after))),
            None => None,
        }
    } else {
        None
    }
}

/// What a text holds in brackets at its start, and what follows them.
pub fn split_bracket<'a>(text: &'a str) -> (r: Option<(&'a str, &'a str)>)
    ensures
        match r {
            Some((inside, after)) => bracketed(text@) == Some((inside@, after@)),
            None => bracketed(text@) is None,
        },
{
    proof {
        reveal_strlit("[");
        if text@.len() > 0 {
            assert((text@.take(1) == "["@) == (text@[0] == '[')) by {
                assert("["@ == seq!['[']);
                if text@[0] == '[' {
                    assert(text@.take(1) == seq!['[']);
                }
                assert(text@.take(1)[0] == text@[0]);
            }
        }
    }
    match without_prefix(text, "[") {
        Some(rest) => match split_once_at(rest, ']') {
            Some((inside, after)) => Some((trimmed(inside), start_trimmed(after))),
            None => None,
        },
        None => None,
    }
}

/// A trimmed text without its leading bracket, where that holds a timestamp.
pub open spec fn after_bracket(text: Seq<char>, is_timestamp: bool) -> Seq<char> {
    match bracketed(text) {
        Some((_, after)) => if is_timestamp {
            after
        } else {
            text
        },
        None => text,
    }
}

/// A trimmed text without its leading bracket, where that is said to hold a timestamp.
pub fn drop_bracket<'a>(text: &'a str, is_timestamp: bool) -> (r: &'a str)
    ensures
        r@ == after_bracket(text@, is_timestamp),
{
    match split_bracket(text) {
        Some((_, after)) => if is_timestamp {
            after
        } else {
            text
        },
        None => text,
    }
}

/// Whether a trimmed text starts with a timestamp in brackets.
pub open spec fn stamped(text: Seq<char>) -> bool {
    match bracketed(text) {
        Some((inside, _)) => regex_matches(timestamp_pattern(), inside),
        None => false,
    }
}

/// A line without white space around it and without a leading timestamp in brackets.
pub open spec fn unstamped(line: Seq<char>) -> Seq<char> {
    after_bracket(trim(line), stamped(trim(line)))
}

/// A line without white space around it and without a leading timestamp in brackets.
pub fn strip_leading_timestamp<'a>(rules: &LineRules, line: &'a str) -> (r: &'a str)
    requires
        rules.wf(),
    ensures
        r@ == unstamped(line@),
{
    let text: &'a str = trimmed(line);
    let is_timestamp: bool = match split_bracket(text) {
        Some((inside, _)) => rules.is_timestamp(inside),
        None => false,
    };
    drop_bracket(text, is_timestamp)
}

/// A line as it is read: without escape sequences, white space around it, and a leading
/// timestamp in brackets.
pub open spec fn normalized(line: Seq<char>) -> Seq<char> {
    unstamped(regex_replaced(ansi_pattern(), line, ""@))
}

/// A line as it is read.
pub fn normalize_log_line(rules: &LineRules, line: &str) -> (r: String)
    requires
        rules.wf(),
    ensures
        r@ == normalized(line@),
        !regex_matches(ansi_pattern(), line@) ==> r@ == unstamped(line@),
{
    let plain: String = rules.without_escapes(line);
    strip_leading_timestamp(rules, plain.as_str()).to_string()
}

/// What is left of a line has no white space at either end.
pub proof fn law_cleaned_line_is_trimmed(line: Seq<char>)
    ensures
        trim(normalized(line)) == normalized(line),
{
    let plain = regex_replaced(ansi_pattern(), line, ""@);
    let text = trim(plain);
    lemma_trimmed_ends(plain);
    match bracketed(text) {
        Some((_, after)) => {
            let (_, rest) = split_once(text.skip(1), ']')->0;
            lemma_char_pos(text.skip(1), ']');
            lemma_trim_start(rest);
            if after.len() > 0 {
                assert(after.last() == rest.last());
                assert(rest.last() == text.last());
            }
            lemma_trim_of_trimmed(after);
        },
        None => {},
    }
    lemma_trim_of_trimmed(text);
}

/// What trimming leaves has no white space at its ends.
pub proof fn lemma_trimmed_ends(s: Seq<char>)
    ensures
        trim(s).len() > 0 ==> !is_space(trim(s)[0]) && !is_space(trim(s).last()),
{
    lemma_trim_start(s);
    lemma_trim_end(trim_start(s));
}

proof fn lemma_trim_end(s: Seq<char>)
    ensures
        trim_end(s).len() <= s.len(),
        trim_end(s) == s.take(trim_end(s).len() as int),
        trim_end(s).len() > 0 ==> !is_space(trim_end(s).last()),
    decreases s.len(),
{
    if s.len() > 0 && is_space(s.last()) {
        lemma_trim_end(s.drop_last());
        assert(s.drop_last().take(trim_end(s).len() as int) == s.take(trim_end(s).len() as int));
    } else {
        assert(s.take(s.len() as int) == s);
    }
}

// ---------------------------------------------------------------------------
// Levels

/// The level that a profile gives a cleaned line. Its level patterns come first, the most
/// severe before the others; then its error and its warning patterns.
pub open spec fn profile_level(cleaned: Seq<char>, filter: CommandFilterConfig) -> char {
    let line = lower(cleaned);
    let lp = filter.level_patterns;
    if holds_pattern(line, texts(lp.fatal@)) {
        'F'
    } else if holds_pattern(line, texts(lp.error@)) {
        'E'
    } else if holds_pattern(line, texts(lp.warning@)) {
        'W'
    } else if holds_pattern(line, texts(lp.info@)) {
        'I'
    } else if holds_pattern(line, texts(lp.trace@)) {
        'T'
    } else if holds_pattern(line, texts(filter.error_patterns@)) {
        'E'
    } else if holds_pattern(line, texts(filter.warning_patterns@)) {
        'W'
    } else {
        'U'
    }
}

/// The level of a cleaned line: trace where nothing is left of it, unknown without a
/// profile.
pub open spec fn level_of(cleaned: Seq<char>, filter: Option<&CommandFilterConfig>) -> char {
    if cleaned.len() == 0 {
        'T'
    } else {
        match filter {
            Some(f) => profile_level(cleaned, *f),
            None => 'U',
        }
    }
}

/// The level of a cleaned line.
pub fn classify_cleaned(cleaned: &str, filter: Option<&CommandFilterConfig>) -> (r: char)
    ensures
        r == level_of(cleaned@, filter),
{
    if cleaned.is_empty() {
        return 'T';
    }
    let lower: String = lower_text(cleaned);
    let line: &str = lower.as_str();
    match filter {
        Some(f) => {
            if contains_any_pattern(line, &f.level_patterns.fatal) {
                'F'
            } else if contains_any_pattern(line, &f.level_patterns.error) {
                'E'
            } else if contains_any_pattern(line, &f.level_patterns.warning) {
                'W'
            } else if contains_any_pattern(line, &f.level_patterns.info) {
                'I'
            } else if contains_any_pattern(line, &f.level_patterns.trace) {
                'T'
            } else if contains_any_pattern(line, &f.error_patterns) {
                'E'
            } else if contains_any_pattern(line, &f.warning_patterns) {
                'W'
            } else {
                'U'
            }
        },
        None => 'U',
    }
}

/// The level of a line of output. Which stream it came from makes no difference.
pub fn classify_log_level(
    rules: &LineRules,
    _kind: &str,
    line: &str,
    filter: Option<&CommandFilterConfig>,
) -> (r: char)
    requires
        rules.wf(),
    ensures
        r == level_of(normalized(line@), filter),
{
    let cleaned: String = normalize_log_line(rules, line);
    classify_cleaned(cleaned.as_str(), filter)
}

/// A level is one of six letters.
pub open spec fn is_level(c: char) -> bool {
    c == 'F' || c == 'E' || c == 'W' || c == 'I' || c == 'T' || c == 'U'
}

/// Every line has a level; only a blank one has the level `T` without a profile.
pub proof fn law_every_line_has_a_level(cleaned: Seq<char>, filter: Option<&CommandFilterConfig>)
    ensures
        is_level(level_of(cleaned, filter)),
        filter is None ==> level_of(cleaned, filter) == if cleaned.len() == 0 {
            'T'
        } else {
            'U'
        },
{
}

} // verus!
