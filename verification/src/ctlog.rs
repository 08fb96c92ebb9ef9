//! Logs of executions: where they lie, what their lines say, and what they sum up to.
use crate::detect::{detect_tool, leading_tool};
use crate::filters::{contains_any_pattern, find_tool, holds_pattern, lower_text, tool_for, CommandFilterConfig, LoadedProfiles};
use crate::number::{all_digits, i64_value, is_digit, parse_i64};
use crate::outside::{json_from_str, json_string, utc_now_text, utc_stamp};
use crate::paths::{file_name, file_name_of, join_path, joined};
use crate::strmap::StringMap;
use crate::text::{chars_of, lemma_split_char_first, lines, lower, opt_str, opt_text, same, split_lines, split_once, split_once_at, split_words, string_of, texts, trim, trimmed, words};
use vstd::prelude::*;

verus! {

// ---------------------------------------------------------------------------
// Where logs lie

/// Why there is no log to look at.
#[derive(Clone, Copy, PartialEq, Eq, Structural, Debug)]
pub enum LogError {
    HomeNotSet,
    NoPreviousLog,
    EmptyPointer,
    MissingLog,
}

impl LogError {
    /// What is told of the error.
    pub open spec fn text(self) -> Seq<char> {
        match self {
            LogError::HomeNotSet => "HOME is not set"@,
            LogError::NoPreviousLog => "no previous execution log found"@,
            LogError::EmptyPointer => "latest log pointer is empty"@,
            LogError::MissingLog => "latest log file not found"@,
        }
    }

    /// What is told of the error.
    pub fn message(&self) -> (r: String)
        ensures
            r@ == self.text(),
    {
        match self {
            LogError::HomeNotSet => "HOME is not set".to_string(),
            LogError::NoPreviousLog => "no previous execution log found".to_string(),
            LogError::EmptyPointer => "latest log pointer is empty".to_string(),
            LogError::MissingLog => "latest log file not found".to_string(),
        }
    }
}

/// The directory of the program's files, in the home directory.
pub open spec fn home_dir(home: Seq<char>) -> Seq<char> {
    joined(home, ".ct"@)
}

/// The directory of the logs.
pub open spec fn log_dir(home: Seq<char>) -> Seq<char> {
    joined(home_dir(home), "logs"@)
}

/// The directory of the program's files; it fails where there is no home directory.
pub fn ct_home(home: Option<&str>) -> (r: Result<String, LogError>)
    ensures
        match (home, r) {
            (Some(h), Ok(dir)) => dir@ == home_dir(h@),
            (None, Err(e)) => e == LogError::HomeNotSet,
            _ => false,
        },
{
    match home {
        Some(h) => Ok(join_path(h, ".ct")),
        None => Err(LogError::HomeNotSet),
    }
}

/// The directory of the logs; it fails where there is no home directory.
pub fn logs_dir(home: Option<&str>) -> (r: Result<String, LogError>)
    ensures
        match (home, r) {
            (Some(h), Ok(dir)) => dir@ == log_dir(h@),
            (None, Err(e)) => e == LogError::HomeNotSet,
            _ => false,
        },
{
    match ct_home(home) {
        Ok(dir) => Ok(join_path(dir.as_str(), "logs")),
        Err(e) => Err(e),
    }
}

/// The file that names the latest log; it fails where there is no home directory.
pub fn latest_pointer_path(home: Option<&str>) -> (r: Result<String, LogError>)
    ensures
        match (home, r) {
            (Some(h), Ok(path)) => path@ == joined(log_dir(h@), ".latest"@),
            (None, Err(e)) => e == LogError::HomeNotSet,
            _ => false,
        },
{
    match logs_dir(home) {
        Ok(dir) => Ok(join_path(dir.as_str(), ".latest")),
        Err(e) => Err(e),
    }
}

/// The log of the latest execution, by what the file that names it holds; `pointer` is
/// none where there is no such file.
pub fn latest_log_path(home: Option<&str>, pointer: Option<&str>) -> (r: Result<String, LogError>)
    ensures
        match (home, pointer) {
            (None, _) => r == Err::<String, LogError>(LogError::HomeNotSet),
            (_, None) => r == Err::<String, LogError>(LogError::NoPreviousLog),
            (Some(h), Some(p)) => if trim(p@).len() == 0 {
                r == Err::<String, LogError>(LogError::EmptyPointer)
            } else {
                r matches Ok(path) && path@ == joined(log_dir(h@), trim(p@))
            },
        },
{
    let dir: String = match logs_dir(home) {
        Ok(dir) => dir,
        Err(e) => {
            return Err(e);
        },
    };
    match pointer {
        Some(p) => {
            let name: &str = trimmed(p);
            if name.is_empty() {
                Err(LogError::EmptyPointer)
            } else {
                Ok(join_path(dir.as_str(), name))
            }
        },
        None => Err(LogError::NoPreviousLog),
    }
}

/// The log of the latest execution, where its file exists.
pub fn existing_log_path(path: String, present: bool) -> (r: Result<String, LogError>)
    ensures
        r == if present {
            Ok::<String, LogError>(path)
        } else {
            Err::<String, LogError>(LogError::MissingLog)
        },
{
    if present {
        Ok(path)
    } else {
        Err(LogError::MissingLog)
    }
}

/// The time in UTC, with microseconds; it is one word, and not a number. What time it is,
/// is not said.
pub fn now_ts() -> (r: String)
    ensures
        utc_stamp(r@),
        forall|i: int| 0 <= i < r@.len() ==> #[trigger] r@[i] != ' ' && r@[i] != '\n' && r@[i] != '\r',
        i64_value(r@) is None,
{
    let r: String = utc_now_text();
    proof {
        lemma_stamp_word(r@);
        lemma_not_a_number(r@);
    }
    r
}

proof fn lemma_stamp_word(s: Seq<char>)
    requires
        utc_stamp(s),
    ensures
        forall|i: int| 0 <= i < s.len() ==> #[trigger] s[i] != ' ' && s[i] != '\n' && s[i] != '\r',
{
    let n = s.len() as int;
    assert forall|i: int| 0 <= i < n implies #[trigger] s[i] != ' ' && s[i] != '\n' && s[i] != '\r' by {
        assert(is_digit(s[i]) || i == 0 || i >= n - 27);
    }
}

proof fn lemma_not_a_number(s: Seq<char>)
    requires
        s.len() > 0,
        s.last() == 'Z',
    ensures
        i64_value(s) is None,
{
    let t = s.skip(1);
    assert(!is_digit('Z'));
    assert(!all_digits(s)) by {
        assert(!is_digit(s[s.len() - 1]));
    }
    if s.len() > 1 {
        assert(t[t.len() - 1] == s[s.len() - 1]);
        assert(!all_digits(t)) by {
            assert(!is_digit(t[t.len() - 1]));
        }
    }
}

// ---------------------------------------------------------------------------
// The lines of a log

/// What a line of a log is, before its payload is decoded: the command that was run, or a
/// record of some kind.
pub enum LineForm {
    Command(Seq<char>),
    Record(Seq<char>, Seq<char>),
}

/// The same, as text.
pub enum RawLine {
    Command(String),
    Record(String, String),
}

impl RawLine {
    /// The form of the line.
    pub open spec fn form(self) -> LineForm {
        match self {
            RawLine::Command(c) => LineForm::Command(c@),
            RawLine::Record(k, p) => LineForm::Record(k@, p@),
        }
    }
}

/// Whether a token is the letter of a level.
pub open spec fn level_code(token: Seq<char>) -> bool {
    token == "F"@ || token == "E"@ || token == "W"@ || token == "I"@ || token == "T"@ || token == "U"@
}

/// Whether a token is a kind of record.
pub open spec fn known_kind(token: Seq<char>) -> bool {
    token == "CMD"@ || token == "STDOUT"@ || token == "STDERR"@ || token == "FILTER"@ || token == "MODE"@
        || token == "EXIT"@ || token == "PID"@ || token == "ASYNC"@
}

/// Whether the payload of a record is a JSON string.
pub open spec fn encoded_kind(kind: Seq<char>) -> bool {
    kind == "CMD"@ || kind == "STDOUT"@ || kind == "STDERR"@ || kind == "FILTER"@
}

/// A kind and its payload, separated by a space.
pub open spec fn plain_record(s: Seq<char>) -> Option<LineForm> {
    match split_once(s, ' ') {
        Some((kind, payload)) => Some(LineForm::Record(kind, trim(payload))),
        None => None,
    }
}

/// What a line of a log is. Where it starts with a number, a level and a record follow, or
/// a record, or else the command that was run. Where it starts otherwise, a record follows.
pub open spec fn line_form(line: Seq<char>) -> Option<LineForm> {
    match split_once(line, ' ') {
        Some((stamp, rest)) => if i64_value(stamp) is Some {
            match split_once(rest, ' ') {
                Some((token, after)) => if level_code(token) {
                    plain_record(after)
                } else if known_kind(token) {
                    plain_record(rest)
                } else {
                    Some(LineForm::Command(rest))
                },
                None => Some(LineForm::Command(rest)),
            }
        } else {
            plain_record(rest)
        },
        None => None,
    }
}

/// A form with its payload decoded: a command is a `CMD`, and the payload of some kinds is
/// what `decoded` gives.
pub open spec fn decoded_form(form: LineForm, decoded: Option<Seq<char>>) -> Option<(Seq<char>, Seq<char>)> {
    match form {
        LineForm::Command(c) => Some(("CMD"@, c)),
        LineForm::Record(kind, payload) => if encoded_kind(kind) {
            match decoded {
                Some(text) => Some((kind, text)),
                None => None,
            }
        } else {
            Some((kind, payload))
        },
    }
}

/// The text that the payload of a form stands for, as a JSON string.
pub open spec fn form_json(form: LineForm) -> Option<Seq<char>> {
    match form {
        LineForm::Command(_) => None,
        LineForm::Record(_, payload) => json_string(payload),
    }
}

/// The kind and the payload that a line of a log gives.
pub open spec fn log_record(line: Seq<char>) -> Option<(Seq<char>, Seq<char>)> {
    match line_form(line) {
        Some(form) => decoded_form(form, form_json(form)),
        None => None,
    }
}

/// Whether a token is the letter of a level.
pub fn is_level_code(token: &str) -> (r: bool)
    ensures
        r == level_code(token@),
{
    same(token, "F") || same(token, "E") || same(token, "W") || same(token, "I") || same(token, "T") || same(
        token,
        "U",
    )
}

/// Whether a token is a kind of record.
pub fn is_known_kind(token: &str) -> (r: bool)
    ensures
        r == known_kind(token@),
{
    same(token, "CMD") || same(token, "STDOUT") || same(token, "STDERR") || same(token, "FILTER") || same(
        token,
        "MODE",
    ) || same(token, "EXIT") || same(token, "PID") || same(token, "ASYNC")
}

/// Whether the payload of a record is a JSON string.
fn is_encoded_kind(kind: &str) -> (r: bool)
    ensures
        r == encoded_kind(kind@),
{
    same(kind, "CMD") || same(kind, "STDOUT") || same(kind, "STDERR") || same(kind, "FILTER")
}

fn read_record(s: &str) -> (r: Option<RawLine>)
    ensures
        match r {
            Some(raw) => plain_record(s@) == Some(raw.form()),
            None => plain_record(s@) is None,
        },
{
    match split_once_at(s, ' ') {
        Some((kind, payload)) => Some(
            RawLine::Record(kind.to_string(), trimmed(payload).to_string()),
        ),
        None => None,
    }
}

/// What a line of a log is.
pub fn split_log_line(line: &str) -> (r: Option<RawLine>)
    ensures
        match r {
            Some(raw) => line_form(line@) == Some(raw.form()),
            None => line_form(line@) is None,
        },
{
    let (stamp, rest): (&str, &str) = match split_once_at(line, ' ') {
        Some(v) => v,
        None => {
            return None;
        },
    };
    if parse_i64(stamp).is_some() {
        let (token, after): (&str, &str) = match split_once_at(rest, ' ') {
            Some(v) => v,
            None => {
                return Some(RawLine::Command(rest.to_string()));
            },
        };
        if is_level_code(token) {
            return read_record(after);
        }
        if is_known_kind(token) {
            return read_record(rest);
        }
        return Some(RawLine::Command(rest.to_string()));
    }
    read_record(rest)
}

/// The kind and the payload of a line, with the text that its payload stands for.
pub fn finish_record(raw: RawLine, decoded: Option<String>) -> (r: Option<(String, String)>)
    ensures
        match r {
            Some((kind, payload)) => decoded_form(raw.form(), opt_text(decoded)) == Some((kind@, payload@)),
            None => decoded_form(raw.form(), opt_text(decoded)) is None,
        },
{
    match raw {
        RawLine::Command(command) => Some(("CMD".to_string(), command)),
        RawLine::Record(kind, payload) => if is_encoded_kind(kind.as_str()) {
            match decoded {
                Some(text) => Some((kind, text)),
                None => None,
            }
        } else {
            Some((kind, payload))
        },
    }
}

/// The kind and the payload that a line of a log gives.
pub fn parse_log_line(line: &str) -> (r: Option<(String, String)>)
    ensures
        match r {
            Some((kind, payload)) => log_record(line@) == Some((kind@, payload@)),
            None => log_record(line@) is None,
        },
{
    let raw: RawLine = match split_log_line(line) {
        Some(raw) => raw,
        None => {
            return None;
        },
    };
    let decoded: Option<String> = match &raw {
        RawLine::Record(kind, payload) => if is_encoded_kind(kind.as_str()) {
            match json_from_str(payload.as_str()) {
                Ok(text) => Some(text),
                Err(_) => None,
            }
        } else {
            None
        },
        RawLine::Command(_) => None,
    };
    finish_record(raw, decoded)
}

// ---------------------------------------------------------------------------
// The output that a log holds

/// Whether a kind of record holds output.
pub open spec fn output_kind(kind: Seq<char>) -> bool {
    kind == "STDOUT"@ || kind == "STDERR"@
}

/// The lines of output that a line of a log holds.
pub open spec fn output_in(line: Seq<char>) -> Seq<Seq<char>> {
    match log_record(line) {
        Some((kind, payload)) => if output_kind(kind) {
            lines(payload)
        } else {
            Seq::empty()
        },
        None => Seq::empty(),
    }
}

/// The lines of output that the lines of a log hold.
pub open spec fn output_of(ls: Seq<Seq<char>>) -> Seq<Seq<char>>
    decreases ls.len(),
{
    if ls.len() == 0 {
        Seq::empty()
    } else {
        output_of(ls.drop_last()) + output_in(ls.last())
    }
}

/// The lines of output that a log holds.
pub fn output_lines(contents: &str) -> (r: Vec<String>)
    ensures
        texts(r@) == output_of(lines(contents@)),
{
    let ls: Vec<String> = split_lines(contents);
    let ghost all = lines(contents@);
    let mut out: Vec<String> = Vec::new();
    let mut i: usize = 0;
    assert(all.take(0) == Seq::<Seq<char>>::empty());
    assert(texts(out@) == output_of(all.take(0)));
    while i < ls.len()
        invariant
            i <= ls@.len(),
            texts(ls@) == all,
            texts(out@) == output_of(all.take(i as int)),
        decreases ls@.len() - i,
    {
        proof {
            assert(all.take(i + 1).drop_last() == all.take(i as int));
            assert(all.take(i + 1).last() == ls@[i as int]@);
        }
        let ghost before = out@;
        match parse_log_line(ls[i].as_str()) {
            Some((kind, payload)) => {
                if same(kind.as_str(), "STDOUT") || same(kind.as_str(), "STDERR") {
                    let mut part: Vec<String> = split_lines(payload.as_str());
                    let ghost added = part@;
                    out.append(&mut part);
                    assert(texts(out@) == texts(before) + texts(added));
                } else {
                    assert(texts(before) + Seq::<Seq<char>>::empty() == texts(before));
                }
            },
            None => {
                assert(texts(before) + Seq::<Seq<char>>::empty() == texts(before));
            },
        }
        i = i + 1;
    }
    assert(all.take(i as int) == all);
    out
}

// ---------------------------------------------------------------------------
// Warnings and errors

/// The warnings and the errors among the lines of an execution.
pub struct LogSummary {
    pub errors: Vec<String>,
    pub warnings: Vec<String>,
}

impl Default for LogSummary {
    fn default() -> (r: Self)
        ensures
            r.errors@.len() == 0,
            r.warnings@.len() == 0,
    {
        LogSummary { errors: Vec::new(), warnings: Vec::new() }
    }
}

/// Whether the level patterns of a profile tell warnings and errors, in place of its other
/// patterns.
pub open spec fn tells_levels(filter: CommandFilterConfig) -> bool {
    filter.level_patterns.warning@.len() > 0 || filter.level_patterns.error@.len() > 0
}

/// Whether a line is a warning; without a profile none is.
pub open spec fn warning_line(filter: Option<&CommandFilterConfig>, line: Seq<char>) -> bool {
    match filter {
        Some(f) => holds_pattern(
            lower(line),
            if tells_levels(*f) {
                texts(f.level_patterns.warning@)
            } else {
                texts(f.warning_patterns@)
            },
        ),
        None => false,
    }
}

/// Whether a line is an error; without a profile none is.
pub open spec fn error_line(filter: Option<&CommandFilterConfig>, line: Seq<char>) -> bool {
    match filter {
        Some(f) => holds_pattern(
            lower(line),
            if tells_levels(*f) {
                texts(f.level_patterns.error@)
            } else {
                texts(f.error_patterns@)
            },
        ),
        None => false,
    }
}

/// The warnings and the errors among some lines of output.
pub fn summarize_lines(ls: &Vec<String>, filter: Option<&CommandFilterConfig>) -> (r: LogSummary)
    ensures
        texts(r.warnings@) == texts(ls@).filter(|l: Seq<char>| warning_line(filter, l)),
        texts(r.errors@) == texts(ls@).filter(|l: Seq<char>| error_line(filter, l)),
{
    let ghost all = texts(ls@);
    let ghost wf = |l: Seq<char>| warning_line(filter, l);
    let ghost ef = |l: Seq<char>| error_line(filter, l);
    let mut summary: LogSummary = LogSummary::default();
    let mut i: usize = 0;
    proof {
        reveal(Seq::filter);
        assert(texts(summary.warnings@) == all.take(0).filter(wf));
        assert(texts(summary.errors@) == all.take(0).filter(ef));
    }
    while i < ls.len()
        invariant
            i <= ls@.len(),
            all == texts(ls@),
            wf == (|l: Seq<char>| warning_line(filter, l)),
            ef == (|l: Seq<char>| error_line(filter, l)),
            texts(summary.warnings@) == all.take(i as int).filter(wf),
            texts(summary.errors@) == all.take(i as int).filter(ef),
        decreases ls@.len() - i,
    {
        let line: &String = &ls[i];
        let ghost before = summary;
        proof {
            reveal(Seq::filter);
            assert(all.take(i + 1).drop_last() == all.take(i as int));
            assert(all.take(i + 1).last() == line@);
        }
        match filter {
            Some(f) => {
                let lower: String = lower_text(line.as_str());
                let levels: bool = f.level_patterns.warning.len() > 0 || f.level_patterns.error.len() > 0;
                let warnings: &Vec<String> = if levels {
                    &f.level_patterns.warning
                } else {
                    &f.warning_patterns
                };
                let errors: &Vec<String> = if levels {
                    &f.level_patterns.error
                } else {
                    &f.error_patterns
                };
                if contains_any_pattern(lower.as_str(), warnings) {
                    summary.warnings.push(line.clone());
                    assert(texts(summary.warnings@) == texts(before.warnings@).push(line@));
                }
                if contains_any_pattern(lower.as_str(), errors) {
                    summary.errors.push(line.clone());
                    assert(texts(summary.errors@) == texts(before.errors@).push(line@));
                }
            },
            None => {},
        }
        i = i + 1;
    }
    assert(all.take(i as int) == all);
    summary
}

// ---------------------------------------------------------------------------
// The profile of a log

/// A quotation mark.
pub open spec fn is_quote(c: char) -> bool {
    c == '\'' || c == '"'
}

/// `s` without the quotation marks that it starts with.
pub open spec fn unquoted_start(s: Seq<char>) -> Seq<char>
    decreases s.len(),
{
    if s.len() > 0 && is_quote(s[0]) {
        unquoted_start(s.skip(1))
    } else {
        s
    }
}

/// `s` without the quotation marks that it ends with.
pub open spec fn unquoted_end(s: Seq<char>) -> Seq<char>
    decreases s.len(),
{
    if s.len() > 0 && is_quote(s.last()) {
        unquoted_end(s.drop_last())
    } else {
        s
    }
}

/// `s` without quotation marks at either end.
pub fn unquoted(s: &str) -> (r: String)
    ensures
        r@ == unquoted_end(unquoted_start(s@)),
{
    let v: Vec<char> = chars_of(s);
    let mut i: usize = 0;
    assert(s@.skip(0) == s@);
    while i < v.len() && (v[i] == '\'' || v[i] == '"')
        invariant
            i <= v@.len(),
            v@ == s@,
            unquoted_start(s@.skip(i as int)) == unquoted_start(s@),
        decreases v@.len() - i,
    {
        assert(s@.skip(i as int)[0] == v@[i as int]);
        assert(s@.skip(i as int).skip(1) == s@.skip(i + 1));
        i = i + 1;
    }
    let ghost t = s@.skip(i as int);
    assert(unquoted_start(s@) == t) by {
        if i < v@.len() {
            assert(t[0] == v@[i as int]);
        }
    }
    let mut k: usize = v.len();
    assert(t.take(k - i) == t);
    while i < k && (v[k - 1] == '\'' || v[k - 1] == '"')
        invariant
            i <= k <= v@.len(),
            v@ == s@,
            t == s@.skip(i as int),
            unquoted_end(t.take(k - i)) == unquoted_end(t),
        decreases k,
    {
        assert(t.take(k - i).last() == v@[k - 1]);
        assert(t.take(k - i).drop_last() == t.take(k - 1 - i));
        k = k - 1;
    }
    proof {
        let u = t.take(k - i);
        if i < k {
            assert(u.last() == v@[k - 1]);
        }
        assert(unquoted_end(t) == u);
        assert(u == v@.subrange(i as int, k as int));
    }
    string_of(v.as_slice(), i, k)
}

/// The name of the program that a command line runs: the file name of its first word,
/// without quotation marks around it.
pub open spec fn exec_name(command: Seq<char>) -> Option<Seq<char>> {
    let w = words(command);
    if w.len() == 0 {
        None
    } else {
        file_name_of(unquoted_end(unquoted_start(w[0])))
    }
}

/// The name of the program that a command line runs.
pub fn extract_exec_name(command_line: &str) -> (r: Option<String>)
    ensures
        opt_text(r) == exec_name(command_line@),
{
    let w: Vec<String> = split_words(command_line);
    assert(texts(w@).len() == w@.len());
    if w.len() == 0 {
        return None;
    }
    assert(texts(w@)[0] == w@[0]@);
    let token: String = unquoted(w[0].as_str());
    file_name(token.as_str())
}

/// The records of a log.
pub open spec fn log_records(ls: Seq<Seq<char>>) -> Seq<(Seq<char>, Seq<char>)> {
    ls.filter_map(|l: Seq<char>| log_record(l))
}

/// The tool that the first `FILTER` record names.
pub open spec fn marker_of(rs: Seq<(Seq<char>, Seq<char>)>) -> Option<Seq<char>>
    decreases rs.len(),
{
    if rs.len() == 0 {
        None
    } else {
        match marker_of(rs.drop_last()) {
            Some(tool) => Some(tool),
            None => if rs.last().0 == "FILTER"@ {
                Some(rs.last().1)
            } else {
                None
            },
        }
    }
}

/// The program that was run: that of the first `CMD` record that names one, up to the
/// first `FILTER` record.
pub open spec fn program_of(rs: Seq<(Seq<char>, Seq<char>)>) -> Option<Seq<char>>
    decreases rs.len(),
{
    if rs.len() == 0 {
        None
    } else if marker_of(rs.drop_last()) is Some {
        program_of(rs.drop_last())
    } else {
        match program_of(rs.drop_last()) {
            Some(name) => Some(name),
            None => if rs.last().0 == "CMD"@ {
                exec_name(rs.last().1)
            } else {
                None
            },
        }
    }
}

proof fn lemma_marker_ends(ls: Seq<Seq<char>>, k: int)
    requires
        0 <= k <= ls.len(),
        marker_of(log_records(ls.take(k))) is Some,
    ensures
        marker_of(log_records(ls)) == marker_of(log_records(ls.take(k))),
        program_of(log_records(ls)) == program_of(log_records(ls.take(k))),
    decreases ls.len() - k,
{
    if k == ls.len() {
        assert(ls.take(k) == ls);
    } else {
        lemma_records_push(ls, k);
        lemma_marker_ends(ls, k + 1);
    }
}

proof fn lemma_records_push(ls: Seq<Seq<char>>, k: int)
    requires
        0 <= k < ls.len(),
    ensures
        match log_record(ls[k]) {
            Some(r) => {
                &&& log_records(ls.take(k + 1)) == log_records(ls.take(k)).push(r)
                &&& log_records(ls.take(k + 1)).drop_last() == log_records(ls.take(k))
                &&& log_records(ls.take(k + 1)).last() == r
            },
            None => log_records(ls.take(k + 1)) == log_records(ls.take(k)),
        },
{
    assert(ls.take(k + 1).drop_last() == ls.take(k));
    assert(ls.take(k + 1).last() == ls[k]);
    match log_record(ls[k]) {
        Some(r) => {
            assert(log_records(ls.take(k)) + seq![r] == log_records(ls.take(k)).push(r));
            assert(log_records(ls.take(k)).push(r).drop_last() == log_records(ls.take(k)));
        },
        None => {},
    }
}

/// The tool that a log names, and the program that was run.
pub fn log_hints(contents: &str) -> (r: (Option<String>, Option<String>))
    ensures
        opt_text(r.0) == marker_of(log_records(lines(contents@))),
        opt_text(r.1) == program_of(log_records(lines(contents@))),
{
    let ls: Vec<String> = split_lines(contents);
    let ghost all = lines(contents@);
    let mut program: Option<String> = None;
    let mut i: usize = 0;
    assert(all.take(0) == Seq::<Seq<char>>::empty());
    assert(log_records(all.take(0)) == Seq::<(Seq<char>, Seq<char>)>::empty());
    while i < ls.len()
        invariant
            i <= ls@.len(),
            texts(ls@) == all,
            all == lines(contents@),
            marker_of(log_records(all.take(i as int))) is None,
            opt_text(program) == program_of(log_records(all.take(i as int))),
        decreases ls@.len() - i,
    {
        assert(all[i as int] == ls@[i as int]@);
        proof {
            lemma_records_push(all, i as int);
        }
        match parse_log_line(ls[i].as_str()) {
            Some((kind, payload)) => {
                if same(kind.as_str(), "FILTER") {
                    proof {
                        reveal_strlit("FILTER");
                        reveal_strlit("CMD");
                        assert("FILTER"@.len() != "CMD"@.len());
                        lemma_marker_ends(all, i + 1);
                    }
                    return (Some(payload), program);
                }
                if same(kind.as_str(), "CMD") && program.is_none() {
                    program = extract_exec_name(payload.as_str());
                }
            },
            None => {},
        }
        i = i + 1;
    }
    assert(all.take(i as int) == all);
    (None, program)
}

/// The tool whose profile applies, by what a log names, by the program that was run, and
/// by the tool that its output points to, in this order.
pub open spec fn chosen_tool(
    tools: Map<Seq<char>, CommandFilterConfig>,
    marker: Option<Seq<char>>,
    program: Option<Seq<char>>,
    pointed: Option<Seq<char>>,
) -> Option<Seq<char>> {
    if marker matches Some(tool) && tools.contains_key(tool) && tools[tool].enabled {
        marker
    } else if program matches Some(name) && tool_for(tools, name) is Some {
        tool_for(tools, program->0)
    } else {
        pointed
    }
}

/// The tool whose profile applies to a log.
pub open spec fn log_tool(contents: Seq<char>, loaded: LoadedProfiles) -> Option<Seq<char>> {
    let rs = log_records(lines(contents));
    chosen_tool(
        loaded.tools@,
        marker_of(rs),
        program_of(rs),
        if loaded.auto_detect_log_type {
            leading_tool(loaded.tools@, output_of(lines(contents)))
        } else {
            None
        },
    )
}

/// A profile of a map of profiles.
pub open spec fn profile_at(
    tools: Map<Seq<char>, CommandFilterConfig>,
    tool: Option<Seq<char>>,
) -> Option<CommandFilterConfig> {
    match tool {
        Some(t) => Some(tools[t]),
        None => None,
    }
}

/// An optional profile as a value.
pub open spec fn opt_filter(filter: Option<&CommandFilterConfig>) -> Option<CommandFilterConfig> {
    match filter {
        Some(f) => Some(*f),
        None => None,
    }
}

/// The profile that applies, by what a log names and by the program that was run.
pub fn named_profile<'a>(
    tools: &'a StringMap<CommandFilterConfig>,
    marker: Option<&str>,
    program: Option<&str>,
) -> (r: Option<&'a CommandFilterConfig>)
    requires
        tools.wf(),
    ensures
        opt_filter(r) == profile_at(tools@, chosen_tool(tools@, opt_str(marker), opt_str(program), None)),
{
    if let Some(tool) = marker {
        if let Some(filter) = tools.get(tool) {
            if filter.enabled {
                return Some(filter);
            }
        }
    }
    if let Some(name) = program {
        if let Some(i) = find_tool(tools, name) {
            return Some(tools.value_at(i));
        }
    }
    None
}

/// The profile of the tool that most lines of output of a log point to.
pub fn detect_filter_by_log_contents<'a>(
    contents: &str,
    profiles: &'a StringMap<CommandFilterConfig>,
) -> (r: Option<&'a CommandFilterConfig>)
    requires
        profiles.wf(),
    ensures
        opt_filter(r) == profile_at(profiles@, leading_tool(profiles@, output_of(lines(contents@)))),
{
    let ls: Vec<String> = output_lines(contents);
    match detect_tool(profiles, &ls) {
        Some(i) => Some(profiles.value_at(i)),
        None => None,
    }
}

/// The profile that applies to a log.
pub fn resolve_filter_for_log<'a>(contents: &str, loaded: &'a LoadedProfiles) -> (r: Option<
    &'a CommandFilterConfig,
>)
    requires
        loaded.wf(),
    ensures
        opt_filter(r) == profile_at(loaded.tools@, log_tool(contents@, *loaded)),
{
    let (marker, program): (Option<String>, Option<String>) = log_hints(contents);
    let marker_text: Option<&str> = match &marker {
        Some(s) => Some(s.as_str()),
        None => None,
    };
    let program_text: Option<&str> = match &program {
        Some(s) => Some(s.as_str()),
        None => None,
    };
    let named: Option<&'a CommandFilterConfig> = named_profile(&loaded.tools, marker_text, program_text);
    if named.is_some() {
        return named;
    }
    if loaded.auto_detect_log_type {
        return detect_filter_by_log_contents(contents, &loaded.tools);
    }
    None
}

/// The profile that applies to a log, as the contracts name it.
pub open spec fn log_profile(contents: Seq<char>, loaded: LoadedProfiles) -> Option<CommandFilterConfig> {
    profile_at(loaded.tools@, log_tool(contents, loaded))
}

/// The warnings that a log holds, by the profile that applies to it.
pub open spec fn log_warnings(contents: Seq<char>, loaded: LoadedProfiles) -> Seq<Seq<char>> {
    output_of(lines(contents)).filter(
        |l: Seq<char>|
            match log_profile(contents, loaded) {
                Some(f) => warning_line(Some(&f), l),
                None => false,
            },
    )
}

/// The errors that a log holds, by the profile that applies to it.
pub open spec fn log_errors(contents: Seq<char>, loaded: LoadedProfiles) -> Seq<Seq<char>> {
    output_of(lines(contents)).filter(
        |l: Seq<char>|
            match log_profile(contents, loaded) {
                Some(f) => error_line(Some(&f), l),
                None => false,
            },
    )
}

/// The warnings and the errors that a log holds.
pub fn summarize_log(contents: &str, loaded: &LoadedProfiles) -> (r: LogSummary)
    requires
        loaded.wf(),
    ensures
        texts(r.warnings@) == log_warnings(contents@, *loaded),
        texts(r.errors@) == log_errors(contents@, *loaded),
        texts(r.warnings@) == output_of(lines(contents@)).filter(
            |l: Seq<char>|
                match log_profile(contents@, *loaded) {
                    Some(f) => warning_line(Some(&f), l),
                    None => false,
                },
        ),
        texts(r.errors@) == output_of(lines(contents@)).filter(
            |l: Seq<char>|
                match log_profile(contents@, *loaded) {
                    Some(f) => error_line(Some(&f), l),
                    None => false,
                },
        ),
{
    let filter: Option<&CommandFilterConfig> = resolve_filter_for_log(contents, loaded);
    let ls: Vec<String> = output_lines(contents);
    let r: LogSummary = summarize_lines(&ls, filter);
    proof {
        let w1 = |l: Seq<char>| warning_line(filter, l);
        let w2 = |l: Seq<char>|
            match log_profile(contents@, *loaded) {
                Some(f) => warning_line(Some(&f), l),
                None => false,
            };
        assert(w1 =~= w2);
        let e1 = |l: Seq<char>| error_line(filter, l);
        let e2 = |l: Seq<char>|
            match log_profile(contents@, *loaded) {
                Some(f) => error_line(Some(&f), l),
                None => false,
            };
        assert(e1 =~= e2);
    }
    r
}

// ---------------------------------------------------------------------------
// What the choice of a profile goes by

/// The first marker in a log counts, whatever comes after it.
pub proof fn law_first_marker_counts(
    rs: Seq<(Seq<char>, Seq<char>)>,
    tool: Seq<char>,
    more: Seq<(Seq<char>, Seq<char>)>,
)
    requires
        marker_of(rs) is None,
    ensures
        marker_of(rs.push(("FILTER"@, tool)) + more) == Some(tool),
        program_of(rs.push(("FILTER"@, tool)) + more) == program_of(rs),
    decreases more.len(),
{
    let marked = rs.push(("FILTER"@, tool));
    if more.len() == 0 {
        assert(marked + more == marked);
        assert(marked.drop_last() == rs);
        reveal_strlit("FILTER");
        reveal_strlit("CMD");
        assert("FILTER"@.len() != "CMD"@.len());
    } else {
        law_first_marker_counts(rs, tool, more.drop_last());
        assert((marked + more).drop_last() == marked + more.drop_last());
    }
}

/// Whether a log names a tool with an enabled profile.
pub open spec fn names_tool(tools: Map<Seq<char>, CommandFilterConfig>, marker: Option<Seq<char>>) -> bool {
    marker matches Some(tool) && tools.contains_key(tool) && tools[tool].enabled
}

/// The tool that a log names comes before its command and its output.
pub proof fn law_marker_comes_first(contents: Seq<char>, loaded: LoadedProfiles)
    requires
        names_tool(loaded.tools@, marker_of(log_records(lines(contents)))),
    ensures
        log_tool(contents, loaded) == marker_of(log_records(lines(contents))),
{
}

/// The program that was run comes before its output.
pub proof fn law_program_comes_before_output(contents: Seq<char>, loaded: LoadedProfiles, name: Seq<char>)
    requires
        !names_tool(loaded.tools@, marker_of(log_records(lines(contents)))),
        program_of(log_records(lines(contents))) == Some(name),
        tool_for(loaded.tools@, name) is Some,
    ensures
        log_tool(contents, loaded) == tool_for(loaded.tools@, name),
{
}

/// Where guessing is off, output alone chooses no profile, and nothing in it is a warning
/// or an error.
pub proof fn law_guessing_can_be_switched_off(contents: Seq<char>, loaded: LoadedProfiles)
    requires
        !loaded.auto_detect_log_type,
        !names_tool(loaded.tools@, marker_of(log_records(lines(contents)))),
        program_of(log_records(lines(contents))) matches Some(name) ==> tool_for(loaded.tools@, name) is None,
    ensures
        log_tool(contents, loaded) is None,
        log_profile(contents, loaded) is None,
        forall|line: Seq<char>| !warning_line(None, line) && !error_line(None, line),
{
}

/// A record that starts with a time that is not a number is read as one.
pub proof fn law_stamped_record_is_read(stamp: Seq<char>, kind: Seq<char>, payload: Seq<char>)
    requires
        i64_value(stamp) is None,
        forall|j: int| 0 <= j < stamp.len() ==> #[trigger] stamp[j] != ' ',
        forall|j: int| 0 <= j < kind.len() ==> #[trigger] kind[j] != ' ',
    ensures
        line_form(stamp + " "@ + kind + " "@ + payload) == Some(LineForm::Record(kind, trim(payload))),
{
    reveal_strlit(" ");
    let rest = kind + seq![' '] + payload;
    assert(stamp + " "@ + kind + " "@ + payload == stamp + seq![' '] + rest);
    lemma_split_char_first(stamp, rest, ' ');
    lemma_split_char_first(kind, payload, ' ');
}

} // verus!
