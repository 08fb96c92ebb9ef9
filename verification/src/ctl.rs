//! Questions about the latest execution: its warnings and errors, its state, and its end.
use crate::ctlog::{level_code, log_record, output_kind, parse_log_line, LogSummary};
use crate::levels::is_level;
use crate::number::{i32_value, int_text, law_int_text_reads_back, lemma_int_text_word, parse_i32, parse_u32, push_i64, push_u64, u32_value};
use crate::order::last_n;
use crate::runlog::{law_record_is_read, lemma_record_unbroken, record_text};
use crate::tally::push_bounded;
use crate::text::{is_space, lemma_lines_concat, lemma_one_line, lemma_split_char_first, lemma_trim_of_trimmed, lemma_unbroken_word, lines, same, split_lines, split_once, split_once_at, texts, trim, trimmed, unbroken};
use std::collections::VecDeque;
use vstd::prelude::*;

verus! {

// ---------------------------------------------------------------------------
// Arguments

/// What the arguments ask for.
#[derive(Clone, Copy, PartialEq, Eq, Structural, Debug)]
pub enum CtlAction {
    Usage,
    Warnings,
    Errors,
    Logs,
    Status,
    Kill,
    Watch,
    Unknown,
}

/// What the arguments ask for.
pub open spec fn ctl_action_of(args: Seq<Seq<char>>) -> CtlAction {
    if args.len() == 0 {
        CtlAction::Usage
    } else if args[0] == "warnings"@ {
        CtlAction::Warnings
    } else if args[0] == "errors"@ {
        CtlAction::Errors
    } else if args[0] == "logs"@ {
        CtlAction::Logs
    } else if args[0] == "status"@ {
        CtlAction::Status
    } else if args[0] == "kill"@ {
        CtlAction::Kill
    } else if args[0] == "watch"@ {
        CtlAction::Watch
    } else {
        CtlAction::Unknown
    }
}

/// What the arguments ask for.
pub fn parse_ctl_args(args: &[String]) -> (r: CtlAction)
    ensures
        r == ctl_action_of(texts(args@)),
{
    assert(texts(args@).len() == args@.len());
    if args.len() == 0 {
        return CtlAction::Usage;
    }
    assert(texts(args@)[0] == args@[0]@);
    let first: &str = args[0].as_str();
    if same(first, "warnings") {
        CtlAction::Warnings
    } else if same(first, "errors") {
        CtlAction::Errors
    } else if same(first, "logs") {
        CtlAction::Logs
    } else if same(first, "status") {
        CtlAction::Status
    } else if same(first, "kill") {
        CtlAction::Kill
    } else if same(first, "watch") {
        CtlAction::Watch
    } else {
        CtlAction::Unknown
    }
}

/// What to show of a log.
#[derive(Clone, Copy, PartialEq, Eq, Structural, Debug)]
pub enum LogsView {
    Everything,
    Warnings,
    Errors,
    UnknownFilter,
}

/// What to show of a log, by the arguments; none where they are wrong.
pub open spec fn logs_view_of(args: Seq<Seq<char>>) -> Option<LogsView> {
    if args.len() == 0 {
        Some(LogsView::Everything)
    } else if args.len() == 2 && args[0] == "--filter"@ {
        if args[1] == "warning"@ {
            Some(LogsView::Warnings)
        } else if args[1] == "error"@ {
            Some(LogsView::Errors)
        } else {
            Some(LogsView::UnknownFilter)
        }
    } else {
        None
    }
}

/// What to show of a log, by the arguments.
pub fn parse_logs_args(args: &[String]) -> (r: Option<LogsView>)
    ensures
        r == logs_view_of(texts(args@)),
{
    assert(texts(args@).len() == args@.len());
    if args.len() == 0 {
        return Some(LogsView::Everything);
    }
    assert(texts(args@)[0] == args@[0]@);
    if args.len() == 2 && same(args[0].as_str(), "--filter") {
        assert(texts(args@)[1] == args@[1]@);
        if same(args[1].as_str(), "warning") {
            return Some(LogsView::Warnings);
        }
        if same(args[1].as_str(), "error") {
            return Some(LogsView::Errors);
        }
        return Some(LogsView::UnknownFilter);
    }
    None
}

/// Whether a process is to be killed by force; none where the arguments are wrong.
pub fn parse_kill_args(args: &[String]) -> (r: Option<bool>)
    ensures
        r == if args@.len() == 0 {
            Some(false)
        } else if args@.len() == 1 && args@[0]@ == "--force"@ {
            Some(true)
        } else {
            None
        },
{
    if args.len() == 0 {
        Some(false)
    } else if args.len() == 1 && same(args[0].as_str(), "--force") {
        Some(true)
    } else {
        None
    }
}

// ---------------------------------------------------------------------------
// Warnings and errors

/// The lines that tell what was found, and then how many there are, under a name.
pub open spec fn report_of(found: Seq<Seq<char>>, warnings: bool) -> Seq<Seq<char>> {
    found.push(
        if warnings {
            "TOTAL_WARNINGS="@ + int_text(found.len() as int)
        } else {
            "TOTAL_ERRORS="@ + int_text(found.len() as int)
        },
    )
}

/// The lines that tell the warnings or the errors of an execution, with their number.
pub fn matches_report(summary: &LogSummary, warnings: bool) -> (r: Vec<String>)
    ensures
        texts(r@) == report_of(
            if warnings {
                texts(summary.warnings@)
            } else {
                texts(summary.errors@)
            },
            warnings,
        ),
        texts(r@) == if warnings {
            texts(summary.warnings@).push("TOTAL_WARNINGS="@ + int_text(summary.warnings@.len() as int))
        } else {
            texts(summary.errors@).push("TOTAL_ERRORS="@ + int_text(summary.errors@.len() as int))
        },
{
    let values: &Vec<String> = if warnings {
        &summary.warnings
    } else {
        &summary.errors
    };
    let mut out: Vec<String> = Vec::new();
    let mut i: usize = 0;
    assert(texts(values@).take(0) == Seq::<Seq<char>>::empty());
    assert(texts(out@) == texts(values@).take(0));
    while i < values.len()
        invariant
            i <= values@.len(),
            texts(out@) == texts(values@).take(i as int),
        decreases values@.len() - i,
    {
        let ghost before = out@;
        out.push(values[i].clone());
        assert(texts(out@) == texts(before).push(values@[i as int]@));
        assert(texts(values@).take(i + 1) == texts(values@).take(i as int).push(values@[i as int]@));
        i = i + 1;
    }
    assert(texts(values@).take(i as int) == texts(values@));
    let mut total: String = if warnings {
        "TOTAL_WARNINGS=".to_string()
    } else {
        "TOTAL_ERRORS=".to_string()
    };
    push_u64(&mut total, values.len() as u64);
    let ghost before = out@;
    out.push(total);
    assert(texts(out@) == texts(before).push(total@));
    out
}

// ---------------------------------------------------------------------------
// Numbers in a log

/// The payload of a line of a log, where it is a record of a given kind.
pub open spec fn record_payload(line: Seq<char>, kind: Seq<char>) -> Option<Seq<char>> {
    match log_record(line) {
        Some((k, p)) => if k == kind {
            Some(p)
        } else {
            None
        },
        None => None,
    }
}

/// The payload of a line that starts with a time and a given kind, whether or not logs have
/// records of that kind.
pub open spec fn stamped_payload(line: Seq<char>, kind: Seq<char>) -> Option<Seq<char>> {
    match split_once(line, ' ') {
        Some((_, rest)) => match split_once(rest, ' ') {
            Some((k, payload)) => if k == kind {
                Some(trim(payload))
            } else {
                None
            },
            None => None,
        },
        None => None,
    }
}

fn read_stamped<'a>(line: &'a str, kind: &str) -> (r: Option<&'a str>)
    ensures
        match r {
            Some(p) => stamped_payload(line@, kind@) == Some(p@),
            None => stamped_payload(line@, kind@) is None,
        },
{
    match split_once_at(line, ' ') {
        Some((_, rest)) => match split_once_at(rest, ' ') {
            Some((k, payload)) => if same(k, kind) {
                Some(trimmed(payload))
            } else {
                None
            },
            None => None,
        },
        None => None,
    }
}

/// What a line says of a given kind: the payload of its record, or else what follows a time
/// and the kind.
pub open spec fn payload_of(line: Seq<char>, kind: Seq<char>) -> Option<Seq<char>> {
    match record_payload(line, kind) {
        Some(p) => Some(p),
        None => stamped_payload(line, kind),
    }
}

fn read_payload(line: &str, kind: &str) -> (r: Option<String>)
    ensures
        match r {
            Some(p) => payload_of(line@, kind@) == Some(p@),
            None => payload_of(line@, kind@) is None,
        },
{
    if let Some((k, p)) = parse_log_line(line) {
        if same(k.as_str(), kind) {
            return Some(p);
        }
    }
    match read_stamped(line, kind) {
        Some(p) => Some(p.to_string()),
        None => None,
    }
}

/// The number, not negative, that a record of a given kind holds.
pub open spec fn u32_record(line: Seq<char>, kind: Seq<char>) -> Option<int> {
    match payload_of(line, kind) {
        Some(p) => u32_value(p),
        None => None,
    }
}

/// The number that a record of a given kind holds.
pub open spec fn i32_record(line: Seq<char>, kind: Seq<char>) -> Option<int> {
    match payload_of(line, kind) {
        Some(p) => i32_value(p),
        None => None,
    }
}

/// The number, not negative, that a record of a given kind holds.
pub fn parse_u32_record(line: &str, kind: &str) -> (r: Option<u32>)
    ensures
        match r {
            Some(n) => u32_record(line@, kind@) == Some(n as int),
            None => u32_record(line@, kind@) is None,
        },
{
    match read_payload(line, kind) {
        Some(p) => parse_u32(p.as_str()),
        None => None,
    }
}

/// The number that a record of a given kind holds.
pub fn parse_i32_record(line: &str, kind: &str) -> (r: Option<i32>)
    ensures
        match r {
            Some(n) => i32_record(line@, kind@) == Some(n as int),
            None => i32_record(line@, kind@) is None,
        },
{
    match read_payload(line, kind) {
        Some(p) => parse_i32(p.as_str()),
        None => None,
    }
}

/// The number in the last record of a given kind that holds one.
pub open spec fn last_u32(ls: Seq<Seq<char>>, kind: Seq<char>) -> Option<int>
    decreases ls.len(),
{
    if ls.len() == 0 {
        None
    } else if u32_record(ls.last(), kind) is Some {
        u32_record(ls.last(), kind)
    } else {
        last_u32(ls.drop_last(), kind)
    }
}

/// The number in the last record of a given kind that holds one.
pub open spec fn last_i32(ls: Seq<Seq<char>>, kind: Seq<char>) -> Option<int>
    decreases ls.len(),
{
    if ls.len() == 0 {
        None
    } else if i32_record(ls.last(), kind) is Some {
        i32_record(ls.last(), kind)
    } else {
        last_i32(ls.drop_last(), kind)
    }
}

fn find_last_u32(ls: &Vec<String>, kind: &str) -> (r: Option<u32>)
    ensures
        match r {
            Some(n) => last_u32(texts(ls@), kind@) == Some(n as int),
            None => last_u32(texts(ls@), kind@) is None,
        },
{
    let ghost all = texts(ls@);
    let mut i: usize = ls.len();
    assert(all.take(i as int) == all);
    while i > 0
        invariant
            i <= ls@.len(),
            all == texts(ls@),
            last_u32(all.take(i as int), kind@) == last_u32(all, kind@),
        decreases i,
    {
        assert(all.take(i as int).last() == ls@[i - 1]@);
        assert(all.take(i as int).drop_last() == all.take(i - 1));
        let found: Option<u32> = parse_u32_record(ls[i - 1].as_str(), kind);
        if found.is_some() {
            return found;
        }
        i = i - 1;
    }
    assert(all.take(0) == Seq::<Seq<char>>::empty());
    None
}

/// The process of an execution: the last that was noted, or else the last that was started
/// in the background.
pub open spec fn last_pid(contents: Seq<char>) -> Option<int> {
    match last_u32(lines(contents), "PID"@) {
        Some(pid) => Some(pid),
        None => last_u32(lines(contents), "ASYNC"@),
    }
}

/// The process of an execution.
pub fn extract_last_pid(contents: &str) -> (r: Option<u32>)
    ensures
        match r {
            Some(n) => last_pid(contents@) == Some(n as int),
            None => last_pid(contents@) is None,
        },
{
    let ls: Vec<String> = split_lines(contents);
    let found: Option<u32> = find_last_u32(&ls, "PID");
    if found.is_some() {
        return found;
    }
    find_last_u32(&ls, "ASYNC")
}

/// The exit code of an execution: the last that was noted.
pub open spec fn last_exit(contents: Seq<char>) -> Option<int> {
    last_i32(lines(contents), "EXIT"@)
}

/// The exit code of an execution.
pub fn extract_exit_code(contents: &str) -> (r: Option<i32>)
    ensures
        match r {
            Some(n) => last_exit(contents@) == Some(n as int),
            None => last_exit(contents@) is None,
        },
{
    let ls: Vec<String> = split_lines(contents);
    let ghost all = texts(ls@);
    let mut i: usize = ls.len();
    assert(all.take(i as int) == all);
    while i > 0
        invariant
            i <= ls@.len(),
            all == texts(ls@),
            all == lines(contents@),
            last_i32(all.take(i as int), "EXIT"@) == last_i32(all, "EXIT"@),
        decreases i,
    {
        assert(all.take(i as int).last() == ls@[i - 1]@);
        assert(all.take(i as int).drop_last() == all.take(i - 1));
        let found: Option<i32> = parse_i32_record(ls[i - 1].as_str(), "EXIT");
        if found.is_some() {
            return found;
        }
        i = i - 1;
    }
    assert(all.take(0) == Seq::<Seq<char>>::empty());
    None
}

/// What a record says of its own kind is its payload.
pub proof fn lemma_number_record(rel: int, level: char, kind: Seq<char>, n: int)
    requires
        i64::MIN <= rel <= i64::MAX,
        is_level(level),
        kind == "PID"@ || kind == "ASYNC"@ || kind == "EXIT"@,
    ensures
        unbroken(record_text(rel, level, kind, int_text(n))),
        payload_of(record_text(rel, level, kind, int_text(n)), kind) == Some(int_text(n)),
{
    reveal_strlit("PID");
    reveal_strlit("ASYNC");
    reveal_strlit("EXIT");
    reveal_strlit("CMD");
    reveal_strlit("STDOUT");
    reveal_strlit("STDERR");
    reveal_strlit("FILTER");
    let t = int_text(n);
    lemma_int_text_word(n);
    lemma_unbroken_word(t);
    lemma_record_unbroken(rel, level, kind, t);
    assert(!is_space(t[0]) && !is_space(t.last()));
    lemma_trim_of_trimmed(t);
    law_record_is_read(rel, level, kind, t);
    assert(kind[0] == 'P' || kind[0] == 'A' || kind[0] == 'E');
    assert(kind != "CMD"@ && kind != "STDOUT"@ && kind != "STDERR"@ && kind != "FILTER"@) by {
        assert("CMD"@[0] == 'C' && "STDOUT"@[0] == 'S' && "STDERR"@[0] == 'S' && "FILTER"@[0] == 'F');
    }
}

/// A record says nothing of another kind.
pub proof fn lemma_other_record(rel: int, level: char, kind: Seq<char>, payload: Seq<char>, wanted: Seq<char>)
    requires
        i64::MIN <= rel <= i64::MAX,
        is_level(level),
        forall|j: int| 0 <= j < kind.len() ==> #[trigger] kind[j] != ' ',
        wanted != kind,
        !level_code(wanted),
    ensures
        payload_of(record_text(rel, level, kind, payload), wanted) is None,
{
    reveal_strlit(" ");
    let line = record_text(rel, level, kind, payload);
    let after = kind + seq![' '] + payload;
    let rest = seq![level] + seq![' '] + after;
    law_record_is_read(rel, level, kind, payload);
    lemma_int_text_word(rel);
    assert(line == int_text(rel) + seq![' '] + rest);
    lemma_split_char_first(int_text(rel), rest, ' ');
    lemma_split_char_first(seq![level], after, ' ');
    assert(level_code(seq![level])) by {
        reveal_strlit("F");
        reveal_strlit("E");
        reveal_strlit("W");
        reveal_strlit("I");
        reveal_strlit("T");
        reveal_strlit("U");
        assert("F"@ == seq!['F']);
        assert("E"@ == seq!['E']);
        assert("W"@ == seq!['W']);
        assert("I"@ == seq!['I']);
        assert("T"@ == seq!['T']);
        assert("U"@ == seq!['U']);
    }
}

/// A record that is appended is the last line.
pub proof fn lemma_appended_line(contents: Seq<char>, record: Seq<char>)
    requires
        contents.len() == 0 || contents.last() == '\n',
        unbroken(record),
    ensures
        lines(contents + record + "\n"@) == lines(contents).push(record),
        lines(contents).push(record).drop_last() == lines(contents),
{
    reveal_strlit("\n");
    let line = record + seq!['\n'];
    assert(contents + record + "\n"@ == contents + line);
    lemma_lines_concat(contents, line);
    lemma_one_line(record);
    assert(lines(contents) + seq![record] == lines(contents).push(record));
}

/// The line that logs an exit code gives the exit code of the log that ends with it.
pub proof fn law_logged_exit_is_found(contents: Seq<char>, rel: int, code: i32)
    requires
        contents.len() == 0 || contents.last() == '\n',
        i64::MIN <= rel <= i64::MAX,
    ensures
        ({
            let level = if code == 0 {
                'I'
            } else {
                'E'
            };
            let record = record_text(rel, level, "EXIT"@, int_text(code as int));
            last_exit(contents + record + "\n"@) == Some(code as int)
        }),
{
    let level = if code == 0 {
        'I'
    } else {
        'E'
    };
    let record = record_text(rel, level, "EXIT"@, int_text(code as int));
    lemma_number_record(rel, level, "EXIT"@, code as int);
    lemma_appended_line(contents, record);
    law_int_text_reads_back(code as int);
}

/// The line that logs a process gives the process of the log that ends with it.
pub proof fn law_logged_pid_is_found(contents: Seq<char>, rel: int, pid: u32)
    requires
        contents.len() == 0 || contents.last() == '\n',
        i64::MIN <= rel <= i64::MAX,
    ensures
        last_pid(contents + record_text(rel, 'U', "PID"@, int_text(pid as int)) + "\n"@) == Some(pid as int),
{
    let record = record_text(rel, 'U', "PID"@, int_text(pid as int));
    lemma_number_record(rel, 'U', "PID"@, pid as int);
    lemma_appended_line(contents, record);
    law_int_text_reads_back(pid as int);
}

/// The line that logs a process in the background gives the process of the log that ends
/// with it, where no other process was noted.
pub proof fn law_logged_background_pid_is_found(contents: Seq<char>, rel: int, pid: u32)
    requires
        contents.len() == 0 || contents.last() == '\n',
        i64::MIN <= rel <= i64::MAX,
        last_u32(lines(contents), "PID"@) is None,
    ensures
        last_pid(contents + record_text(rel, 'U', "ASYNC"@, int_text(pid as int)) + "\n"@) == Some(pid as int),
{
    let record = record_text(rel, 'U', "ASYNC"@, int_text(pid as int));
    lemma_number_record(rel, 'U', "ASYNC"@, pid as int);
    lemma_appended_line(contents, record);
    law_int_text_reads_back(pid as int);
    reveal_strlit("PID");
    reveal_strlit("ASYNC");
    lemma_short_kinds();
    assert("PID"@.len() != "ASYNC"@.len());
    lemma_other_record(rel, 'U', "ASYNC"@, int_text(pid as int), "PID"@);
}

/// The kinds that hold a number are no levels.
pub proof fn lemma_short_kinds()
    ensures
        !level_code("PID"@),
        !level_code("ASYNC"@),
        !level_code("EXIT"@),
{
    reveal_strlit("PID");
    reveal_strlit("ASYNC");
    reveal_strlit("EXIT");
    reveal_strlit("F");
    reveal_strlit("E");
    reveal_strlit("W");
    reveal_strlit("I");
    reveal_strlit("T");
    reveal_strlit("U");
    assert("PID"@.len() == 3 && "ASYNC"@.len() == 5 && "EXIT"@.len() == 4);
    assert("F"@.len() == 1 && "E"@.len() == 1 && "W"@.len() == 1);
    assert("I"@.len() == 1 && "T"@.len() == 1 && "U"@.len() == 1);
}

/// A record of any other kind, such as a line of output, changes neither the process nor the
/// exit code that a log gives.
pub proof fn law_other_records_do_not_count(
    contents: Seq<char>,
    rel: int,
    level: char,
    kind: Seq<char>,
    payload: Seq<char>,
)
    requires
        contents.len() == 0 || contents.last() == '\n',
        i64::MIN <= rel <= i64::MAX,
        is_level(level),
        unbroken(kind),
        unbroken(payload),
        forall|j: int| 0 <= j < kind.len() ==> #[trigger] kind[j] != ' ',
    ensures
        ({
            let longer = contents + record_text(rel, level, kind, payload) + "\n"@;
            &&& kind != "EXIT"@ ==> last_exit(longer) == last_exit(contents)
            &&& kind != "PID"@ && kind != "ASYNC"@ ==> last_pid(longer) == last_pid(contents)
        }),
{
    let record = record_text(rel, level, kind, payload);
    lemma_record_unbroken(rel, level, kind, payload);
    lemma_appended_line(contents, record);
    lemma_short_kinds();
    if kind != "EXIT"@ {
        lemma_other_record(rel, level, kind, payload, "EXIT"@);
    }
    if kind != "PID"@ && kind != "ASYNC"@ {
        lemma_other_record(rel, level, kind, payload, "PID"@);
        lemma_other_record(rel, level, kind, payload, "ASYNC"@);
    }
}

// ---------------------------------------------------------------------------
// State and end

/// The line that tells the state of an execution.
pub open spec fn status_text(pid: Option<u32>, exit: Option<i32>, running: bool) -> Seq<char> {
    match (pid, exit) {
        (Some(p), Some(code)) => "STATUS=EXITED pid="@ + int_text(p as int) + " exit="@ + int_text(code as int),
        (Some(p), None) => if running {
            "STATUS=RUNNING pid="@ + int_text(p as int)
        } else {
            "STATUS=UNKNOWN pid="@ + int_text(p as int)
        },
        (None, Some(code)) => "STATUS=EXITED exit="@ + int_text(code as int),
        (None, None) => "STATUS=UNKNOWN"@,
    }
}

/// Whether the state of an execution is known.
pub open spec fn status_known(pid: Option<u32>, exit: Option<i32>, running: bool) -> bool {
    exit is Some || (pid is Some && running)
}

/// The line that tells the state of an execution, and the exit code of the question;
/// `running` tells whether the process exists.
pub fn status_report(pid: Option<u32>, exit: Option<i32>, running: bool) -> (r: (String, i32))
    ensures
        r.0@ == status_text(pid, exit, running),
        r.1 == if status_known(pid, exit, running) {
            0int
        } else {
            1int
        },
{
    match (pid, exit) {
        (Some(p), Some(code)) => {
            let mut out: String = "STATUS=EXITED pid=".to_string();
            push_u64(&mut out, p as u64);
            out.append(" exit=");
            push_i64(&mut out, code as i64);
            (out, 0)
        },
        (Some(p), None) => {
            let mut out: String = if running {
                "STATUS=RUNNING pid=".to_string()
            } else {
                "STATUS=UNKNOWN pid=".to_string()
            };
            push_u64(&mut out, p as u64);
            if running {
                (out, 0)
            } else {
                (out, 1)
            }
        },
        (None, Some(code)) => {
            let mut out: String = "STATUS=EXITED exit=".to_string();
            push_i64(&mut out, code as i64);
            (out, 0)
        },
        (None, None) => ("STATUS=UNKNOWN".to_string(), 1),
    }
}

/// What to do to end an execution.
#[derive(Clone, Copy, PartialEq, Eq, Structural, Debug)]
pub enum KillStep {
    NoProcess,
    NotRunning(u32),
    Signal(u32),
}

/// What to do to end an execution; `running` tells whether the process exists.
pub fn plan_kill(pid: Option<u32>, running: bool) -> (r: KillStep)
    ensures
        r == match pid {
            Some(p) => if running {
                KillStep::Signal(p)
            } else {
                KillStep::NotRunning(p)
            },
            None => KillStep::NoProcess,
        },
{
    match pid {
        Some(p) => if running {
            KillStep::Signal(p)
        } else {
            KillStep::NotRunning(p)
        },
        None => KillStep::NoProcess,
    }
}

/// The option of the signal that ends a process.
pub fn kill_signal(force: bool) -> (r: &'static str)
    ensures
        r@ == if force {
            "-KILL"@
        } else {
            "-TERM"@
        },
{
    if force {
        "-KILL"
    } else {
        "-TERM"
    }
}

/// What is told of a process that does not run.
pub fn not_running_text(pid: u32) -> (r: String)
    ensures
        r@ == "NOT_RUNNING pid="@ + int_text(pid as int),
{
    let mut out: String = "NOT_RUNNING pid=".to_string();
    push_u64(&mut out, pid as u64);
    out
}

/// What is told of a process that was sent a signal.
pub fn killed_text(pid: u32, force: bool) -> (r: String)
    ensures
        r@ == "KILLED pid="@ + int_text(pid as int) + if force {
            " signal=KILL"@
        } else {
            " signal=TERM"@
        },
{
    let mut out: String = "KILLED pid=".to_string();
    push_u64(&mut out, pid as u64);
    if force {
        out.append(" signal=KILL");
    } else {
        out.append(" signal=TERM");
    }
    out
}

// ---------------------------------------------------------------------------
// Watching

/// How many of the last lines are shown.
pub const WATCH_LINES: usize = 5;

/// What a watcher has seen.
#[verifier::ext_equal]
pub struct WatchModel {
    pub pid: Option<int>,
    pub exit: Option<int>,
    pub tail: Seq<Seq<char>>,
}

/// The last lines after one more line of output; a blank one is not shown.
pub open spec fn watched_line(tail: Seq<Seq<char>>, kind: Seq<char>, line: Seq<char>) -> Seq<Seq<char>> {
    if trim(line).len() == 0 {
        tail
    } else if kind == "STDERR"@ {
        last_n(tail.push("[err] "@ + line), WATCH_LINES as int)
    } else {
        last_n(tail.push(line), WATCH_LINES as int)
    }
}

/// The last lines after some more lines of output.
pub open spec fn watched_lines(
    tail: Seq<Seq<char>>,
    kind: Seq<char>,
    ls: Seq<Seq<char>>,
) -> Seq<Seq<char>>
    decreases ls.len(),
{
    if ls.len() == 0 {
        tail
    } else {
        watched_line(watched_lines(tail, kind, ls.drop_last()), kind, ls.last())
    }
}

/// What a watcher has seen after one more line of the log.
pub open spec fn watched(m: WatchModel, line: Seq<char>) -> WatchModel {
    match log_record(line) {
        Some((kind, payload)) => if kind == "PID"@ {
            WatchModel { pid: u32_value(payload), ..m }
        } else if kind == "EXIT"@ {
            WatchModel { exit: i32_value(payload), ..m }
        } else if output_kind(kind) {
            WatchModel { tail: watched_lines(m.tail, kind, lines(payload)), ..m }
        } else {
            m
        },
        None => m,
    }
}

/// What a watcher has seen after some more lines of the log.
pub open spec fn watched_all(m: WatchModel, ls: Seq<Seq<char>>) -> WatchModel
    decreases ls.len(),
{
    if ls.len() == 0 {
        m
    } else {
        watched(watched_all(m, ls.drop_last()), ls.last())
    }
}

/// What a watcher has seen, and how many lines of the log it has looked at.
pub struct WatchState {
    processed: usize,
    pid: Option<u32>,
    exit_code: Option<i32>,
    tail: VecDeque<String>,
}

impl WatchState {
    /// What the watcher has seen.
    pub closed spec fn model(&self) -> WatchModel {
        WatchModel {
            pid: match self.pid {
                Some(p) => Some(p as int),
                None => None,
            },
            exit: match self.exit_code {
                Some(c) => Some(c as int),
                None => None,
            },
            tail: texts(self.tail@),
        }
    }

    /// How many lines it has looked at.
    pub closed spec fn seen(&self) -> int {
        self.processed as int
    }

    /// A watcher that has seen nothing.
    pub fn new() -> (r: Self)
        ensures
            r.model() == (WatchModel { pid: None, exit: None, tail: Seq::empty() }),
            r.seen() == 0,
    {
        let r = WatchState { processed: 0, pid: None, exit_code: None, tail: VecDeque::new() };
        assert(texts(r.tail@) == Seq::<Seq<char>>::empty());
        r
    }

    fn watch_output(&mut self, kind: &str, payload: &str)
        ensures
            final(self).model() == (WatchModel {
                tail: watched_lines(old(self).model().tail, kind@, lines(payload@)),
                ..old(self).model()
            }),
            final(self).seen() == old(self).seen(),
    {
        let ls: Vec<String> = split_lines(payload);
        let ghost all = texts(ls@);
        let ghost tail = texts(self.tail@);
        let mut i: usize = 0;
        assert(all.take(0) == Seq::<Seq<char>>::empty());
        while i < ls.len()
            invariant
                i <= ls@.len(),
                all == texts(ls@),
                texts(self.tail@) == watched_lines(tail, kind@, all.take(i as int)),
                self.pid == old(self).pid,
                self.exit_code == old(self).exit_code,
                self.processed == old(self).processed,
            decreases ls@.len() - i,
        {
            let line: &str = ls[i].as_str();
            proof {
                assert(all.take(i + 1).drop_last() == all.take(i as int));
                assert(all.take(i + 1).last() == line@);
            }
            if !trimmed(line).is_empty() {
                let mut entry: String = String::new();
                if same(kind, "STDERR") {
                    entry.append("[err] ");
                    entry.append(line);
                    assert(entry@ == "[err] "@ + line@);
                } else {
                    entry.append(line);
                    assert(entry@ == line@);
                }
                push_bounded(&mut self.tail, entry, WATCH_LINES);
            }
            i = i + 1;
        }
        assert(all.take(i as int) == all);
    }

    fn watch_line(&mut self, line: &str)
        ensures
            final(self).model() == watched(old(self).model(), line@),
            final(self).seen() == old(self).seen(),
    {
        if let Some((kind, payload)) = parse_log_line(line) {
            if same(kind.as_str(), "PID") {
                self.pid = parse_u32(payload.as_str());
            } else if same(kind.as_str(), "EXIT") {
                self.exit_code = parse_i32(payload.as_str());
            } else if same(kind.as_str(), "STDOUT") || same(kind.as_str(), "STDERR") {
                self.watch_output(kind.as_str(), payload.as_str());
            }
        }
    }

    /// Looks at the lines of the log that are new.
    pub fn update(&mut self, contents: &str)
        ensures
            final(self).model() == watched_all(
                old(self).model(),
                if old(self).seen() <= lines(contents@).len() {
                    lines(contents@).skip(old(self).seen())
                } else {
                    Seq::empty()
                },
            ),
            final(self).seen() == lines(contents@).len(),
    {
        let ls: Vec<String> = split_lines(contents);
        let ghost all = texts(ls@);
        let ghost m = self.model();
        let from: usize = self.processed;
        let n: usize = ls.len();
        assert(all.len() == n);
        if from < n {
            let ghost new = all.skip(from as int);
            let mut i: usize = from;
            assert(new.take(0) == Seq::<Seq<char>>::empty());
            while i < n
                invariant
                    from <= i <= n,
                    n == ls@.len(),
                    all == texts(ls@),
                    new == all.skip(from as int),
                    self.model() == watched_all(m, new.take(i - from)),
                decreases n - i,
            {
                proof {
                    assert(new.take(i + 1 - from).drop_last() == new.take(i - from));
                    assert(new.take(i + 1 - from).last() == ls@[i as int]@);
                }
                self.watch_line(ls[i].as_str());
                i = i + 1;
            }
            assert(new.take(i - from) == new);
        } else if from == n {
            assert(all.skip(from as int) == Seq::<Seq<char>>::empty());
        }
        self.processed = n;
    }

    /// Whether the execution has ended.
    pub fn finished(&self) -> (r: bool)
        ensures
            r == (self.model().exit is Some),
    {
        self.exit_code.is_some()
    }

    /// The lines that the watcher shows.
    pub fn render(&self) -> (r: Vec<String>)
        ensures
            texts(r@) == watch_text(self.model()),
    {
        let mut head: String = "ct-ctl watch | pid=".to_string();
        match self.pid {
            Some(p) => {
                push_u64(&mut head, p as u64);
            },
            None => {
                head.append("?");
            },
        }
        head.append(" | status=");
        match self.exit_code {
            Some(code) => {
                head.append("EXITED(");
                push_i64(&mut head, code as i64);
                head.append(")");
            },
            None => {
                head.append("RUNNING");
            },
        }
        assert(head@ == watch_head(self.model()));
        let mut out: Vec<String> = Vec::new();
        out.push(head);
        let ghost tail = texts(self.tail@);
        let n: usize = self.tail.len();
        let mut i: usize = 0;
        assert(texts(out@) == seq![watch_head(self.model())] + tail.take(0));
        while i < n
            invariant
                i <= n,
                n == self.tail@.len(),
                tail == texts(self.tail@),
                texts(out@) == seq![watch_head(self.model())] + tail.take(i as int),
            decreases n - i,
        {
            let ghost before = out@;
            out.push(self.tail[i].clone());
            proof {
                assert(texts(out@) == texts(before).push(tail[i as int]));
                assert(tail.take(i + 1) == tail.take(i as int).push(tail[i as int]));
                assert(texts(out@) == seq![watch_head(self.model())] + tail.take(i + 1));
            }
            i = i + 1;
        }
        assert(tail.take(i as int) == tail);
        let ghost before = out@;
        let foot: String = if self.exit_code.is_some() {
            "(process finished, watcher exits)".to_string()
        } else {
            "(Ctrl+C to close watcher without killing process)".to_string()
        };
        out.push(foot);
        assert(texts(out@) == texts(before).push(foot@));
        out
    }
}

/// The first line that a watcher shows.
pub open spec fn watch_head(m: WatchModel) -> Seq<char> {
    "ct-ctl watch | pid="@ + match m.pid {
        Some(p) => int_text(p),
        None => "?"@,
    } + " | status="@ + match m.exit {
        Some(code) => "EXITED("@ + int_text(code) + ")"@,
        None => "RUNNING"@,
    }
}

/// The lines that a watcher shows.
pub open spec fn watch_text(m: WatchModel) -> Seq<Seq<char>> {
    (seq![watch_head(m)] + m.tail).push(
        if m.exit is Some {
            "(process finished, watcher exits)"@
        } else {
            "(Ctrl+C to close watcher without killing process)"@
        },
    )
}

proof fn lemma_watched_concat(m: WatchModel, a: Seq<Seq<char>>, b: Seq<Seq<char>>)
    ensures
        watched_all(m, a + b) == watched_all(watched_all(m, a), b),
    decreases b.len(),
{
    if b.len() == 0 {
        assert(a + b == a);
    } else {
        lemma_watched_concat(m, a, b.drop_last());
        assert((a + b).drop_last() == a + b.drop_last());
        assert((a + b).last() == b.last());
    }
}

/// A watcher that looks at a log as it grows by whole lines sees what one sees that looks
/// at it once.
pub proof fn law_watching_in_steps(m: WatchModel, contents: Seq<char>, more: Seq<char>)
    requires
        contents.len() == 0 || contents.last() == '\n',
    ensures
        watched_all(
            watched_all(m, lines(contents)),
            lines(contents + more).skip(lines(contents).len() as int),
        ) == watched_all(m, lines(contents + more)),
{
    lemma_lines_concat(contents, more);
    let a = lines(contents);
    let b = lines(more);
    assert((a + b).skip(a.len() as int) == b);
    lemma_watched_concat(m, a, b);
}

} // verus!
