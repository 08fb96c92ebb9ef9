//! What logs come to: what each record says, what output a log holds, which of its lines are
//! warnings and errors, and what is told of the run that wrote it.
use crate::ctl::{ctl_action_of, i32_record, last_exit, last_i32, last_pid, last_u32, logs_view_of, report_of, u32_record, law_logged_exit_is_found, lemma_appended_line, lemma_number_record, lemma_other_record, lemma_short_kinds, status_known, status_text, watch_head, watch_text, watched, watched_all, watched_line, watched_lines, CtlAction, LogsView, WatchModel};
use crate::ctlog::{error_line, exec_name, home_dir, line_form, log_dir, log_errors, log_profile, log_record, log_records, log_tool, log_warnings, marker_of, output_in, output_of, program_of, warning_line, LineForm, LogError};
use crate::detect::leading_tool;
use crate::filters::{tool_for, CommandFilterConfig, LoadedProfiles};
use crate::levels::is_level;
use crate::number::{i32_value, i64_value, int_text, law_int_text_reads_back, lemma_int_text_word, u32_value};
use crate::outside::json_string;
use crate::profile_laws::{law_patterns_are_looked_for, mentions};
use crate::run::{action_of, CtAction};
use crate::runlog::{command_text, law_record_is_read, logged_start, record_text, time_since};
use crate::text::{is_space, lemma_lines_concat, lemma_one_line, lemma_split_char_first, lemma_trim_of_trimmed, lines, trim, unbroken, words};
use crate::text_laws::{law_file_name, law_words};
use vstd::prelude::*;

verus! {

// ---------------------------------------------------------------------------
// Records

/// A line that starts with a number and a level is a record, whatever its level.
pub proof fn law_every_level_is_read(rel: int, level: char, kind: Seq<char>, payload: Seq<char>)
    requires
        -0x8000_0000_0000_0000 <= rel <= 0x7fff_ffff_ffff_ffff,
        level == 'F' || level == 'E' || level == 'W' || level == 'I' || level == 'T' || level == 'U',
        !kind.contains(' '),
    ensures
        line_form(int_text(rel) + seq![' ', level, ' '] + kind + seq![' '] + payload) == Some(
            LineForm::Record(kind, trim(payload)),
        ),
        record_text(rel, level, kind, payload) == int_text(rel) + seq![' ', level, ' '] + kind + seq![' '] + payload,
{
    reveal_strlit(" ");
    assert forall|j: int| 0 <= j < kind.len() implies #[trigger] kind[j] != ' ' by {
        assert(kind.contains(kind[j]));
    }
    law_record_is_read(rel, level, kind, payload);
    assert(record_text(rel, level, kind, payload) == int_text(rel) + seq![' ', level, ' '] + kind + seq![' ']
        + payload);
}

/// A record of a known kind is read without a level too.
pub proof fn law_level_may_be_missing(rel: int, kind: Seq<char>, payload: Seq<char>)
    requires
        -0x8000_0000_0000_0000 <= rel <= 0x7fff_ffff_ffff_ffff,
        kind == "CMD"@ || kind == "STDOUT"@ || kind == "STDERR"@ || kind == "FILTER"@ || kind == "MODE"@ || kind
            == "EXIT"@ || kind == "PID"@ || kind == "ASYNC"@,
    ensures
        line_form(int_text(rel) + seq![' '] + kind + seq![' '] + payload) == Some(
            LineForm::Record(kind, trim(payload)),
        ),
{
    reveal_strlit("CMD");
    reveal_strlit("STDOUT");
    reveal_strlit("STDERR");
    reveal_strlit("FILTER");
    reveal_strlit("MODE");
    reveal_strlit("EXIT");
    reveal_strlit("PID");
    reveal_strlit("ASYNC");
    reveal_strlit("F");
    reveal_strlit("E");
    reveal_strlit("W");
    reveal_strlit("I");
    reveal_strlit("T");
    reveal_strlit("U");
    let n = int_text(rel);
    let rest = kind + seq![' '] + payload;
    lemma_int_text_word(rel);
    law_int_text_reads_back(rel);
    assert(n + seq![' '] + kind + seq![' '] + payload == n + seq![' '] + rest);
    lemma_split_char_first(n, rest, ' ');
    lemma_split_char_first(kind, payload, ' ');
    assert(kind.len() >= 3);
    assert("F"@.len() == 1 && "E"@.len() == 1 && "W"@.len() == 1 && "I"@.len() == 1 && "T"@.len() == 1
        && "U"@.len() == 1);
}

/// What a record says: commands, output and tools are written as JSON strings, everything
/// else as it is.
pub proof fn law_payload_of_a_record(line: Seq<char>, kind: Seq<char>, payload: Seq<char>)
    requires
        line_form(line) == Some(LineForm::Record(kind, payload)),
    ensures
        kind == "CMD"@ || kind == "STDOUT"@ || kind == "STDERR"@ || kind == "FILTER"@ ==> log_record(line) == match json_string(
            payload,
        ) {
            Some(text) => Some((kind, text)),
            None => None,
        },
        kind != "CMD"@ && kind != "STDOUT"@ && kind != "STDERR"@ && kind != "FILTER"@ ==> log_record(line) == Some(
            (kind, payload),
        ),
{
}

// ---------------------------------------------------------------------------
// Output

/// Every record of output adds all lines of its payload to the output of a log, and nothing
/// else does.
pub proof fn law_every_record_of_output_counts(ls: Seq<Seq<char>>, line: Seq<char>)
    ensures
        match log_record(line) {
            Some((kind, payload)) => output_of(ls.push(line)) == if kind == "STDOUT"@ || kind == "STDERR"@ {
                output_of(ls) + lines(payload)
            } else {
                output_of(ls)
            },
            None => output_of(ls.push(line)) == output_of(ls),
        },
        output_of(Seq::<Seq<char>>::empty()) == Seq::<Seq<char>>::empty(),
{
    assert(ls.push(line).drop_last() == ls);
    assert(ls.push(line).last() == line);
    assert(output_of(ls) + Seq::<Seq<char>>::empty() == output_of(ls));
}

/// The output of two parts of a log is the output of the one, and then that of the other.
pub proof fn law_output_is_a_sum(a: Seq<Seq<char>>, b: Seq<Seq<char>>)
    ensures
        output_of(a + b) == output_of(a) + output_of(b),
    decreases b.len(),
{
    if b.len() == 0 {
        assert(a + b == a);
        assert(output_of(a) + output_of(b) == output_of(a));
    } else {
        law_output_is_a_sum(a, b.drop_last());
        assert((a + b).drop_last() == a + b.drop_last());
        assert((a + b).last() == b.last());
        assert(output_of(a) + output_of(b.drop_last()) + output_in(b.last()) == output_of(a) + output_of(b));
    }
}

/// A record that comes `n` times adds its lines `n` times.
pub proof fn law_repeated_output_counts(ls: Seq<Seq<char>>, line: Seq<char>, kind: Seq<char>, payload: Seq<char>, n: nat)
    requires
        log_record(line) == Some((kind, payload)),
        kind == "STDOUT"@ || kind == "STDERR"@,
    ensures
        output_of(ls + Seq::new(n, |i: int| line)).len() == output_of(ls).len() + n * lines(payload).len(),
    decreases n,
{
    let all = ls + Seq::new(n, |i: int| line);
    if n == 0 {
        assert(all == ls);
        assert(0 * lines(payload).len() == 0);
    } else {
        let m = (n - 1) as nat;
        let before = ls + Seq::new(m, |i: int| line);
        law_repeated_output_counts(ls, line, kind, payload, m);
        law_every_record_of_output_counts(before, line);
        assert(all == before.push(line));
        let k = lines(payload).len();
        assert(n * k == m * k + k) by (nonlinear_arith)
            requires
                n == m + 1,
        ;
    }
}

/// A log that grows by a record of output has all the output that it had, and then the lines
/// of the record.
pub proof fn law_log_output_grows(contents: Seq<char>, line: Seq<char>, kind: Seq<char>, payload: Seq<char>)
    requires
        contents.len() == 0 || contents.last() == '\n',
        unbroken(line),
        log_record(line) == Some((kind, payload)),
        kind == "STDOUT"@ || kind == "STDERR"@,
    ensures
        output_of(lines(contents + line + seq!['\n'])) == output_of(lines(contents)) + lines(payload),
{
    let last = line + seq!['\n'];
    assert(contents + line + seq!['\n'] == contents + last);
    lemma_lines_concat(contents, last);
    lemma_one_line(line);
    assert(lines(contents) + seq![line] == lines(contents).push(line));
    law_every_record_of_output_counts(lines(contents), line);
}

/// With a profile a line of output is a warning, or an error, exactly where it holds one of
/// the patterns for them: the level patterns where there are any for warnings or errors, else
/// the others. Without a profile none is.
pub proof fn law_warnings_and_errors_hold_a_pattern(f: CommandFilterConfig, line: Seq<char>)
    ensures
        f.level_patterns.warning@.len() > 0 || f.level_patterns.error@.len() > 0 ==> {
            &&& warning_line(Some(&f), line) == mentions(line, f.level_patterns.warning@)
            &&& error_line(Some(&f), line) == mentions(line, f.level_patterns.error@)
        },
        f.level_patterns.warning@.len() == 0 && f.level_patterns.error@.len() == 0 ==> {
            &&& warning_line(Some(&f), line) == mentions(line, f.warning_patterns@)
            &&& error_line(Some(&f), line) == mentions(line, f.error_patterns@)
        },
        !warning_line(None, line),
        !error_line(None, line),
{
    law_patterns_are_looked_for(line, f.level_patterns.warning@);
    law_patterns_are_looked_for(line, f.level_patterns.error@);
    law_patterns_are_looked_for(line, f.warning_patterns@);
    law_patterns_are_looked_for(line, f.error_patterns@);
}

// ---------------------------------------------------------------------------
// The program of a log

/// The program of a command line is the file name of its first word, without the white space
/// before it, and without quotation marks around it.
pub proof fn law_program_of_a_command_line(space: Seq<char>, quote: Seq<char>, dir: Seq<char>, name: Seq<char>, rest: Seq<char>)
    requires
        forall|j: int| 0 <= j < space.len() ==> is_space(#[trigger] space[j]),
        quote.len() == 0 || quote == seq!['"'] || quote == seq!['\''],
        forall|j: int| 0 <= j < dir.len() ==> !is_space(#[trigger] dir[j]) && dir[j] != '"' && dir[j] != '\'',
        forall|j: int|
            0 <= j < name.len() ==> !is_space(#[trigger] name[j]) && name[j] != '"' && name[j] != '\'' && name[j] != '/',
        name.len() > 0,
        name != "."@,
        name != ".."@,
        rest.len() > 0 ==> is_space(rest[0]),
    ensures
        exec_name(space + (quote + name + quote) + rest) == Some(name),
        exec_name(space + (quote + (dir + seq!['/'] + name) + quote) + rest) == Some(name),
{
    assert(!name.contains('/')) by {
        if name.contains('/') {
            let j = choose|j: int| 0 <= j < name.len() && name[j] == '/';
            assert(name[j] == '/');
        }
    }
    law_file_name(dir, name);
    let path = dir + seq!['/'] + name;
    assert forall|j: int| 0 <= j < path.len() implies !is_space(#[trigger] path[j]) && path[j] != '"' && path[j] != '\'' by {
        if j < dir.len() {
            assert(path[j] == dir[j]);
        } else if j > dir.len() {
            assert(path[j] == name[j - dir.len() - 1]);
        }
    }
    lemma_quoted_word(space, quote, name, rest);
    lemma_quoted_word(space, quote, path, rest);
}

proof fn lemma_quoted_word(space: Seq<char>, quote: Seq<char>, w: Seq<char>, rest: Seq<char>)
    requires
        forall|j: int| 0 <= j < space.len() ==> is_space(#[trigger] space[j]),
        quote.len() == 0 || quote == seq!['"'] || quote == seq!['\''],
        forall|j: int| 0 <= j < w.len() ==> !is_space(#[trigger] w[j]) && w[j] != '"' && w[j] != '\'',
        w.len() > 0,
        rest.len() > 0 ==> is_space(rest[0]),
    ensures
        exec_name(space + (quote + w + quote) + rest) == crate::paths::file_name_of(w),
{
    let word = quote + w + quote;
    assert forall|j: int| 0 <= j < word.len() implies !is_space(#[trigger] word[j]) by {
        if quote.len() <= j && j < quote.len() + w.len() {
            assert(word[j] == w[j - quote.len()]);
        }
    }
    law_words(space, word, rest);
    let start = crate::ctlog::unquoted_start(word);
    assert(w[0] != '"' && w[0] != '\'' && w[w.len() - 1] != '"' && w[w.len() - 1] != '\'');
    if quote.len() == 0 {
        assert(word == w);
        assert(start == w);
    } else {
        assert(word[0] == quote[0]);
        let t = w + quote;
        assert(word.skip(1) == t);
        assert(t[0] == w[0]);
        assert(crate::ctlog::unquoted_start(t) == t);
        assert(start == t);
        assert(t.last() == quote[0]);
        assert(t.drop_last() == w);
        assert(crate::ctlog::unquoted_end(w) == w);
    }
}

/// The first command that names a program counts, whatever comes after it.
pub proof fn law_first_command_counts(
    rs: Seq<(Seq<char>, Seq<char>)>,
    command: Seq<char>,
    more: Seq<(Seq<char>, Seq<char>)>,
)
    requires
        marker_of(rs) is None,
        program_of(rs) is None,
        exec_name(command) is Some,
    ensures
        program_of(rs.push(("CMD"@, command)) + more) == exec_name(command),
    decreases more.len(),
{
    let first = rs.push(("CMD"@, command));
    if more.len() == 0 {
        assert(first + more == first);
        assert(first.drop_last() == rs);
    } else {
        law_first_command_counts(rs, command, more.drop_last());
        assert((first + more).drop_last() == first + more.drop_last());
    }
}

// ---------------------------------------------------------------------------
// Watching

/// A watcher holds the exit code of the last record of one, for every exit code, and shows
/// it; it is the one that the question for the state gives too.
pub proof fn law_watcher_shows_the_exit_code(m: WatchModel, contents: Seq<char>, rel: int, code: i32)
    requires
        contents.len() == 0 || contents.last() == '\n',
        i64::MIN <= rel <= i64::MAX,
    ensures
        ({
            let level = if code == 0 {
                'I'
            } else {
                'E'
            };
            let log = contents + record_text(rel, level, "EXIT"@, int_text(code as int)) + "\n"@;
            let seen = watched_all(m, lines(log));
            &&& seen.exit == Some(code as int)
            &&& seen.exit == last_exit(log)
            &&& seen.pid == watched_all(m, lines(contents)).pid
            &&& seen.tail == watched_all(m, lines(contents)).tail
            &&& exists|head: Seq<char>| watch_head(seen) == #[trigger] (head + "status=EXITED("@ + int_text(
                code as int,
            ) + ")"@)
        }),
{
    let level = if code == 0 {
        'I'
    } else {
        'E'
    };
    let record = record_text(rel, level, "EXIT"@, int_text(code as int));
    let log = contents + record + "\n"@;
    let seen = watched_all(m, lines(log));
    lemma_number_record(rel, level, "EXIT"@, code as int);
    lemma_appended_line(contents, record);
    law_int_text_reads_back(code as int);
    lemma_number_is_read(rel, level, "EXIT"@, code as int);
    law_logged_exit_is_found(contents, rel, code);
    assert(lines(log).last() == record);
    assert("EXIT"@ != "PID"@) by {
        reveal_strlit("EXIT");
        reveal_strlit("PID");
        assert("EXIT"@.len() != "PID"@.len());
    }
    let head = "ct-ctl watch | pid="@ + match seen.pid {
        Some(p) => int_text(p),
        None => "?"@,
    } + " | "@;
    assert(watch_head(seen) == head + "status=EXITED("@ + int_text(code as int) + ")"@) by {
        reveal_strlit(" | status=");
        reveal_strlit(" | ");
        reveal_strlit("status=EXITED(");
        reveal_strlit("EXITED(");
        assert(" | status="@ + "EXITED("@ == " | "@ + "status=EXITED("@);
        let pid = "ct-ctl watch | pid="@ + match seen.pid {
            Some(p) => int_text(p),
            None => "?"@,
        };
        let c = int_text(code as int) + ")"@;
        assert(watch_head(seen) == pid + (" | status="@ + "EXITED("@) + c);
        assert(head + "status=EXITED("@ + int_text(code as int) + ")"@ == pid + (" | "@ + "status=EXITED("@) + c);
    }
}

/// A watcher holds the process of the last record of one, and shows it.
pub proof fn law_watcher_shows_the_process(m: WatchModel, contents: Seq<char>, rel: int, pid: u32)
    requires
        contents.len() == 0 || contents.last() == '\n',
        i64::MIN <= rel <= i64::MAX,
    ensures
        ({
            let log = contents + record_text(rel, 'U', "PID"@, int_text(pid as int)) + "\n"@;
            let seen = watched_all(m, lines(log));
            &&& seen.pid == Some(pid as int)
            &&& seen.pid == last_pid(log)
            &&& seen.exit == watched_all(m, lines(contents)).exit
            &&& seen.tail == watched_all(m, lines(contents)).tail
            &&& exists|rest: Seq<char>| watch_head(seen) == #[trigger] ("ct-ctl watch | pid="@ + int_text(
                pid as int,
            ) + " | status="@ + rest)
        }),
{
    let record = record_text(rel, 'U', "PID"@, int_text(pid as int));
    let log = contents + record + "\n"@;
    let seen = watched_all(m, lines(log));
    lemma_number_record(rel, 'U', "PID"@, pid as int);
    lemma_appended_line(contents, record);
    law_int_text_reads_back(pid as int);
    lemma_number_is_read(rel, 'U', "PID"@, pid as int);
    crate::ctl::law_logged_pid_is_found(contents, rel, pid);
    assert(lines(log).last() == record);
    let rest = match seen.exit {
        Some(code) => "EXITED("@ + int_text(code) + ")"@,
        None => "RUNNING"@,
    };
    assert(watch_head(seen) == "ct-ctl watch | pid="@ + int_text(pid as int) + " | status="@ + rest);
}

proof fn lemma_number_is_read(rel: int, level: char, kind: Seq<char>, n: int)
    requires
        i64::MIN <= rel <= i64::MAX,
        is_level(level),
        kind == "PID"@ || kind == "EXIT"@,
    ensures
        log_record(record_text(rel, level, kind, int_text(n))) == Some((kind, int_text(n))),
{
    reveal_strlit("PID");
    reveal_strlit("EXIT");
    reveal_strlit("CMD");
    reveal_strlit("STDOUT");
    reveal_strlit("STDERR");
    reveal_strlit("FILTER");
    let t = int_text(n);
    lemma_int_text_word(n);
    assert(!is_space(t[0]) && !is_space(t.last()));
    lemma_trim_of_trimmed(t);
    law_record_is_read(rel, level, kind, t);
    assert(kind[0] == 'P' || kind[0] == 'E');
    assert("CMD"@[0] == 'C' && "STDOUT"@[0] == 'S' && "STDERR"@[0] == 'S' && "FILTER"@[0] == 'F');
}

/// Without an exit code a watcher shows that the run goes on, without a process a `?`; with an
/// exit code it shows that the run has ended. What it has seen stands between, line by line.
pub proof fn law_what_a_watcher_shows(m: WatchModel)
    ensures
        watch_text(m).len() == m.tail.len() + 2,
        forall|i: int| 0 <= i < m.tail.len() ==> #[trigger] watch_text(m)[i + 1] == m.tail[i],
        watch_text(m)[0] == watch_head(m),
        watch_text(m).last() == if m.exit is Some {
            "(process finished, watcher exits)"@
        } else {
            "(Ctrl+C to close watcher without killing process)"@
        },
        m.pid is None && m.exit is None ==> watch_head(m) == "ct-ctl watch | pid="@ + "?"@ + " | status="@
            + "RUNNING"@,
        m.pid is Some && m.exit is None ==> watch_head(m) == "ct-ctl watch | pid="@ + int_text(m.pid->0)
            + " | status="@ + "RUNNING"@,
{
}

/// Of output a watcher keeps the last five lines that are not blank, in their order, those of
/// the error stream marked.
pub proof fn law_watcher_keeps_the_last_lines(tail: Seq<Seq<char>>, kind: Seq<char>, line: Seq<char>)
    requires
        tail.len() <= 5,
    ensures
        ({
            let after = watched_line(tail, kind, line);
            let shown = if kind == "STDERR"@ {
                "[err] "@ + line
            } else {
                line
            };
            &&& trim(line).len() == 0 ==> after == tail
            &&& trim(line).len() > 0 && tail.len() < 5 ==> after == tail.push(shown)
            &&& trim(line).len() > 0 && tail.len() == 5 ==> after == tail.skip(1).push(shown)
        }),
{
    let shown = if kind == "STDERR"@ {
        "[err] "@ + line
    } else {
        line
    };
    if tail.len() == 5 {
        assert(tail.push(shown).skip(1) == tail.skip(1).push(shown));
    }
}

/// Every line of a record of output is looked at, one after the other.
pub proof fn law_watcher_sees_every_line(m: WatchModel, record: Seq<char>, kind: Seq<char>, payload: Seq<char>, a: Seq<Seq<char>>, line: Seq<char>)
    requires
        log_record(record) == Some((kind, payload)),
        kind == "STDOUT"@ || kind == "STDERR"@,
        lines(payload) == a.push(line),
    ensures
        watched(m, record).tail == watched_line(watched_lines(m.tail, kind, a), kind, line),
        watched(m, record).exit == m.exit,
        watched(m, record).pid == m.pid,
{
    assert(a.push(line).drop_last() == a);
    assert(a.push(line).last() == line);
    assert(kind != "PID"@ && kind != "EXIT"@) by {
        reveal_strlit("PID");
        reveal_strlit("EXIT");
        reveal_strlit("STDOUT");
        reveal_strlit("STDERR");
        assert(kind.len() == 6 && "PID"@.len() == 3 && "EXIT"@.len() == 4);
    }
}

/// What is told of the state: an exit code where there is one, and else whether the process
/// runs; the process where it is known. It is known in the first case, and where the process
/// runs.
pub proof fn law_state_is_told(pid: u32, code: i32, running: bool)
    ensures
        status_text(Some(pid), Some(code), running) == "STATUS=EXITED pid="@ + int_text(pid as int) + " exit="@
            + int_text(code as int),
        status_text(None, Some(code), running) == "STATUS=EXITED exit="@ + int_text(code as int),
        status_text(Some(pid), None, true) == "STATUS=RUNNING pid="@ + int_text(pid as int),
        status_text(Some(pid), None, false) == "STATUS=UNKNOWN pid="@ + int_text(pid as int),
        status_text(None, None, running) == "STATUS=UNKNOWN"@,
        status_known(Some(pid), Some(code), running),
        status_known(None, Some(code), running),
        status_known(Some(pid), None, true),
        !status_known(Some(pid), None, false),
        !status_known(None, None, running),
{
}

// ---------------------------------------------------------------------------
// Times

/// The start of a run is read from the first line of its log, whatever follows.
pub proof fn law_start_is_read(start: i64, command: Seq<char>, rest: Seq<char>)
    requires
        unbroken(command),
    ensures
        logged_start(command_text(start as int, command) + "\n"@ + rest) == Some(start as int),
{
    reveal_strlit(" ");
    reveal_strlit("\n");
    let n = int_text(start as int);
    let line = command_text(start as int, command);
    lemma_int_text_word(start as int);
    law_int_text_reads_back(start as int);
    crate::text::lemma_unbroken_word(n);
    crate::text::lemma_unbroken_concat(n, " "@);
    crate::text::lemma_unbroken_concat(n + " "@, command);
    assert(line + "\n"@ + rest == (line + seq!['\n']) + rest);
    lemma_lines_concat(line + seq!['\n'], rest);
    lemma_one_line(line);
    assert(lines(line + "\n"@ + rest)[0] == line);
    let tail = seq![' '] + command;
    assert(line == Seq::<char>::empty() + n + tail);
    law_words(Seq::empty(), n, tail);
    assert(words(line)[0] == n);
}

/// The time of a record is what passed since the start of the run, as far as a number can
/// hold it.
pub proof fn law_time_passed(start: i64, now: i64)
    ensures
        -0x8000_0000_0000_0000 <= now - start <= 0x7fff_ffff_ffff_ffff ==> time_since(start as int, now as int) == now
            - start,
        now - start > 0x7fff_ffff_ffff_ffff ==> time_since(start as int, now as int) == 0x7fff_ffff_ffff_ffff,
        now - start < -0x8000_0000_0000_0000 ==> time_since(start as int, now as int) == -0x8000_0000_0000_0000,
{
}

// ---------------------------------------------------------------------------
// Commands and markers

/// A line that starts with a number, and goes on with neither a level nor a known kind, is the
/// command that was run.
pub proof fn law_any_other_line_is_a_command(start: int, word: Seq<char>, rest: Seq<char>)
    requires
        -0x8000_0000_0000_0000 <= start <= 0x7fff_ffff_ffff_ffff,
        !word.contains(' '),
        word != seq!['F'] && word != seq!['E'] && word != seq!['W'] && word != seq!['I'] && word != seq!['T'] && word
            != seq!['U'],
        word != "CMD"@ && word != "STDOUT"@ && word != "STDERR"@ && word != "FILTER"@ && word != "MODE"@ && word
            != "EXIT"@ && word != "PID"@ && word != "ASYNC"@,
    ensures
        log_record(int_text(start) + seq![' '] + word) == Some(("CMD"@, word)),
        log_record(int_text(start) + seq![' '] + (word + seq![' '] + rest)) == Some(
            ("CMD"@, word + seq![' '] + rest),
        ),
{
    reveal_strlit("F");
    reveal_strlit("E");
    reveal_strlit("W");
    reveal_strlit("I");
    reveal_strlit("T");
    reveal_strlit("U");
    assert("F"@ == seq!['F']);
    assert("E"@ == seq!['E']);
    assert("W"@ == seq!['W']);
    assert("I"@ == seq!['I']);
    assert("T"@ == seq!['T']);
    assert("U"@ == seq!['U']);
    let n = int_text(start);
    let c = word + seq![' '] + rest;
    assert forall|j: int| 0 <= j < word.len() implies word[j] != ' ' by {
        assert(word.contains(word[j]));
    }
    lemma_int_text_word(start);
    law_int_text_reads_back(start);
    lemma_split_char_first(n, word, ' ');
    lemma_split_char_first(n, c, ' ');
    lemma_split_char_first(word, rest, ' ');
    crate::text::lemma_split_char_none(word, ' ');
}

/// A line without a space is no record.
pub proof fn law_line_without_space_is_no_record(line: Seq<char>)
    requires
        !line.contains(' '),
    ensures
        log_record(line) is None,
{
    assert forall|j: int| 0 <= j < line.len() implies line[j] != ' ' by {
        assert(line.contains(line[j]));
    }
    crate::text::lemma_split_char_none(line, ' ');
}

/// A log names a tool exactly where it has a record for that.
pub proof fn law_marker_is_a_record(rs: Seq<(Seq<char>, Seq<char>)>)
    ensures
        (marker_of(rs) is Some) == exists|i: int| 0 <= i < rs.len() && (#[trigger] rs[i]).0 == "FILTER"@,
    decreases rs.len(),
{
    if rs.len() > 0 {
        let front = rs.drop_last();
        let last = rs.len() - 1;
        law_marker_is_a_record(front);
        assert(rs[last] == rs.last());
        if marker_of(front) is Some {
            let i = choose|i: int| 0 <= i < front.len() && (#[trigger] front[i]).0 == "FILTER"@;
            assert(rs[i].0 == "FILTER"@);
        }
        if exists|i: int| 0 <= i < rs.len() && (#[trigger] rs[i]).0 == "FILTER"@ {
            let i = choose|i: int| 0 <= i < rs.len() && (#[trigger] rs[i]).0 == "FILTER"@;
            if i < last {
                assert(front[i].0 == "FILTER"@);
            }
        }
    }
}

/// Only a command names a program, and a command that names none is passed over.
pub proof fn law_only_commands_name_a_program(rs: Seq<(Seq<char>, Seq<char>)>, kind: Seq<char>, payload: Seq<char>)
    requires
        program_of(rs) is None,
        kind != "CMD"@ || exec_name(payload) is None,
    ensures
        program_of(rs.push((kind, payload))) is None,
        program_of(Seq::<(Seq<char>, Seq<char>)>::empty()) is None,
{
    assert(rs.push((kind, payload)).drop_last() == rs);
    assert(rs.push((kind, payload)).last() == (kind, payload));
}

/// Where a log names neither a tool nor a program with a profile, its output tells the tool, as
/// far as that is to be guessed.
pub proof fn law_output_tells_the_tool(contents: Seq<char>, loaded: LoadedProfiles)
    requires
        loaded.auto_detect_log_type,
        marker_of(log_records(lines(contents))) matches Some(tool) ==> !(loaded.tools@.contains_key(tool)
            && loaded.tools@[tool].enabled),
        program_of(log_records(lines(contents))) matches Some(name) ==> tool_for(loaded.tools@, name) is None,
    ensures
        log_tool(contents, loaded) == leading_tool(loaded.tools@, output_of(lines(contents))),
{
}

/// A tool that a log names counts only where its profile is there and enabled.
pub proof fn law_named_tool_counts(contents: Seq<char>, loaded: LoadedProfiles, tool: Seq<char>)
    requires
        marker_of(log_records(lines(contents))) == Some(tool),
    ensures
        loaded.tools@.contains_key(tool) && loaded.tools@[tool].enabled ==> log_tool(contents, loaded) == Some(tool)
            && log_profile(contents, loaded) == Some(loaded.tools@[tool]),
        !(loaded.tools@.contains_key(tool) && loaded.tools@[tool].enabled) ==> (program_of(
            log_records(lines(contents)),
        ) matches Some(name) ==> tool_for(loaded.tools@, name) is Some ==> log_tool(contents, loaded) == tool_for(
            loaded.tools@,
            name,
        )),
{
}

// ---------------------------------------------------------------------------
// The records that do not tell

/// A watcher looks at every line of a log, and other records than those of the process, the
/// exit code and output change nothing.
pub proof fn law_watcher_passes_over_the_rest(m: WatchModel, ls: Seq<Seq<char>>, line: Seq<char>)
    ensures
        watched_all(m, ls.push(line)) == watched(watched_all(m, ls), line),
        watched_all(m, Seq::<Seq<char>>::empty()) == m,
        log_record(line) is None ==> watched(m, line) == m,
        log_record(line) matches Some((kind, _)) ==> (kind != "PID"@ && kind != "EXIT"@ && kind != "STDOUT"@ && kind
            != "STDERR"@ ==> watched(m, line) == m),
{
    assert(ls.push(line).drop_last() == ls);
    assert(ls.push(line).last() == line);
}

/// A process that was noted counts before one that was started in the background, whichever
/// came last.
pub proof fn law_noted_process_comes_first(contents: Seq<char>, rel: int, level: char, pid: u32)
    requires
        contents.len() == 0 || contents.last() == '\n',
        i64::MIN <= rel <= i64::MAX,
        level == 'F' || level == 'E' || level == 'W' || level == 'I' || level == 'T' || level == 'U',
        last_u32(lines(contents), "PID"@) is Some,
    ensures
        last_pid(contents + record_text(rel, level, "ASYNC"@, int_text(pid as int)) + "\n"@) == last_pid(contents),
{
    let record = record_text(rel, level, "ASYNC"@, int_text(pid as int));
    lemma_number_record(rel, level, "ASYNC"@, pid as int);
    lemma_appended_line(contents, record);
    lemma_short_kinds();
    reveal_strlit("ASYNC");
    reveal_strlit("PID");
    assert("PID"@.len() != "ASYNC"@.len());
    lemma_other_record(rel, level, "ASYNC"@, int_text(pid as int), "PID"@);
}

// ---------------------------------------------------------------------------
// Numbers of a log

/// The number of a kind is that of its last record that holds one; a record without one, or of
/// another kind, is passed over.
pub proof fn law_last_number_counts(ls: Seq<Seq<char>>, line: Seq<char>, kind: Seq<char>)
    ensures
        last_u32(Seq::<Seq<char>>::empty(), kind) is None,
        last_i32(Seq::<Seq<char>>::empty(), kind) is None,
        u32_record(line, kind) is Some ==> last_u32(ls.push(line), kind) == u32_record(line, kind),
        u32_record(line, kind) is None ==> last_u32(ls.push(line), kind) == last_u32(ls, kind),
        i32_record(line, kind) is Some ==> last_i32(ls.push(line), kind) == i32_record(line, kind),
        i32_record(line, kind) is None ==> last_i32(ls.push(line), kind) == last_i32(ls, kind),
{
    assert(ls.push(line).drop_last() == ls);
    assert(ls.push(line).last() == line);
}

/// Behind any time, a number or not, a kind and its payload are read without a level too.
pub proof fn law_number_behind_a_time(stamp: Seq<char>, kind: Seq<char>, payload: Seq<char>)
    requires
        !stamp.contains(' '),
        kind == "PID"@ || kind == "ASYNC"@ || kind == "EXIT"@,
    ensures
        u32_record(stamp + seq![' '] + (kind + seq![' '] + payload), kind) == u32_value(trim(payload)),
        i32_record(stamp + seq![' '] + (kind + seq![' '] + payload), kind) == i32_value(trim(payload)),
{
    reveal_strlit("PID");
    reveal_strlit("ASYNC");
    reveal_strlit("EXIT");
    reveal_strlit("CMD");
    reveal_strlit("STDOUT");
    reveal_strlit("STDERR");
    reveal_strlit("FILTER");
    let rest = kind + seq![' '] + payload;
    assert forall|j: int| 0 <= j < stamp.len() implies stamp[j] != ' ' by {
        assert(stamp.contains(stamp[j]));
    }
    lemma_split_char_first(stamp, rest, ' ');
    lemma_split_char_first(kind, payload, ' ');
    lemma_short_kinds();
    assert(kind[0] == 'P' || kind[0] == 'A' || kind[0] == 'E');
    assert("CMD"@[0] == 'C' && "STDOUT"@[0] == 'S' && "STDERR"@[0] == 'S' && "FILTER"@[0] == 'F');
}

/// So is a kind that no log has records of.
pub proof fn law_number_of_any_kind(stamp: Seq<char>, kind: Seq<char>, payload: Seq<char>)
    requires
        !stamp.contains(' '),
        !kind.contains(' '),
        kind != "CMD"@ && kind != "STDOUT"@ && kind != "STDERR"@ && kind != "FILTER"@,
        kind.len() != 1,
    ensures
        u32_record(stamp + seq![' '] + (kind + seq![' '] + payload), kind) == u32_value(trim(payload)),
        i32_record(stamp + seq![' '] + (kind + seq![' '] + payload), kind) == i32_value(trim(payload)),
{
    reveal_strlit("F");
    reveal_strlit("E");
    reveal_strlit("W");
    reveal_strlit("I");
    reveal_strlit("T");
    reveal_strlit("U");
    let rest = kind + seq![' '] + payload;
    assert forall|j: int| 0 <= j < stamp.len() implies stamp[j] != ' ' by {
        assert(stamp.contains(stamp[j]));
    }
    assert forall|j: int| 0 <= j < kind.len() implies kind[j] != ' ' by {
        assert(kind.contains(kind[j]));
    }
    lemma_split_char_first(stamp, rest, ' ');
    lemma_split_char_first(kind, payload, ' ');
    assert("F"@.len() == 1 && "E"@.len() == 1 && "W"@.len() == 1 && "I"@.len() == 1 && "T"@.len() == 1
        && "U"@.len() == 1);
}

/// What a record of the process or the exit code holds is its payload as a number.
pub proof fn law_number_of_a_record(rel: int, level: char, kind: Seq<char>, payload: Seq<char>)
    requires
        i64::MIN <= rel <= i64::MAX,
        level == 'F' || level == 'E' || level == 'W' || level == 'I' || level == 'T' || level == 'U',
        kind == "PID"@ || kind == "ASYNC"@ || kind == "EXIT"@,
    ensures
        u32_record(record_text(rel, level, kind, payload), kind) == u32_value(trim(payload)),
        i32_record(record_text(rel, level, kind, payload), kind) == i32_value(trim(payload)),
{
    reveal_strlit("PID");
    reveal_strlit("ASYNC");
    reveal_strlit("EXIT");
    reveal_strlit("CMD");
    reveal_strlit("STDOUT");
    reveal_strlit("STDERR");
    reveal_strlit("FILTER");
    law_record_is_read(rel, level, kind, payload);
    assert(kind[0] == 'P' || kind[0] == 'A' || kind[0] == 'E');
    assert("CMD"@[0] == 'C' && "STDOUT"@[0] == 'S' && "STDERR"@[0] == 'S' && "FILTER"@[0] == 'F');
}

// ---------------------------------------------------------------------------
// Places and arguments

/// Logs lie in `.ct/logs` in the home directory.
pub proof fn law_where_logs_lie(home: Seq<char>)
    requires
        home.len() > 0,
        home[home.len() - 1] != '/',
    ensures
        home_dir(home) == home + "/.ct"@,
        log_dir(home) == home + "/.ct/logs"@,
{
    reveal_strlit("/.ct");
    reveal_strlit("/.ct/logs");
    reveal_strlit(".ct");
    reveal_strlit("logs");
    reveal_strlit("/");
    let h = home + "/.ct"@;
    assert(home_dir(home) == home + "/"@ + ".ct"@);
    assert("/"@ + ".ct"@ == "/.ct"@);
    assert(home_dir(home) == h);
    assert(h.last() == 't');
    assert("logs"@[0] == 'l');
    assert("/.ct"@ + "/"@ + "logs"@ == "/.ct/logs"@);
    assert(h + "/"@ + "logs"@ == home + ("/.ct"@ + "/"@ + "logs"@));
}

/// What is asked for is told by the first argument alone; a log is shown whole without further
/// arguments, and in part with a filter and nothing else.
pub proof fn law_arguments(args: Seq<Seq<char>>)
    ensures
        args.len() == 0 ==> ctl_action_of(args) == CtlAction::Usage,
        args.len() > 0 ==> ctl_action_of(args) == ctl_action_of(seq![args[0]]),
        args.len() > 0 && args[0] == "warnings"@ ==> ctl_action_of(args) == CtlAction::Warnings,
        args.len() > 0 && args[0] == "errors"@ ==> ctl_action_of(args) == CtlAction::Errors,
        args.len() > 0 && args[0] == "logs"@ ==> ctl_action_of(args) == CtlAction::Logs,
        args.len() > 0 && args[0] == "status"@ ==> ctl_action_of(args) == CtlAction::Status,
        args.len() > 0 && args[0] == "kill"@ ==> ctl_action_of(args) == CtlAction::Kill,
        args.len() > 0 && args[0] == "watch"@ ==> ctl_action_of(args) == CtlAction::Watch,
        args.len() > 0 && args[0] != "warnings"@ && args[0] != "errors"@ && args[0] != "logs"@ && args[0]
            != "status"@ && args[0] != "kill"@ && args[0] != "watch"@ ==> ctl_action_of(args) == CtlAction::Unknown,
        logs_view_of(Seq::<Seq<char>>::empty()) == Some(LogsView::Everything),
        args.len() == 1 || args.len() > 2 ==> logs_view_of(args) is None,
        args.len() == 2 && args[0] != "--filter"@ ==> logs_view_of(args) is None,
        args.len() == 2 && args[0] == "--filter"@ && args[1] == "warning"@ ==> logs_view_of(args) == Some(
            LogsView::Warnings,
        ),
        args.len() == 2 && args[0] == "--filter"@ && args[1] == "error"@ ==> logs_view_of(args) == Some(
            LogsView::Errors,
        ),
        args.len() == 2 && args[0] == "--filter"@ && args[1] != "warning"@ && args[1] != "error"@ ==> logs_view_of(
            args,
        ) == Some(LogsView::UnknownFilter),
{
    reveal_strlit("warnings");
    reveal_strlit("errors");
    reveal_strlit("logs");
    reveal_strlit("status");
    reveal_strlit("kill");
    reveal_strlit("watch");
    reveal_strlit("warning");
    reveal_strlit("error");
    assert("warnings"@[0] == 'w' && "errors"@[0] == 'e' && "logs"@[0] == 'l' && "status"@[0] == 's' && "kill"@[0]
        == 'k' && "watch"@[0] == 'w' && "warning"@[0] == 'w' && "error"@[0] == 'e');
    assert("warnings"@.len() == 8 && "watch"@.len() == 5);
}

/// A command whose first word is none of the program's own is run whole, without any option.
/// The options for that take the word behind them as the command, and need one.
pub proof fn law_commands_are_run(args: Seq<Seq<char>>)
    requires
        args.len() > 0,
    ensures
        args[0] != "--async-runner"@ && args[0] != "--shell-bridge"@ && args[0] != "--compact"@ && args[0] != "-c"@
            && args[0] != "--stats"@ && args[0] != "--"@ && args[0] != "--help"@ && args[0] != "mcp"@ && args[0]
            != "cd"@ && args[0] != "-a"@ ==> action_of(args) == (CtAction::Run {
            from: 0,
            compact: false,
            stats: false,
        }),
        action_of(args) matches CtAction::Run { from, .. } ==> from < args.len(),
        args.len() > 1 && (args[0] == "--compact"@ || args[0] == "-c"@) ==> action_of(args) == (CtAction::Run {
            from: 1,
            compact: true,
            stats: false,
        }),
        args.len() > 1 && args[0] == "--stats"@ ==> action_of(args) == (CtAction::Run {
            from: 1,
            compact: false,
            stats: true,
        }),
        args.len() > 1 && args[0] == "--"@ ==> action_of(args) == (CtAction::Run {
            from: 1,
            compact: false,
            stats: false,
        }),
        args.len() > 1 && args[0] == "-a"@ ==> action_of(args) == CtAction::Async,
{
    lemma_option_words();
}

proof fn lemma_option_words()
    ensures
        "--stats"@ != "--async-runner"@ && "--stats"@ != "--shell-bridge"@ && "--stats"@ != "--compact"@ && "--stats"@
            != "-c"@,
        "--compact"@ != "--async-runner"@ && "--compact"@ != "--shell-bridge"@,
        "-c"@ != "--async-runner"@ && "-c"@ != "--shell-bridge"@,
        "--"@ != "--async-runner"@ && "--"@ != "--shell-bridge"@ && "--"@ != "--compact"@ && "--"@ != "-c"@ && "--"@
            != "--stats"@,
        "-a"@ != "--async-runner"@ && "-a"@ != "--shell-bridge"@ && "-a"@ != "--compact"@ && "-a"@ != "-c"@ && "-a"@
            != "--stats"@ && "-a"@ != "--"@ && "-a"@ != "--help"@ && "-a"@ != "mcp"@ && "-a"@ != "cd"@,
{
    reveal_strlit("--stats");
    reveal_strlit("--async-runner");
    reveal_strlit("--shell-bridge");
    reveal_strlit("--compact");
    reveal_strlit("-c");
    reveal_strlit("--");
    reveal_strlit("-a");
    reveal_strlit("--help");
    reveal_strlit("mcp");
    reveal_strlit("cd");
    assert("--stats"@.len() == 7 && "--async-runner"@.len() == 14 && "--shell-bridge"@.len() == 14
        && "--compact"@.len() == 9 && "-c"@.len() == 2 && "--"@.len() == 2 && "-a"@.len() == 2 && "--help"@.len() == 6
        && "mcp"@.len() == 3 && "cd"@.len() == 2);
    assert("-c"@[1] == 'c' && "--"@[1] == '-' && "-a"@[1] == 'a' && "cd"@[0] == 'c' && "-a"@[0] == '-');
}

/// What is told of each error.
pub proof fn law_errors_are_told()
    ensures
        LogError::HomeNotSet.text() == "HOME is not set"@,
        LogError::NoPreviousLog.text() == "no previous execution log found"@,
        LogError::EmptyPointer.text() == "latest log pointer is empty"@,
        LogError::MissingLog.text() == "latest log file not found"@,
{
}

/// A log that does not start with a number gives no start.
pub proof fn law_no_start_is_read(contents: Seq<char>)
    requires
        lines(contents).len() == 0 || words(lines(contents)[0]).len() == 0 || i64_value(
            words(lines(contents)[0])[0],
        ) is None,
    ensures
        logged_start(contents) is None,
{
}

// ---------------------------------------------------------------------------
// What is told of a log

/// The warnings and the errors of a log are all lines of its output that hold a pattern of the
/// profile for them, each as often as it came and in the order in which they came. Without a
/// profile there are none.
pub proof fn law_every_warning_and_error_is_listed(contents: Seq<char>, loaded: LoadedProfiles, f: CommandFilterConfig)
    ensures
        log_profile(contents, loaded) is None ==> log_warnings(contents, loaded).len() == 0 && log_errors(
            contents,
            loaded,
        ).len() == 0,
        log_profile(contents, loaded) == Some(f) && (f.level_patterns.warning@.len() > 0
            || f.level_patterns.error@.len() > 0) ==> {
            &&& log_warnings(contents, loaded) == output_of(lines(contents)).filter(
                |l: Seq<char>| mentions(l, f.level_patterns.warning@),
            )
            &&& log_errors(contents, loaded) == output_of(lines(contents)).filter(
                |l: Seq<char>| mentions(l, f.level_patterns.error@),
            )
        },
        log_profile(contents, loaded) == Some(f) && f.level_patterns.warning@.len() == 0
            && f.level_patterns.error@.len() == 0 ==> {
            &&& log_warnings(contents, loaded) == output_of(lines(contents)).filter(
                |l: Seq<char>| mentions(l, f.warning_patterns@),
            )
            &&& log_errors(contents, loaded) == output_of(lines(contents)).filter(
                |l: Seq<char>| mentions(l, f.error_patterns@),
            )
        },
{
    let out = output_of(lines(contents));
    let w = |l: Seq<char>|
        match log_profile(contents, loaded) {
            Some(f) => warning_line(Some(&f), l),
            None => false,
        };
    let e = |l: Seq<char>|
        match log_profile(contents, loaded) {
            Some(f) => error_line(Some(&f), l),
            None => false,
        };
    assert(log_warnings(contents, loaded) == out.filter(w));
    assert(log_errors(contents, loaded) == out.filter(e));
    if log_profile(contents, loaded) is None {
        lemma_filter_none(out, w);
        lemma_filter_none(out, e);
    }
    if log_profile(contents, loaded) == Some(f) {
        let wl = |l: Seq<char>| mentions(l, f.level_patterns.warning@);
        let el = |l: Seq<char>| mentions(l, f.level_patterns.error@);
        let wp = |l: Seq<char>| mentions(l, f.warning_patterns@);
        let ep = |l: Seq<char>| mentions(l, f.error_patterns@);
        if f.level_patterns.warning@.len() > 0 || f.level_patterns.error@.len() > 0 {
            assert forall|l: Seq<char>| #[trigger] w(l) == wl(l) by {
                law_warnings_and_errors_hold_a_pattern(f, l);
            }
            assert forall|l: Seq<char>| #[trigger] e(l) == el(l) by {
                law_warnings_and_errors_hold_a_pattern(f, l);
            }
            assert(w =~= wl);
            assert(e =~= el);
        } else {
            assert forall|l: Seq<char>| #[trigger] w(l) == wp(l) by {
                law_warnings_and_errors_hold_a_pattern(f, l);
            }
            assert forall|l: Seq<char>| #[trigger] e(l) == ep(l) by {
                law_warnings_and_errors_hold_a_pattern(f, l);
            }
            assert(w =~= wp);
            assert(e =~= ep);
        }
    }
}

proof fn lemma_filter_none(s: Seq<Seq<char>>, p: spec_fn(Seq<char>) -> bool)
    requires
        forall|l: Seq<char>| !#[trigger] p(l),
    ensures
        s.filter(p).len() == 0,
    decreases s.len(),
{
    reveal(Seq::filter);
    if s.len() > 0 {
        lemma_filter_none(s.drop_last(), p);
    }
}

/// A report lists everything that was found, and tells how much that is.
pub proof fn law_report_lists_everything(found: Seq<Seq<char>>)
    ensures
        report_of(found, true).len() == found.len() + 1,
        report_of(found, false).len() == found.len() + 1,
        forall|i: int| 0 <= i < found.len() ==> #[trigger] report_of(found, true)[i] == found[i],
        forall|i: int| 0 <= i < found.len() ==> #[trigger] report_of(found, false)[i] == found[i],
        report_of(found, true)[found.len() as int] == "TOTAL_WARNINGS="@ + int_text(found.len() as int),
        report_of(found, false)[found.len() as int] == "TOTAL_ERRORS="@ + int_text(found.len() as int),
{
}

} // verus!
