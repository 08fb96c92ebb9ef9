//! What one execution writes to its log, and what it adds to the history of its command.
use crate::ctlog::{encoded_kind, level_code, line_form, log_record, log_records, LineForm};
use crate::hash::{hash_of_payload, hash_text, is_hex, payload_hash, text_hash};
use crate::levels::is_level;
use crate::number::{i64_value, int_text, law_int_text_reads_back, lemma_int_text_word, parse_i64, push_i64};
use crate::outside::{hex_digit, json_char, json_chars, json_text, json_to_string};
use crate::paths::{file_name, file_name_of, file_stem, joined, last_pos, stem_of};
use crate::stats::{file_history, hashes_kept, merge_stats_content, merged_model, starts, stats_text};
use crate::stats_laws::{is_hash, law_hashes_are_kept_ones, law_history_holds_words, law_merge_twice_is_once};
use crate::strmap::StringMap;
use crate::text::{chars_of, is_space, lemma_lines_concat, lemma_one_line, lemma_split_char_first, lemma_split_char_last, lemma_split_char_none, lemma_trim_of_trimmed, lemma_unbroken_concat, lemma_unbroken_word, lines, split_at_char, split_char, split_lines, split_once, split_words, string_of, texts, trim, unbroken, words};
use vstd::prelude::*;

verus! {

// ---------------------------------------------------------------------------
// Files of an execution

/// The first characters of the hash of a command.
pub open spec fn command_prefix(command: Seq<char>) -> Seq<char> {
    text_hash(command).take(8)
}

/// The first characters of the hash of a command.
pub fn command_hash_prefix(command: &str) -> (r: String)
    ensures
        r@ == command_prefix(command@),
        r@.len() == 8,
        forall|i: int| 0 <= i < r@.len() ==> is_hex(#[trigger] r@[i]),
{
    let hash: String = hash_text(command);
    let v: Vec<char> = chars_of(hash.as_str());
    let r: String = string_of(v.as_slice(), 0, 8);
    proof {
        assert(r@ == hash@.take(8));
        assert forall|i: int| 0 <= i < r@.len() implies is_hex(#[trigger] r@[i]) by {
            assert(r@[i] == hash@[i]);
        }
    }
    r
}

/// The name of an execution: the hash of its command and its start.
pub open spec fn run_name(prefix: Seq<char>, start: int) -> Seq<char> {
    prefix + "-"@ + int_text(start)
}

/// The names of the files of an execution.
pub struct RunFiles {
    pub log: String,
    pub hashes: String,
}

/// The stats file of a command.
pub fn command_stats_file(command: &str) -> (r: String)
    ensures
        r@ == command_prefix(command@) + ".stats"@,
{
    let mut out: String = command_hash_prefix(command);
    out.append(".stats");
    out
}

/// The names of the files of an execution that started at `start`.
pub fn run_files(command: &str, start: i64) -> (r: RunFiles)
    ensures
        r.log@ == run_name(command_prefix(command@), start as int) + ".log"@,
        r.hashes@ == run_name(command_prefix(command@), start as int) + ".logsh"@,
{
    let mut log: String = command_hash_prefix(command);
    log.append("-");
    push_i64(&mut log, start);
    let mut hashes: String = log.clone();
    log.append(".log");
    hashes.append(".logsh");
    RunFiles { log, hashes }
}

/// The stats file that belongs to a log: named by what stands before the first `-` in the
/// name of the log.
pub open spec fn stats_name(log_path: Seq<char>) -> Seq<char> {
    match file_name_of(log_path) {
        Some(name) => split_char(stem_of(name), '-')[0] + ".stats"@,
        None => "unknown.stats"@,
    }
}

/// The stats file that belongs to a log.
pub fn stats_file_name(log_path: &str) -> (r: String)
    ensures
        r@ == stats_name(log_path@),
{
    match file_name(log_path) {
        Some(name) => {
            let stem: String = file_stem(name.as_str());
            let pieces: Vec<String> = split_at_char(stem.as_str(), '-');
            assert(split_char(stem@, '-').len() > 0);
            assert(texts(pieces@)[0] == pieces@[0]@);
            let mut out: String = pieces[0].clone();
            out.append(".stats");
            out
        },
        None => "unknown.stats".to_string(),
    }
}

/// All executions of one command share one stats file, wherever their logs lie.
pub proof fn law_stats_file_is_per_command(dir: Seq<char>, prefix: Seq<char>, start: int)
    requires
        prefix.len() > 0,
        forall|i: int| 0 <= i < prefix.len() ==> is_hex(#[trigger] prefix[i]),
    ensures
        stats_name(joined(dir, run_name(prefix, start) + ".log"@)) == prefix + ".stats"@,
{
    reveal_strlit("-");
    reveal_strlit("/");
    reveal_strlit(".");
    reveal_strlit("..");
    reveal_strlit(".log");
    let n = int_text(start);
    let stem = run_name(prefix, start);
    let name = stem + ".log"@;
    lemma_int_text_word(start);
    assert(stem == prefix + seq!['-'] + n);
    assert(name[0] == prefix[0]);
    assert(is_hex(prefix[0]));
    assert forall|j: int| 0 <= j < stem.len() implies #[trigger] stem[j] != '/' && stem[j] != '.' by {
        if j < prefix.len() {
            assert(stem[j] == prefix[j]);
            assert(is_hex(prefix[j]));
        } else if j > prefix.len() {
            assert(stem[j] == n[j - prefix.len() - 1]);
        }
    }
    assert forall|j: int| 0 <= j < name.len() implies #[trigger] name[j] != '/' by {
        if j < stem.len() {
            assert(name[j] == stem[j]);
        } else {
            assert(name[j] == ".log"@[j - stem.len()]);
        }
    }
    // the path leads to the log
    let path = joined(dir, name);
    let pieces = split_char(path, '/');
    if dir.len() == 0 {
        assert(path == name);
        lemma_split_char_none(name, '/');
    } else if dir.last() == '/' {
        assert(dir == dir.drop_last() + seq!['/']);
        assert(path == dir.drop_last() + seq!['/'] + name);
        lemma_split_char_last(dir.drop_last(), name, '/');
    } else {
        assert(path == dir + seq!['/'] + name);
        lemma_split_char_last(dir, name, '/');
    }
    assert(pieces.last() == name);
    assert(name != "."@ && name != ".."@ && name.len() > 0) by {
        assert("."@[0] == '.' && ".."@[0] == '.');
        assert(name[0] != '.') by {
            assert(stem[0] == name[0]);
        }
    }
    assert(file_name_of(path) == Some(name));
    // its name without the extension starts with the hash
    lemma_last_pos(stem);
    assert(stem_of(name) == stem) by {
        assert(name.take(stem.len() as int) == stem);
    }
    assert forall|j: int| 0 <= j < prefix.len() implies prefix[j] != '-' by {
        assert(is_hex(prefix[j]));
    }
    lemma_split_char_first(prefix, n, '-');
}

proof fn lemma_last_pos(stem: Seq<char>)
    requires
        stem.len() > 0,
    ensures
        last_pos(stem + ".log"@, '.') == stem.len(),
{
    reveal_strlit(".log");
    reveal_with_fuel(last_pos, 5);
    let s = stem + ".log"@;
    assert(s.drop_last() == stem + seq!['.', 'l', 'o']);
    assert(s.drop_last().drop_last() == stem + seq!['.', 'l']);
    assert(s.drop_last().drop_last().drop_last() == stem + seq!['.']);
}

// ---------------------------------------------------------------------------
// Times

/// The time from `start` to `now`, within the range of a number.
pub open spec fn time_since(start: int, now: int) -> int {
    if now - start > i64::MAX {
        i64::MAX as int
    } else if now - start < i64::MIN {
        i64::MIN as int
    } else {
        now - start
    }
}

/// The time from `start` to `now`.
pub fn elapsed_ms(start: i64, now: i64) -> (r: i64)
    ensures
        r == time_since(start as int, now as int),
{
    let d: i128 = now as i128 - start as i128;
    if d > i64::MAX as i128 {
        i64::MAX
    } else if d < i64::MIN as i128 {
        i64::MIN
    } else {
        d as i64
    }
}

/// The start of an execution, as the first word of its log gives it.
pub open spec fn logged_start(contents: Seq<char>) -> Option<int> {
    let ls = lines(contents);
    if ls.len() == 0 || words(ls[0]).len() == 0 {
        None
    } else {
        i64_value(words(ls[0])[0])
    }
}

/// The start of an execution, as the first word of its log gives it.
pub fn read_start(contents: &str) -> (r: Option<i64>)
    ensures
        match r {
            Some(n) => logged_start(contents@) == Some(n as int),
            None => logged_start(contents@) is None,
        },
{
    let ls: Vec<String> = split_lines(contents);
    assert(texts(ls@).len() == ls@.len());
    if ls.len() == 0 {
        return None;
    }
    assert(texts(ls@)[0] == ls@[0]@);
    let w: Vec<String> = split_words(ls[0].as_str());
    assert(texts(w@).len() == w@.len());
    if w.len() == 0 {
        return None;
    }
    assert(texts(w@)[0] == w@[0]@);
    parse_i64(w[0].as_str())
}

// ---------------------------------------------------------------------------
// Records

/// The line of a record.
pub open spec fn record_text(rel: int, level: char, kind: Seq<char>, payload: Seq<char>) -> Seq<char> {
    int_text(rel) + " "@ + seq![level] + " "@ + kind + " "@ + payload
}

/// The line of a command.
pub open spec fn command_text(start: int, command: Seq<char>) -> Seq<char> {
    int_text(start) + " "@ + command
}

/// A record is read as one, whatever its kind and its payload.
pub proof fn law_record_is_read(rel: int, level: char, kind: Seq<char>, payload: Seq<char>)
    requires
        i64::MIN <= rel <= i64::MAX,
        is_level(level),
        forall|j: int| 0 <= j < kind.len() ==> #[trigger] kind[j] != ' ',
    ensures
        line_form(record_text(rel, level, kind, payload)) == Some(LineForm::Record(kind, trim(payload))),
{
    reveal_strlit(" ");
    reveal_strlit("F");
    reveal_strlit("E");
    reveal_strlit("W");
    reveal_strlit("I");
    reveal_strlit("T");
    reveal_strlit("U");
    let n = int_text(rel);
    let after = kind + seq![' '] + payload;
    let rest = seq![level] + seq![' '] + after;
    let line = record_text(rel, level, kind, payload);
    lemma_int_text_word(rel);
    law_int_text_reads_back(rel);
    assert(line == n + seq![' '] + rest);
    lemma_split_char_first(n, rest, ' ');
    lemma_split_char_first(seq![level], after, ' ');
    lemma_split_char_first(kind, payload, ' ');
    assert(level_code(seq![level])) by {
        assert("F"@ == seq!['F']);
        assert("E"@ == seq!['E']);
        assert("W"@ == seq!['W']);
        assert("I"@ == seq!['I']);
        assert("T"@ == seq!['T']);
        assert("U"@ == seq!['U']);
    }
}

/// The command of an execution is read from its log again, unless its first word, followed
/// by others, is that of a record.
pub proof fn law_command_is_read(start: int, command: Seq<char>)
    requires
        i64::MIN <= start <= i64::MAX,
        split_once(command, ' ') matches Some((word, _)) ==> !level_code(word) && !crate::ctlog::known_kind(word),
    ensures
        log_record(command_text(start, command)) == Some(("CMD"@, command)),
{
    reveal_strlit(" ");
    let n = int_text(start);
    lemma_int_text_word(start);
    law_int_text_reads_back(start);
    assert(command_text(start, command) == n + seq![' '] + command);
    lemma_split_char_first(n, command, ' ');
}

/// What is appended to a log comes after what it held.
pub proof fn law_log_grows(contents: Seq<char>, record: Seq<char>)
    requires
        contents.len() == 0 || contents.last() == '\n',
        unbroken(record),
    ensures
        log_records(lines(contents + record + "\n"@)) == match log_record(record) {
            Some(r) => log_records(lines(contents)).push(r),
            None => log_records(lines(contents)),
        },
{
    reveal_strlit("\n");
    let line = record + seq!['\n'];
    assert(contents + record + "\n"@ == contents + line);
    lemma_lines_concat(contents, line);
    lemma_one_line(record);
    let ls = lines(contents);
    assert(ls + seq![record] == ls.push(record));
    assert(ls.push(record).drop_last() == ls);
    match log_record(record) {
        Some(r) => {
            assert(log_records(ls) + seq![r] == log_records(ls).push(r));
        },
        None => {},
    }
}

proof fn lemma_hex_digit(n: int)
    requires
        0 <= n < 16,
    ensures
        hex_digit(n) != '\n',
        hex_digit(n) != '\r',
{
    assert(hex_digit(n) as int == if n < 10 {
        48 + n
    } else {
        87 + n
    });
}

proof fn lemma_json_char_unbroken(c: char)
    ensures
        unbroken(json_char(c)),
{
    let e = json_char(c);
    let hi = c as int / 16;
    let lo = c as int % 16;
    assert forall|j: int| 0 <= j < e.len() implies #[trigger] e[j] != '\n' && e[j] != '\r' by {
        if (c as int) < 32 {
            lemma_hex_digit(hi);
            lemma_hex_digit(lo);
        }
    }
}

proof fn lemma_json_unbroken(s: Seq<char>)
    ensures
        unbroken(json_chars(s)),
        unbroken(json_text(s)),
        trim(json_text(s)) == json_text(s),
    decreases s.len(),
{
    if s.len() > 0 {
        lemma_json_unbroken(s.drop_last());
        let c = s.last();
        let e = json_char(c);
        lemma_json_char_unbroken(c);
        lemma_unbroken_concat(json_chars(s.drop_last()), e);
    }
    lemma_unbroken_concat(seq!['"'], json_chars(s));
    lemma_unbroken_concat(seq!['"'] + json_chars(s), seq!['"']);
    let t = json_text(s);
    assert(t[0] == '"' && t.last() == '"');
    lemma_trim_of_trimmed(t);
}

proof fn lemma_encoded_kinds(kind: Seq<char>)
    requires
        encoded_kind(kind),
    ensures
        unbroken(kind),
        forall|j: int| 0 <= j < kind.len() ==> #[trigger] kind[j] != ' ',
{
    reveal_strlit("CMD");
    reveal_strlit("STDOUT");
    reveal_strlit("STDERR");
    reveal_strlit("FILTER");
}

/// A record lies within one line, where its kind and its payload do.
pub proof fn lemma_record_unbroken(rel: int, level: char, kind: Seq<char>, payload: Seq<char>)
    requires
        unbroken(kind),
        unbroken(payload),
        is_level(level),
    ensures
        unbroken(record_text(rel, level, kind, payload)),
{
    reveal_strlit(" ");
    let n = int_text(rel);
    lemma_int_text_word(rel);
    lemma_unbroken_word(n);
    lemma_unbroken_concat(n, " "@);
    lemma_unbroken_concat(n + " "@, seq![level]);
    lemma_unbroken_concat(n + " "@ + seq![level], " "@);
    lemma_unbroken_concat(n + " "@ + seq![level] + " "@, kind);
    lemma_unbroken_concat(n + " "@ + seq![level] + " "@ + kind, " "@);
    lemma_unbroken_concat(n + " "@ + seq![level] + " "@ + kind + " "@, payload);
}

proof fn lemma_hex_is_hash(h: Seq<char>)
    requires
        h.len() == 32,
        forall|i: int| 0 <= i < h.len() ==> is_hex(#[trigger] h[i]),
    ensures
        is_hash(h),
{
    reveal_strlit("EXEC");
    assert forall|j: int| 0 <= j < h.len() implies !is_space(#[trigger] h[j]) by {
        assert(is_hex(h[j]));
    }
}

/// What is to be written: a line for the log, and one for the list of hashes where the
/// payload is new.
pub struct LogWrite {
    pub line: String,
    pub hash_line: Option<String>,
}

/// What an execution has logged so far.
pub struct RunLogger {
    start_ts_ms: i64,
    seen: StringMap<Vec<(i64, i64)>>,
    exit_logged: bool,
}

impl RunLogger {
    /// When the execution started.
    pub closed spec fn start(&self) -> int {
        self.start_ts_ms as int
    }

    /// For the hash of each payload, when it was first logged.
    pub closed spec fn seen(&self) -> Map<Seq<char>, Vec<(i64, i64)>> {
        self.seen@
    }

    /// Whether the exit code was logged.
    pub closed spec fn exited(&self) -> bool {
        self.exit_logged
    }

    /// The hashes are well ordered, and each was first seen once in this execution.
    pub closed spec fn wf(&self) -> bool {
        &&& self.seen.wf()
        &&& forall|h: Seq<char>| #[trigger]
            self.seen@.contains_key(h) ==> self.seen@[h]@.len() == 1 && self.seen@[h]@[0].0 == self.start_ts_ms
        &&& forall|h: Seq<char>| #[trigger] self.seen@.contains_key(h) ==> is_hash(h)
    }

    /// Each hash is one that a stats file can hold, and was first seen once in this
    /// execution.
    pub proof fn law_first_sight_is_noted_once(&self)
        requires
            self.wf(),
        ensures
            self.seen().dom().finite(),
            forall|h: Seq<char>| #[trigger]
                self.seen().contains_key(h) ==> is_hash(h) && self.seen()[h]@.len() == 1 && self.seen()[h]@[0].0
                    == self.start(),
    {
        self.seen.lemma_keys();
    }

    /// Writing the stats of an execution twice is writing them once, where the file did not
    /// hold `EXEC` as a hash.
    pub proof fn law_stats_are_written_once(&self, existing: Seq<char>, duration: i64)
        requires
            self.wf(),
            !file_history(lines(existing)).contains_key("EXEC"@),
        ensures
            ({
                let once = stats_text(merged_model(existing, self.start() as i64, duration, self.seen()));
                stats_text(merged_model(once, self.start() as i64, duration, self.seen())) == once
            }),
    {
        let start = self.start() as i64;
        let m = merged_model(existing, start, duration, self.seen());
        let hist = file_history(lines(existing));
        let set = hashes_kept(hist, self.seen(), starts(m.runs));
        self.law_first_sight_is_noted_once();
        law_history_holds_words(lines(existing));
        law_hashes_are_kept_ones(existing, start, duration, self.seen());
        assert forall|i: int| 0 <= i < m.hashes.len() implies is_hash((#[trigger] m.hashes[i]).0) by {
            assert(set.contains(m.hashes[i].0));
        }
        law_merge_twice_is_once(existing, start, duration, self.seen());
    }

    /// The log of an execution that starts now.
    pub fn new(now_ms: i64) -> (r: Self)
        ensures
            r.wf(),
            r.start() == now_ms,
            r.seen() == Map::<Seq<char>, Vec<(i64, i64)>>::empty(),
            !r.exited(),
    {
        RunLogger { start_ts_ms: now_ms, seen: StringMap::new(), exit_logged: false }
    }

    /// The log of an execution that another process started: it started when its log says,
    /// or else now.
    pub fn from_log(contents: Option<&str>, now_ms: i64) -> (r: Self)
        ensures
            r.wf(),
            r.start() == match contents {
                Some(c) => match logged_start(c@) {
                    Some(n) => n,
                    None => now_ms as int,
                },
                None => now_ms as int,
            },
            r.seen() == Map::<Seq<char>, Vec<(i64, i64)>>::empty(),
            !r.exited(),
    {
        let start: i64 = match contents {
            Some(c) => match read_start(c) {
                Some(n) => n,
                None => now_ms,
            },
            None => now_ms,
        };
        RunLogger::new(start)
    }

    /// When the execution started.
    pub fn start_ts_ms(&self) -> (r: i64)
        ensures
            r == self.start(),
    {
        self.start_ts_ms
    }

    /// The line that the log starts with.
    pub fn log_command(&self, command: &str) -> (r: String)
        ensures
            r@ == command_text(self.start(), command@) + "\n"@,
    {
        let mut line: String = String::new();
        push_i64(&mut line, self.start_ts_ms);
        line.append(" ");
        line.append(command);
        line.append("\n");
        assert(line@ == command_text(self.start(), command@) + "\n"@);
        line
    }

    /// What logging a payload at `rel` changes and writes: its line in any case, and its
    /// hash the first time.
    pub open spec fn logs(
        before: &Self,
        after: &Self,
        rel: int,
        level: char,
        kind: Seq<char>,
        payload: Seq<char>,
        w: LogWrite,
    ) -> bool {
        let h = hash_of_payload(payload);
        &&& after.start() == before.start()
        &&& w.line@ == record_text(rel, level, kind, payload) + "\n"@
        &&& if before.seen().contains_key(h) {
            w.hash_line is None && after.seen() == before.seen()
        } else {
            &&& w.hash_line matches Some(l) && l@ == int_text(rel) + " "@ + h + "\n"@
            &&& after.seen().dom() == before.seen().dom().insert(h)
            &&& after.seen()[h]@ == seq![(before.start() as i64, rel as i64)]
            &&& forall|k: Seq<char>| #[trigger]
                before.seen().contains_key(k) ==> after.seen()[k] == before.seen()[k]
        }
    }

    /// Logging writes the line of the record in any case; the first time that a payload comes,
    /// but for its digits, its hash and its time are noted, and never again.
    pub proof fn law_first_time_is_noted(
        before: &Self,
        after: &Self,
        rel: int,
        level: char,
        kind: Seq<char>,
        payload: Seq<char>,
        w: LogWrite,
    )
        requires
            Self::logs(before, after, rel, level, kind, payload, w),
        ensures
            w.line@ == int_text(rel) + seq![' ', level, ' '] + kind + seq![' '] + payload + seq!['\n'],
            after.start() == before.start(),
            ({
                let h = hash_of_payload(payload);
                let known = before.seen().contains_key(h);
                &&& after.seen().contains_key(h)
                &&& known ==> w.hash_line is None && after.seen() == before.seen()
                &&& !known ==> w.hash_line is Some && (w.hash_line->0)@ == int_text(rel) + seq![' '] + h + seq!['\n']
                &&& !known ==> after.seen()[h]@.len() == 1 && after.seen()[h]@[0] == (before.start() as i64, rel as i64)
                &&& forall|k: Seq<char>| #[trigger]
                    before.seen().contains_key(k) ==> after.seen().contains_key(k) && after.seen()[k]
                        == before.seen()[k]
                &&& forall|k: Seq<char>| #[trigger]
                    after.seen().contains_key(k) ==> k == h || before.seen().contains_key(k)
            }),
    {
        reveal_strlit(" ");
        reveal_strlit("\n");
        let h = hash_of_payload(payload);
        assert(" "@ == seq![' '] && "\n"@ == seq!['\n']);
        assert(w.line@ == int_text(rel) + seq![' ', level, ' '] + kind + seq![' '] + payload + seq!['\n']);
        assert(after.seen().dom().contains(h));
        if !before.seen().contains_key(h) {
            assert forall|k: Seq<char>| #[trigger] after.seen().contains_key(k) implies k == h
                || before.seen().contains_key(k) by {
                assert(after.seen().dom().contains(k));
            }
            assert forall|k: Seq<char>| #[trigger] before.seen().contains_key(k) implies after.seen().contains_key(
                k,
            ) by {
                assert(before.seen().dom().contains(k));
                assert(after.seen().dom().contains(k));
            }
        }
    }

    /// Logs a payload as it is.
    pub fn log_raw_with_level(&mut self, now_ms: i64, level: char, kind: &str, payload: &str) -> (w: LogWrite)
        requires
            old(self).wf(),
        ensures
            final(self).wf(),
            final(self).exited() == old(self).exited(),
            Self::logs(
                old(self),
                final(self),
                time_since(old(self).start(), now_ms as int),
                level,
                kind@,
                payload@,
                w,
            ),
    {
        let rel: i64 = elapsed_ms(self.start_ts_ms, now_ms);
        let mut line: String = String::new();
        push_i64(&mut line, rel);
        line.append(" ");
        line.push(level);
        line.append(" ");
        line.append(kind);
        line.append(" ");
        line.append(payload);
        line.append("\n");
        assert(line@ == record_text(rel as int, level, kind@, payload@) + "\n"@);
        let hash: String = payload_hash(payload);
        if self.seen.get(hash.as_str()).is_some() {
            return LogWrite { line, hash_line: None };
        }
        let mut hash_line: String = String::new();
        push_i64(&mut hash_line, rel);
        hash_line.append(" ");
        hash_line.append(hash.as_str());
        hash_line.append("\n");
        let mut times: Vec<(i64, i64)> = Vec::new();
        times.push((self.start_ts_ms, rel));
        let ghost h = hash@;
        let ghost t = times;
        self.seen.insert(hash, times);
        proof {
            assert(t@ == seq![(self.start_ts_ms, rel)]);
            assert(self.seen() == old(self).seen().insert(h, t));
            lemma_hex_is_hash(h);
            assert(self.seen().dom() == old(self).seen().dom().insert(h));
        }
        LogWrite { line, hash_line: Some(hash_line) }
    }

    /// Logs a payload as it is, with the level that its kind has by default.
    pub fn log_raw(&mut self, now_ms: i64, kind: &str, payload: &str) -> (w: LogWrite)
        requires
            old(self).wf(),
        ensures
            final(self).wf(),
            final(self).exited() == old(self).exited(),
            Self::logs(
                old(self),
                final(self),
                time_since(old(self).start(), now_ms as int),
                'U',
                kind@,
                payload@,
                w,
            ),
    {
        self.log_raw_with_level(now_ms, default_level_for_kind(kind), kind, payload)
    }

    /// Logs a text as a JSON string; the log gives it back.
    pub fn log_json_with_level(&mut self, now_ms: i64, level: char, kind: &str, text: &str) -> (r: Option<
        LogWrite,
    >)
        requires
            old(self).wf(),
        ensures
            final(self).wf(),
            final(self).exited() == old(self).exited(),
            r matches Some(w) && Self::logs(
                old(self),
                final(self),
                time_since(old(self).start(), now_ms as int),
                level,
                kind@,
                json_text(text@),
                w,
            ),
            encoded_kind(kind@) && is_level(level) ==> {
                let record = record_text(
                    time_since(old(self).start(), now_ms as int),
                    level,
                    kind@,
                    json_text(text@),
                );
                &&& unbroken(record)
                &&& log_record(record) == Some((kind@, text@))
            },
    {
        match json_to_string(text) {
            Ok(payload) => {
                proof {
                    if encoded_kind(kind@) && is_level(level) {
                        let rel = time_since(self.start(), now_ms as int);
                        lemma_encoded_kinds(kind@);
                        lemma_json_unbroken(text@);
                        lemma_record_unbroken(rel, level, kind@, json_text(text@));
                        law_record_is_read(rel, level, kind@, json_text(text@));
                    }
                }
                Some(self.log_raw_with_level(now_ms, level, kind, payload.as_str()))
            },
            Err(_) => None,
        }
    }

    /// Logs a text as a JSON string, with the level that its kind has by default.
    pub fn log_json(&mut self, now_ms: i64, kind: &str, text: &str) -> (r: Option<LogWrite>)
        requires
            old(self).wf(),
        ensures
            final(self).wf(),
            final(self).exited() == old(self).exited(),
            r matches Some(w) && Self::logs(
                old(self),
                final(self),
                time_since(old(self).start(), now_ms as int),
                'U',
                kind@,
                json_text(text@),
                w,
            ),
            encoded_kind(kind@) ==> {
                let record = record_text(
                    time_since(old(self).start(), now_ms as int),
                    'U',
                    kind@,
                    json_text(text@),
                );
                &&& unbroken(record)
                &&& log_record(record) == Some((kind@, text@))
            },
    {
        self.log_json_with_level(now_ms, default_level_for_kind(kind), kind, text)
    }

    /// Logs the exit code, once.
    pub fn log_exit(&mut self, now_ms: i64, code: i32) -> (r: Option<LogWrite>)
        requires
            old(self).wf(),
        ensures
            final(self).wf(),
            final(self).exited(),
            match r {
                Some(w) => !old(self).exited() && Self::logs(
                    old(self),
                    final(self),
                    time_since(old(self).start(), now_ms as int),
                    if code == 0 {
                        'I'
                    } else {
                        'E'
                    },
                    "EXIT"@,
                    int_text(code as int),
                    w,
                ),
                None => old(self).exited() && *final(self) == *old(self),
            },
    {
        if self.exit_logged {
            return None;
        }
        self.exit_logged = true;
        let level: char = if code == 0 {
            'I'
        } else {
            'E'
        };
        let mut payload: String = String::new();
        push_i64(&mut payload, code as i64);
        assert(payload@ == int_text(code as int));
        Some(self.log_raw_with_level(now_ms, level, "EXIT", payload.as_str()))
    }

    /// The stats file after this execution, from what it held before.
    pub fn write_stats(&self, existing: &str, now_ms: i64) -> (r: String)
        requires
            self.wf(),
        ensures
            r@ == stats_text(
                merged_model(
                    existing@,
                    self.start() as i64,
                    time_since(self.start(), now_ms as int) as i64,
                    self.seen(),
                ),
            ),
    {
        let duration: i64 = elapsed_ms(self.start_ts_ms, now_ms);
        merge_stats_content(existing, self.start_ts_ms, duration, &self.seen)
    }
}

/// The level that a kind of record has by default: unknown, whatever the kind.
pub fn default_level_for_kind(_kind: &str) -> (r: char)
    ensures
        r == 'U',
{
    'U'
}

} // verus!
