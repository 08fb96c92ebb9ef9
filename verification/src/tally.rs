//! What is counted and kept of the lines of a run.
use crate::filters::{contains_any_pattern, holds_pattern, lower_text, CommandFilterConfig};
use crate::hash::{hash_of_payload, line_hash_for_stats};
use crate::levels::{normalize_log_line, normalized, LineRules};
use crate::order::last_n;
use crate::outside::json_text;
use crate::stats::clamp_percent;
use crate::strmap::StringMap;
use crate::text::{lower, same, texts};
use std::collections::VecDeque;
use vstd::prelude::*;

verus! {

// ---------------------------------------------------------------------------
// Lists that keep their last entries

/// Adds an entry at the end, and keeps the last `max`.
pub fn push_bounded(q: &mut VecDeque<String>, entry: String, max: usize)
    ensures
        texts(final(q)@) == last_n(texts(old(q)@).push(entry@), max as int),
{
    let ghost all = texts(q@).push(entry@);
    q.push_back(entry);
    let ghost mut gone: int = 0;
    assert(texts(q@) == all.skip(0));
    while q.len() > max
        invariant
            0 <= gone <= all.len(),
            texts(q@) == all.skip(gone),
            gone > 0 ==> all.len() - gone >= max,
        decreases q@.len(),
    {
        let ghost before = q@;
        let _ = q.pop_front();
        proof {
            assert(q@ == before.skip(1));
            assert(texts(before).len() == before.len());
            assert(texts(q@) == texts(before).skip(1));
            assert(all.skip(gone).skip(1) == all.skip(gone + 1));
            gone = gone + 1;
        }
    }
    proof {
        assert(texts(q@).len() == q@.len());
        if gone == 0 {
            assert(all.skip(0) == all);
        }
    }
}

/// The last lines of a run, after one more: a blank line is not kept, and one of the error
/// stream is marked.
pub open spec fn tail_after(
    tail: Seq<Seq<char>>,
    kind: Seq<char>,
    cleaned: Seq<char>,
    max: int,
) -> Seq<Seq<char>> {
    if cleaned.len() == 0 {
        tail
    } else if kind == "STDERR"@ {
        last_n(tail.push("[err] "@ + cleaned), max)
    } else {
        last_n(tail.push(cleaned), max)
    }
}

/// Keeps a cleaned line among the last ones.
pub fn push_cleaned(tail: &mut VecDeque<String>, kind: &str, cleaned: &str, max: usize)
    ensures
        texts(final(tail)@) == tail_after(texts(old(tail)@), kind@, cleaned@, max as int),
{
    if cleaned.is_empty() {
        return;
    }
    let mut entry: String = String::new();
    if same(kind, "STDERR") {
        entry.append("[err] ");
        entry.append(cleaned);
        assert(entry@ == "[err] "@ + cleaned@);
    } else {
        entry.append(cleaned);
        assert(entry@ == cleaned@);
    }
    push_bounded(tail, entry, max);
}

/// Keeps a line of output among the last ones.
pub fn push_tail_line(rules: &LineRules, tail: &mut VecDeque<String>, kind: &str, line: &str, max: usize)
    requires
        rules.wf(),
    ensures
        texts(final(tail)@) == tail_after(texts(old(tail)@), kind@, normalized(line@), max as int),
{
    let cleaned: String = normalize_log_line(rules, line);
    push_cleaned(tail, kind, cleaned.as_str(), max);
}

// ---------------------------------------------------------------------------
// Counts by level, and progress

/// The lines of a run by level, the last error, and how far the run has come.
pub struct CompactStats {
    pub line_count: u64,
    pub fatal_count: u64,
    pub warning_count: u64,
    pub error_count: u64,
    pub info_count: u64,
    pub trace_count: u64,
    pub unknown_count: u64,
    pub last_error: String,
    pub progress_percent: Option<i64>,
}

/// What `CompactStats` holds.
#[verifier::ext_equal]
pub struct LineCounts {
    pub lines: int,
    pub fatal: int,
    pub warning: int,
    pub error: int,
    pub info: int,
    pub trace: int,
    pub unknown: int,
    pub last_error: Seq<char>,
    pub progress: Option<i64>,
}

impl LineCounts {
    /// Every line is counted once by its level, a fatal one as an error too.
    pub open spec fn wf(self) -> bool {
        &&& self.lines == self.error + self.warning + self.info + self.trace + self.unknown
        &&& 0 <= self.fatal <= self.error
        &&& 0 <= self.warning
        &&& 0 <= self.info
        &&& 0 <= self.trace
        &&& 0 <= self.unknown
    }
}

/// One or nothing.
pub open spec fn one_if(b: bool) -> int {
    if b {
        1
    } else {
        0
    }
}

/// Whether a level is that of an error.
pub open spec fn is_bad(level: char) -> bool {
    level == 'F' || level == 'E'
}

/// The counts after one more line.
pub open spec fn counted(c: LineCounts, level: char, cleaned: Seq<char>) -> LineCounts {
    let bad = is_bad(level);
    LineCounts {
        lines: c.lines + 1,
        fatal: c.fatal + one_if(level == 'F'),
        error: c.error + one_if(bad),
        warning: c.warning + one_if(level == 'W'),
        info: c.info + one_if(level == 'I'),
        trace: c.trace + one_if(level == 'T'),
        unknown: c.unknown + one_if(!bad && level != 'W' && level != 'I' && level != 'T'),
        last_error: if bad {
            cleaned
        } else {
            c.last_error
        },
        progress: c.progress,
    }
}

/// The counts after a line that came at `percent` of earlier runs: the progress is the
/// furthest so far.
pub open spec fn advanced(c: LineCounts, percent: Option<i64>) -> LineCounts {
    LineCounts {
        progress: match percent {
            Some(p) => match c.progress {
                Some(now) => if now >= clamp_percent(p as int) {
                    Some(now)
                } else {
                    Some(clamp_percent(p as int) as i64)
                },
                None => Some(clamp_percent(p as int) as i64),
            },
            None => c.progress,
        },
        ..c
    }
}

/// The position of a line in earlier runs.
pub open spec fn percent_in(history: Option<Map<Seq<char>, i64>>, line: Seq<char>) -> Option<i64> {
    match history {
        Some(m) => if m.contains_key(hash_of_payload(json_text(line))) {
            Some(m[hash_of_payload(json_text(line))])
        } else {
            None
        },
        None => None,
    }
}

/// What a history holds.
pub open spec fn opt_map(history: Option<&StringMap<i64>>) -> Option<Map<Seq<char>, i64>> {
    match history {
        Some(m) => Some(m@),
        None => None,
    }
}

impl CompactStats {
    /// What the counts are.
    pub open spec fn counts(&self) -> LineCounts {
        LineCounts {
            lines: self.line_count as int,
            fatal: self.fatal_count as int,
            warning: self.warning_count as int,
            error: self.error_count as int,
            info: self.info_count as int,
            trace: self.trace_count as int,
            unknown: self.unknown_count as int,
            last_error: self.last_error@,
            progress: self.progress_percent,
        }
    }
}

/// No lines.
pub open spec fn no_lines() -> LineCounts {
    LineCounts {
        lines: 0,
        fatal: 0,
        warning: 0,
        error: 0,
        info: 0,
        trace: 0,
        unknown: 0,
        last_error: Seq::empty(),
        progress: None,
    }
}

impl Default for CompactStats {
    fn default() -> (r: Self)
        ensures
            r.counts() == no_lines(),
    {
        CompactStats {
            line_count: 0,
            fatal_count: 0,
            warning_count: 0,
            error_count: 0,
            info_count: 0,
            trace_count: 0,
            unknown_count: 0,
            last_error: String::new(),
            progress_percent: None,
        }
    }
}

/// Counts a cleaned line.
pub fn count_line(stats: &mut CompactStats, level: char, cleaned: &str)
    requires
        old(stats).counts().wf(),
        old(stats).line_count < u64::MAX,
    ensures
        final(stats).counts() == counted(old(stats).counts(), level, cleaned@),
        final(stats).counts().wf(),
{
    stats.line_count = stats.line_count + 1;
    if level == 'F' {
        stats.fatal_count = stats.fatal_count + 1;
        stats.error_count = stats.error_count + 1;
        stats.last_error = cleaned.to_string();
    } else if level == 'E' {
        stats.error_count = stats.error_count + 1;
        stats.last_error = cleaned.to_string();
    } else if level == 'W' {
        stats.warning_count = stats.warning_count + 1;
    } else if level == 'I' {
        stats.info_count = stats.info_count + 1;
    } else if level == 'T' {
        stats.trace_count = stats.trace_count + 1;
    } else {
        stats.unknown_count = stats.unknown_count + 1;
    }
}

/// Counts a line of output.
pub fn update_stats(rules: &LineRules, stats: &mut CompactStats, level: char, line: &str)
    requires
        rules.wf(),
        old(stats).counts().wf(),
        old(stats).line_count < u64::MAX,
    ensures
        final(stats).counts() == counted(old(stats).counts(), level, normalized(line@)),
        final(stats).counts().wf(),
{
    let cleaned: String = normalize_log_line(rules, line);
    count_line(stats, level, cleaned.as_str());
}

/// Notes that a line came which came at `percent` of earlier runs.
pub fn advance_progress(stats: &mut CompactStats, percent: Option<i64>)
    ensures
        final(stats).counts() == advanced(old(stats).counts(), percent),
{
    if let Some(p) = percent {
        let next: i64 = if p < 0 {
            0
        } else if p > 100 {
            100
        } else {
            p
        };
        stats.progress_percent = Some(
            match stats.progress_percent {
                Some(now) => if now >= next {
                    now
                } else {
                    next
                },
                None => next,
            },
        );
    }
}

/// Notes how far the run has come, by the line that came and by when it came in earlier
/// runs.
pub fn update_progress_from_history(
    stats: &mut CompactStats,
    line: &str,
    historical_percents: Option<&StringMap<i64>>,
)
    requires
        historical_percents matches Some(m) ==> m.wf(),
    ensures
        final(stats).counts() == advanced(
            old(stats).counts(),
            percent_in(opt_map(historical_percents), line@),
        ),
{
    let percent: Option<i64> = match historical_percents {
        Some(history) => match line_hash_for_stats(line) {
            Some(hash) => match history.get(hash.as_str()) {
                Some(p) => Some(*p),
                None => None,
            },
            None => None,
        },
        None => None,
    };
    advance_progress(stats, percent);
}

/// Progress is a percentage, and it never goes back.
pub proof fn law_progress_only_grows(c: LineCounts, percent: Option<i64>)
    requires
        c.progress matches Some(now) ==> 0 <= now <= 100,
    ensures
        advanced(c, percent).progress matches Some(p) ==> 0 <= p <= 100,
        match c.progress {
            Some(now) => advanced(c, percent).progress matches Some(p) && now <= p,
            None => true,
        },
        percent matches Some(p) ==> (advanced(c, percent).progress matches Some(q) && clamp_percent(p as int)
            <= q),
{
}

/// Counting keeps every line under one level.
pub proof fn law_every_line_is_counted_once(c: LineCounts, level: char, cleaned: Seq<char>)
    requires
        c.wf(),
    ensures
        counted(c, level, cleaned).wf(),
        counted(c, level, cleaned).lines == c.lines + 1,
{
}

/// The counts after some more lines, each with its level.
pub open spec fn counted_all(c: LineCounts, ls: Seq<(char, Seq<char>)>) -> LineCounts
    decreases ls.len(),
{
    if ls.len() == 0 {
        c
    } else {
        counted(counted_all(c, ls.drop_last()), ls.last().0, normalized(ls.last().1))
    }
}

/// How many of some lines have a level that `of` tells.
pub open spec fn lines_at(ls: Seq<(char, Seq<char>)>, of: spec_fn(char) -> bool) -> int
    decreases ls.len(),
{
    if ls.len() == 0 {
        0
    } else {
        lines_at(ls.drop_last(), of) + one_if(of(ls.last().0))
    }
}

/// Counting any number of lines counts all of them: each adds one in all and one under its
/// level, the last error is the last line with the level of one, and the progress stays.
pub proof fn law_all_lines_are_counted(c: LineCounts, ls: Seq<(char, Seq<char>)>)
    requires
        c.wf(),
    ensures
        ({
            let all = counted_all(c, ls);
            &&& all.wf()
            &&& all.lines == c.lines + ls.len()
            &&& all.fatal == c.fatal + lines_at(ls, |l: char| l == 'F')
            &&& all.error == c.error + lines_at(ls, |l: char| is_bad(l))
            &&& all.warning == c.warning + lines_at(ls, |l: char| l == 'W')
            &&& all.info == c.info + lines_at(ls, |l: char| l == 'I')
            &&& all.trace == c.trace + lines_at(ls, |l: char| l == 'T')
            &&& forall|i: int|
                0 <= i < ls.len() && is_bad((#[trigger] ls[i]).0) && (forall|j: int|
                    i < j < ls.len() ==> !is_bad((#[trigger] ls[j]).0)) ==> all.last_error == normalized(ls[i].1)
            &&& (forall|i: int| 0 <= i < ls.len() ==> !is_bad((#[trigger] ls[i]).0)) ==> all.last_error
                == c.last_error
            &&& all.progress == c.progress
        }),
{
    lemma_all_counted(c, ls);
    assert forall|i: int|
        0 <= i < ls.len() && is_bad((#[trigger] ls[i]).0) && (forall|j: int|
            i < j < ls.len() ==> !is_bad((#[trigger] ls[j]).0)) implies counted_all(c, ls).last_error == normalized(
        ls[i].1,
    ) by {
        lemma_last_error(c, ls, i);
    }
    if forall|i: int| 0 <= i < ls.len() ==> !is_bad((#[trigger] ls[i]).0) {
        lemma_no_error(c, ls);
    }
}

proof fn lemma_all_counted(c: LineCounts, ls: Seq<(char, Seq<char>)>)
    requires
        c.wf(),
    ensures
        ({
            let all = counted_all(c, ls);
            &&& all.wf()
            &&& all.lines == c.lines + ls.len()
            &&& all.fatal == c.fatal + lines_at(ls, |l: char| l == 'F')
            &&& all.error == c.error + lines_at(ls, |l: char| is_bad(l))
            &&& all.warning == c.warning + lines_at(ls, |l: char| l == 'W')
            &&& all.info == c.info + lines_at(ls, |l: char| l == 'I')
            &&& all.trace == c.trace + lines_at(ls, |l: char| l == 'T')
            &&& all.progress == c.progress
        }),
    decreases ls.len(),
{
    if ls.len() > 0 {
        lemma_all_counted(c, ls.drop_last());
    }
}

proof fn lemma_last_error(c: LineCounts, ls: Seq<(char, Seq<char>)>, i: int)
    requires
        0 <= i < ls.len(),
        is_bad(ls[i].0),
        forall|j: int| i < j < ls.len() ==> !is_bad((#[trigger] ls[j]).0),
    ensures
        counted_all(c, ls).last_error == normalized(ls[i].1),
    decreases ls.len(),
{
    let last = ls.len() - 1;
    assert(ls[last] == ls.last());
    if i < last {
        let front = ls.drop_last();
        assert forall|j: int| i < j < front.len() implies !is_bad((#[trigger] front[j]).0) by {
            assert(!is_bad(ls[j].0));
        }
        lemma_last_error(c, front, i);
        assert(!is_bad(ls[last].0));
    }
}

proof fn lemma_no_error(c: LineCounts, ls: Seq<(char, Seq<char>)>)
    requires
        forall|j: int| 0 <= j < ls.len() ==> !is_bad((#[trigger] ls[j]).0),
    ensures
        counted_all(c, ls).last_error == c.last_error,
    decreases ls.len(),
{
    if ls.len() > 0 {
        let front = ls.drop_last();
        assert forall|j: int| 0 <= j < front.len() implies !is_bad((#[trigger] front[j]).0) by {
            assert(!is_bad(ls[j].0));
        }
        lemma_no_error(c, front);
        assert(!is_bad(ls[ls.len() - 1].0));
    }
}

// ---------------------------------------------------------------------------
// Warnings and errors

/// The warnings and errors of a run, and the last error lines.
pub struct CommandSummary {
    pub warning_count: u64,
    pub error_count: u64,
    pub error_lines: VecDeque<String>,
}

/// What `CommandSummary` holds.
#[verifier::ext_equal]
pub struct SummaryCounts {
    pub warnings: int,
    pub errors: int,
    pub error_lines: Seq<Seq<char>>,
}

impl CommandSummary {
    /// What the counts are.
    pub open spec fn counts(&self) -> SummaryCounts {
        SummaryCounts {
            warnings: self.warning_count as int,
            errors: self.error_count as int,
            error_lines: texts(self.error_lines@),
        }
    }
}

/// Nothing seen.
pub open spec fn no_summary() -> SummaryCounts {
    SummaryCounts { warnings: 0, errors: 0, error_lines: Seq::empty() }
}

impl Default for CommandSummary {
    fn default() -> (r: Self)
        ensures
            r.counts() == no_summary(),
    {
        let r = CommandSummary { warning_count: 0, error_count: 0, error_lines: VecDeque::new() };
        assert(texts(r.error_lines@) == Seq::<Seq<char>>::empty());
        r
    }
}

/// Whether a cleaned line is a warning: by the patterns of the profile, or by its level.
pub open spec fn counts_as_warning(
    cleaned: Seq<char>,
    level: char,
    filter: Option<&CommandFilterConfig>,
) -> bool {
    match filter {
        Some(f) => holds_pattern(lower(cleaned), texts(f.warning_patterns@)),
        None => level == 'W',
    }
}

/// Whether a cleaned line is an error: by the patterns of the profile, or by its level.
pub open spec fn counts_as_error(
    cleaned: Seq<char>,
    level: char,
    filter: Option<&CommandFilterConfig>,
) -> bool {
    match filter {
        Some(f) => holds_pattern(lower(cleaned), texts(f.error_patterns@)),
        None => level == 'F' || level == 'E',
    }
}

/// Whether a cleaned line that is an error is worth showing.
pub open spec fn worth_showing(
    cleaned: Seq<char>,
    level: char,
    filter: Option<&CommandFilterConfig>,
) -> bool {
    match filter {
        Some(f) => holds_pattern(lower(cleaned), texts(f.error_capture_patterns@)),
        None => level == 'F' || level == 'E',
    }
}

/// The summary after one more line; a blank one does not count.
pub open spec fn summarized(
    s: SummaryCounts,
    cleaned: Seq<char>,
    level: char,
    filter: Option<&CommandFilterConfig>,
    max: int,
) -> SummaryCounts {
    let warning = cleaned.len() > 0 && counts_as_warning(cleaned, level, filter);
    let error = cleaned.len() > 0 && counts_as_error(cleaned, level, filter);
    SummaryCounts {
        warnings: s.warnings + one_if(warning),
        errors: s.errors + one_if(error),
        error_lines: if error && worth_showing(cleaned, level, filter) && max > 0 {
            last_n(s.error_lines.push(cleaned), max)
        } else {
            s.error_lines
        },
    }
}

/// Adds a cleaned line to the summary.
pub fn summarize_cleaned(
    summary: &mut CommandSummary,
    cleaned: &str,
    level: char,
    command_filter: Option<&CommandFilterConfig>,
    max_error_lines: usize,
)
    requires
        old(summary).warning_count < u64::MAX,
        old(summary).error_count < u64::MAX,
    ensures
        final(summary).counts() == summarized(
            old(summary).counts(),
            cleaned@,
            level,
            command_filter,
            max_error_lines as int,
        ),
{
    if cleaned.is_empty() {
        return;
    }
    let (is_warning, is_error, should_capture): (bool, bool, bool) = match command_filter {
        Some(filter) => {
            let lower: String = lower_text(cleaned);
            (
                contains_any_pattern(lower.as_str(), &filter.warning_patterns),
                contains_any_pattern(lower.as_str(), &filter.error_patterns),
                contains_any_pattern(lower.as_str(), &filter.error_capture_patterns),
            )
        },
        None => {
            let bad: bool = level == 'F' || level == 'E';
            (level == 'W', bad, bad)
        },
    };
    if is_warning {
        summary.warning_count = summary.warning_count + 1;
    }
    if is_error {
        summary.error_count = summary.error_count + 1;
        if should_capture && max_error_lines > 0 {
            push_bounded(&mut summary.error_lines, cleaned.to_string(), max_error_lines);
        }
    }
}

/// Adds a line of output to the summary.
pub fn update_command_summary(
    rules: &LineRules,
    summary: &mut CommandSummary,
    line: &str,
    level: char,
    command_filter: Option<&CommandFilterConfig>,
    max_error_lines: usize,
)
    requires
        rules.wf(),
        old(summary).warning_count < u64::MAX,
        old(summary).error_count < u64::MAX,
    ensures
        final(summary).counts() == summarized(
            old(summary).counts(),
            normalized(line@),
            level,
            command_filter,
            max_error_lines as int,
        ),
{
    let cleaned: String = normalize_log_line(rules, line);
    summarize_cleaned(summary, cleaned.as_str(), level, command_filter, max_error_lines);
}

/// No more error lines are kept than are configured.
pub proof fn law_error_lines_are_bounded(
    s: SummaryCounts,
    cleaned: Seq<char>,
    level: char,
    filter: Option<&CommandFilterConfig>,
    max: int,
)
    requires
        0 <= max,
        s.error_lines.len() <= max,
    ensures
        summarized(s, cleaned, level, filter, max).error_lines.len() <= max,
{
}

} // verus!
