//! What is shown of a run while it goes on and when it has ended.
use crate::number::{int_text, push_i64, push_u64};
use crate::stats::clamp_percent;
use crate::tally::{CommandSummary, CompactStats, LineCounts, SummaryCounts};
use crate::text::{chars_of, string_of, texts};
use vstd::prelude::*;

verus! {

// ---------------------------------------------------------------------------
// Times

/// A number with at least two digits.
pub open spec fn two_digits(n: int) -> Seq<char> {
    if n < 10 {
        "0"@ + int_text(n)
    } else {
        int_text(n)
    }
}

fn push_two_digits(out: &mut String, n: u64)
    ensures
        final(out)@ == old(out)@ + two_digits(n as int),
{
    let ghost before = out@;
    if n < 10 {
        out.append("0");
    }
    push_u64(out, n);
    assert(out@ == before + two_digits(n as int));
}

/// A time in seconds as minutes and seconds, with hours where there are any.
pub open spec fn clock_text(secs: int) -> Seq<char> {
    let rest = two_digits(secs % 3600 / 60) + ":"@ + two_digits(secs % 60);
    if secs >= 3600 {
        two_digits(secs / 3600) + ":"@ + rest
    } else {
        rest
    }
}

/// A time in seconds as minutes and seconds, with hours where there are any.
pub fn format_elapsed(secs: u64) -> (r: String)
    ensures
        r@ == clock_text(secs as int),
{
    let h: u64 = secs / 3600;
    let m: u64 = (secs % 3600) / 60;
    let s: u64 = secs % 60;
    let mut out: String = String::new();
    if h > 0 {
        push_two_digits(&mut out, h);
        out.append(":");
    }
    push_two_digits(&mut out, m);
    out.append(":");
    push_two_digits(&mut out, s);
    assert(out@ == clock_text(secs as int));
    out
}

/// How many refreshes there are in a second, at most.
pub const MAX_COMPACT_REFRESH_HZ: u64 = 20;

/// How long to wait between two refreshes, in milliseconds.
pub fn compact_refresh_interval() -> (r: u64)
    ensures
        r == 1000u64 / MAX_COMPACT_REFRESH_HZ,
        r == 50,
{
    let ms: u64 = 1000 / MAX_COMPACT_REFRESH_HZ;
    if ms < 1 {
        1
    } else {
        ms
    }
}

// ---------------------------------------------------------------------------
// The line of a running command

/// At most `max` characters of a text, with dots where more follow.
pub open spec fn shortened(s: Seq<char>, max: int) -> Seq<char> {
    if s.len() > max {
        s.take(max) + "..."@
    } else {
        s
    }
}

/// At most `max` characters of a text, with dots where more follow.
pub fn truncate(text: &str, max: usize) -> (r: String)
    ensures
        r@ == shortened(text@, max as int),
{
    let v: Vec<char> = chars_of(text);
    if v.len() > max {
        let mut out: String = string_of(v.as_slice(), 0, max);
        assert(out@ == text@.take(max as int));
        out.append("...");
        out
    } else {
        text.to_string()
    }
}

/// What the line of a running command shows.
pub struct CompactHeader {
    pub spinner: char,
    pub pid: u32,
    pub elapsed: String,
    pub cmd_short: String,
    pub line_count: u64,
    pub warning_count: u64,
    pub error_count: u64,
    pub progress: String,
    pub last_error: String,
}

/// How far a run has come, where that is known.
pub open spec fn progress_text(progress: Option<i64>) -> Seq<char> {
    match progress {
        Some(p) => " pct:"@ + int_text(clamp_percent(p as int)) + "%"@,
        None => Seq::empty(),
    }
}

/// The last error, or a dash.
pub open spec fn error_text(last_error: Seq<char>) -> Seq<char> {
    if last_error.len() == 0 {
        "-"@
    } else {
        shortened(last_error, 48)
    }
}

/// What the line of a running command shows.
pub fn format_compact_header(
    spinner: char,
    pid: u32,
    command: &str,
    elapsed: &str,
    stats: &CompactStats,
) -> (r: CompactHeader)
    ensures
        r.spinner == spinner,
        r.pid == pid,
        r.elapsed@ == elapsed@,
        r.cmd_short@ == shortened(command@, 36),
        r.line_count == stats.line_count,
        r.warning_count == stats.warning_count,
        r.error_count == stats.error_count,
        r.progress@ == progress_text(stats.progress_percent),
        r.last_error@ == error_text(stats.last_error@),
{
    let last_error: String = if stats.last_error.as_str().is_empty() {
        "-".to_string()
    } else {
        truncate(stats.last_error.as_str(), 48)
    };
    let mut progress: String = String::new();
    if let Some(p) = stats.progress_percent {
        let shown: i64 = if p < 0 {
            0
        } else if p > 100 {
            100
        } else {
            p
        };
        progress.append(" pct:");
        push_i64(&mut progress, shown);
        progress.append("%");
        assert(progress@ == progress_text(stats.progress_percent));
    }
    CompactHeader {
        spinner,
        pid,
        elapsed: elapsed.to_string(),
        cmd_short: truncate(command, 36),
        line_count: stats.line_count,
        warning_count: stats.warning_count,
        error_count: stats.error_count,
        progress,
        last_error,
    }
}

/// The line of a running command.
pub open spec fn header_text(h: CompactHeader) -> Seq<char> {
    seq![h.spinner] + " RUNNING pid:"@ + int_text(h.pid as int) + " t:"@ + h.elapsed@ + " cmd:"@ + h.cmd_short@
        + " lines:"@ + int_text(h.line_count as int) + " warn:"@ + int_text(h.warning_count as int) + " err:"@
        + int_text(h.error_count as int) + h.progress@ + " last:"@ + h.last_error@
}

/// The line of a command that has run for `secs` seconds, after `turns` turns of the
/// spinner.
pub open spec fn running_text(
    counts: LineCounts,
    turns: int,
    pid: int,
    command: Seq<char>,
    secs: int,
) -> Seq<char> {
    seq![spinner_at(turns)] + " RUNNING pid:"@ + int_text(pid) + " t:"@ + clock_text(secs) + " cmd:"@ + shortened(
        command,
        36,
    ) + " lines:"@ + int_text(counts.lines) + " warn:"@ + int_text(counts.warning) + " err:"@ + int_text(
        counts.error,
    ) + progress_text(counts.progress) + " last:"@ + error_text(counts.last_error)
}

/// The line of a running command.
pub fn render_header(h: &CompactHeader) -> (r: String)
    ensures
        r@ == header_text(*h),
{
    let mut out: String = String::new();
    out.push(h.spinner);
    out.append(" RUNNING pid:");
    push_u64(&mut out, h.pid as u64);
    out.append(" t:");
    out.append(h.elapsed.as_str());
    out.append(" cmd:");
    out.append(h.cmd_short.as_str());
    out.append(" lines:");
    push_u64(&mut out, h.line_count);
    out.append(" warn:");
    push_u64(&mut out, h.warning_count);
    out.append(" err:");
    push_u64(&mut out, h.error_count);
    out.append(h.progress.as_str());
    out.append(" last:");
    out.append(h.last_error.as_str());
    assert(out@ == header_text(*h));
    out
}

/// The picture of the spinner after `turns` turns.
pub open spec fn spinner_at(turns: int) -> char {
    if turns % 4 == 0 {
        '|'
    } else if turns % 4 == 1 {
        '/'
    } else if turns % 4 == 2 {
        '-'
    } else {
        '\\'
    }
}

/// The picture of the spinner after `turns` turns.
pub fn spinner_frame(turns: u64) -> (c: char)
    ensures
        c == spinner_at(turns as int),
{
    let k: u64 = turns % 4;
    if k == 0 {
        '|'
    } else if k == 1 {
        '/'
    } else if k == 2 {
        '-'
    } else {
        '\\'
    }
}

// ---------------------------------------------------------------------------
// The result

/// The lines of the result: success, with the number of warnings; or failure, with error
/// lines.
pub open spec fn result_text(code: int, summary: Option<SummaryCounts>, max: int) -> Seq<Seq<char>> {
    match (code == 0, summary) {
        (true, Some(s)) => if s.warnings > 0 {
            seq!["SUCCESS ("@ + int_text(s.warnings) + " warnings)"@]
        } else {
            seq!["SUCCESS"@]
        },
        (true, None) => seq!["SUCCESS"@],
        (false, Some(s)) => seq!["FAILED"@] + if s.error_lines.len() > max {
            s.error_lines.take(max)
        } else {
            s.error_lines
        },
        (false, None) => seq!["FAILED"@],
    }
}

/// The lines of the result.
pub fn compact_result(code: i32, summary: Option<&CommandSummary>, max_error_lines: usize) -> (r: Vec<String>)
    ensures
        texts(r@) == result_text(
            code as int,
            match summary {
                Some(s) => Some(s.counts()),
                None => None,
            },
            max_error_lines as int,
        ),
{
    let mut out: Vec<String> = Vec::new();
    if code == 0 {
        let mut line: String = "SUCCESS".to_string();
        if let Some(s) = summary {
            if s.warning_count > 0 {
                line = "SUCCESS (".to_string();
                push_u64(&mut line, s.warning_count);
                line.append(" warnings)");
            }
        }
        out.push(line);
        assert(texts(out@) == seq![line@]);
        return out;
    }
    out.push("FAILED".to_string());
    if let Some(s) = summary {
        let ghost all = texts(s.error_lines@);
        let len: usize = s.error_lines.len();
        let n: usize = if len > max_error_lines {
            max_error_lines
        } else {
            len
        };
        let mut i: usize = 0;
        assert(texts(out@) == seq!["FAILED"@] + all.take(0));
        while i < n
            invariant
                i <= n,
                n <= s.error_lines@.len(),
                all == texts(s.error_lines@),
                texts(out@) == seq!["FAILED"@] + all.take(i as int),
            decreases n - i,
        {
            let ghost before = out@;
            out.push(s.error_lines[i].clone());
            proof {
                assert(all.take(i + 1) == all.take(i as int).push(all[i as int]));
                assert(texts(out@) == texts(before).push(all[i as int]));
                assert(texts(out@) == seq!["FAILED"@] + all.take(i + 1));
            }
            i = i + 1;
        }
        assert(all.take(all.len() as int) == all);
    } else {
        assert(texts(out@) == seq!["FAILED"@]);
    }
    out
}

/// The line of the counts by level.
pub open spec fn stats_line_text(c: LineCounts) -> Seq<char> {
    "STATS lines="@ + int_text(c.lines) + " fatal="@ + int_text(c.fatal) + " error="@ + int_text(c.error)
        + " warning="@ + int_text(c.warning) + " info="@ + int_text(c.info) + " trace="@ + int_text(c.trace)
        + " unknown="@ + int_text(c.unknown)
}

/// The line of the counts by level.
pub fn level_stats_line(stats: &CompactStats) -> (r: String)
    ensures
        r@ == stats_line_text(stats.counts()),
{
    let mut out: String = "STATS lines=".to_string();
    push_u64(&mut out, stats.line_count);
    out.append(" fatal=");
    push_u64(&mut out, stats.fatal_count);
    out.append(" error=");
    push_u64(&mut out, stats.error_count);
    out.append(" warning=");
    push_u64(&mut out, stats.warning_count);
    out.append(" info=");
    push_u64(&mut out, stats.info_count);
    out.append(" trace=");
    push_u64(&mut out, stats.trace_count);
    out.append(" unknown=");
    push_u64(&mut out, stats.unknown_count);
    assert(out@ == stats_line_text(stats.counts()));
    out
}

} // verus!
