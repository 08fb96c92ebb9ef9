//! What a run comes to: what is counted and kept of its lines, what is logged of them, and
//! what is shown of it.
use crate::capture::{after_chunk, after_line, after_lines, compacted, entries, found_tool, line_entries, line_level, lines_entries, pieces, plain_entries, with_chunk, BufferedChunk, CaptureContext, CaptureModel, LogRequest};
use crate::detect::candidates_of;
use crate::filters::{program_name, tool_for, CommandFilterConfig, CtConfig};
use crate::hash::{hash_of_payload, hex_text, lemma_hex_text, text_hash, without_digits};
use crate::levels::{ansi_pattern, lemma_trimmed_ends, level_of, normalized, timestamp_pattern, unstamped};
use crate::number::int_text;
use crate::outside::{hex_digit, json_text, lossy_text, md5_digest, regex_matches, regex_replaced};
use crate::profile_laws::{law_first_shown_tool_is_detected, law_patterns_are_looked_for, mentions, shows};
use crate::render::{clock_text, error_text, progress_text, result_text, running_text, shortened, stats_line_text, two_digits};
use crate::run::{adaptive_allowed, fresh_run, run_context, starts_compact};
use crate::runlog::{command_prefix, run_name};
use crate::shell::{command_line, escaped, is_plain, lemma_spaced_push, quoted_body};
use crate::tally::{counted, counted_all, summarized, tail_after, LineCounts, SummaryCounts};
use crate::text::{is_space, lemma_split_char_first, lemma_split_char_none, lemma_trim_of_trimmed, lines, lower, trim, trim_start};
use vstd::prelude::*;
use vstd::utf8::encode_utf8;

verus! {

// ---------------------------------------------------------------------------
// Counting

/// Counting any lines adds, in all and under each level, as many as there are; a fatal line is
/// an error too, and a level that is none of the others is unknown.
pub proof fn law_counts_are_the_numbers_of_lines(c: LineCounts, ls: Seq<(char, Seq<char>)>)
    ensures
        ({
            let all = counted_all(c, ls);
            &&& all.lines == c.lines + ls.len()
            &&& all.fatal == c.fatal + ls.filter(|l: (char, Seq<char>)| l.0 == 'F').len()
            &&& all.error == c.error + ls.filter(|l: (char, Seq<char>)| l.0 == 'F' || l.0 == 'E').len()
            &&& all.warning == c.warning + ls.filter(|l: (char, Seq<char>)| l.0 == 'W').len()
            &&& all.info == c.info + ls.filter(|l: (char, Seq<char>)| l.0 == 'I').len()
            &&& all.trace == c.trace + ls.filter(|l: (char, Seq<char>)| l.0 == 'T').len()
            &&& all.unknown == c.unknown + ls.filter(
                |l: (char, Seq<char>)|
                    l.0 != 'F' && l.0 != 'E' && l.0 != 'W' && l.0 != 'I' && l.0 != 'T',
            ).len()
        }),
    decreases ls.len(),
{
    reveal(Seq::filter);
    if ls.len() > 0 {
        law_counts_are_the_numbers_of_lines(c, ls.drop_last());
    }
}

/// The last error is the last fatal or error line, cleaned.
pub proof fn law_last_error_is_the_last(c: LineCounts, level: char, line: Seq<char>)
    ensures
        level == 'F' || level == 'E' ==> counted(c, level, line).last_error == line,
        level != 'F' && level != 'E' ==> counted(c, level, line).last_error == c.last_error,
        counted(c, level, line).progress == c.progress,
{
}

// ---------------------------------------------------------------------------
// Warnings and errors

/// A line that is not blank adds one warning, and one error, exactly where it holds a pattern
/// of the profile for them; without a profile its level decides. A blank line adds nothing.
pub proof fn law_line_is_summed_up(
    s: SummaryCounts,
    cleaned: Seq<char>,
    level: char,
    f: CommandFilterConfig,
    max: int,
)
    requires
        0 <= max,
        s.error_lines.len() <= max,
    ensures
        ({
            let with = summarized(s, cleaned, level, Some(&f), max);
            let without = summarized(s, cleaned, level, None, max);
            let warning = cleaned.len() > 0 && mentions(cleaned, f.warning_patterns@);
            let error = cleaned.len() > 0 && mentions(cleaned, f.error_patterns@);
            let kept = error && mentions(cleaned, f.error_capture_patterns@);
            let bad = cleaned.len() > 0 && (level == 'F' || level == 'E');
            &&& warning ==> with.warnings == s.warnings + 1
            &&& !warning ==> with.warnings == s.warnings
            &&& error ==> with.errors == s.errors + 1
            &&& !error ==> with.errors == s.errors
            &&& !kept ==> with.error_lines == s.error_lines
            &&& kept && s.error_lines.len() < max ==> with.error_lines == s.error_lines.push(cleaned)
            &&& kept && s.error_lines.len() == max && max > 0 ==> with.error_lines == s.error_lines.skip(1).push(
                cleaned,
            )
            &&& cleaned.len() > 0 && level == 'W' ==> without.warnings == s.warnings + 1
            &&& !(cleaned.len() > 0 && level == 'W') ==> without.warnings == s.warnings
            &&& bad ==> without.errors == s.errors + 1
            &&& !bad ==> without.errors == s.errors && without.error_lines == s.error_lines
            &&& bad && s.error_lines.len() < max ==> without.error_lines == s.error_lines.push(cleaned)
            &&& bad && s.error_lines.len() == max && max > 0 ==> without.error_lines == s.error_lines.skip(1).push(
                cleaned,
            )
        }),
{
    law_patterns_are_looked_for(cleaned, f.warning_patterns@);
    law_patterns_are_looked_for(cleaned, f.error_patterns@);
    law_patterns_are_looked_for(cleaned, f.error_capture_patterns@);
    let more = s.error_lines.push(cleaned);
    if s.error_lines.len() == max && max > 0 {
        assert(more.skip(1) == s.error_lines.skip(1).push(cleaned));
    }
}

/// Of the lines of a run the last ones that are not blank are kept, in their order, those of
/// the error stream marked.
pub proof fn law_last_lines_are_kept(tail: Seq<Seq<char>>, kind: Seq<char>, cleaned: Seq<char>, max: int)
    requires
        0 < max,
        tail.len() <= max,
    ensures
        ({
            let after = tail_after(tail, kind, cleaned, max);
            let shown = if kind == "STDERR"@ {
                "[err] "@ + cleaned
            } else {
                cleaned
            };
            &&& cleaned.len() == 0 ==> after == tail
            &&& cleaned.len() > 0 && tail.len() < max ==> after == tail.push(shown)
            &&& cleaned.len() > 0 && tail.len() == max ==> after == tail.skip(1).push(shown)
        }),
{
    let shown = if kind == "STDERR"@ {
        "[err] "@ + cleaned
    } else {
        cleaned
    };
    if tail.len() == max {
        assert(tail.push(shown).skip(1) == tail.skip(1).push(shown));
    }
}

// ---------------------------------------------------------------------------
// Cleaning

/// A time in brackets at the start of a line is taken off, with the white space behind it; any
/// other text in brackets stays.
pub proof fn law_leading_time_is_taken_off(inside: Seq<char>, after: Seq<char>)
    requires
        !inside.contains(']'),
        after.len() > 0 ==> !is_space(after[after.len() - 1]),
    ensures
        ({
            let line = seq!['['] + inside + seq![']'] + after;
            unstamped(line) == if regex_matches(timestamp_pattern(), trim(inside)) {
                trim_start(after)
            } else {
                line
            }
        }),
{
    let line = seq!['['] + inside + seq![']'] + after;
    assert(line[0] == '[');
    assert(line.last() == if after.len() > 0 {
        after[after.len() - 1]
    } else {
        ']'
    });
    lemma_trim_of_trimmed(line);
    assert(line.skip(1) == inside + seq![']'] + after);
    assert forall|j: int| 0 <= j < inside.len() implies inside[j] != ']' by {
        assert(inside.contains(inside[j]));
    }
    lemma_split_char_first(inside, after, ']');
}

/// White space around a line makes no difference. A line without brackets at its start is
/// trimmed, and nothing else.
pub proof fn law_other_lines_are_trimmed(line: Seq<char>)
    ensures
        unstamped(line) == unstamped(trim(line)),
        trim(line).len() == 0 || trim(line)[0] != '[' ==> unstamped(line) == trim(line),
        !trim(line).contains(']') ==> unstamped(line) == trim(line),
{
    let t = trim(line);
    lemma_trimmed_ends(line);
    lemma_trim_of_trimmed(t);
    if !t.contains(']') && t.len() > 0 && t[0] == '[' {
        let rest = t.skip(1);
        assert forall|j: int| 0 <= j < rest.len() implies rest[j] != ']' by {
            assert(rest[j] == t[j + 1]);
            assert(t.contains(t[j + 1]));
        }
        lemma_split_char_none(rest, ']');
    }
}

// ---------------------------------------------------------------------------
// What is logged of a line

/// Every line of output is logged once, as it came and in the order in which the lines came,
/// under the stream that it came from. Beside them stands at most the tool that a line shows.
pub proof fn law_every_line_is_logged(ctx: CaptureContext, m: CaptureModel, kind: Seq<char>, ls: Seq<Seq<char>>)
    requires
        kind != "FILTER"@,
    ensures
        lines_entries(ctx, m, kind, ls).filter(|e: (char, Seq<char>, Seq<char>)| e.1 != "FILTER"@).map_values(
            |e: (char, Seq<char>, Seq<char>)| (e.1, e.2),
        ) == ls.map_values(|l: Seq<char>| (kind, l)),
    decreases ls.len(),
{
    let own = |e: (char, Seq<char>, Seq<char>)| e.1 != "FILTER"@;
    let said = |e: (char, Seq<char>, Seq<char>)| (e.1, e.2);
    let of = |l: Seq<char>| (kind, l);
    if ls.len() == 0 {
        reveal(Seq::filter);
        assert(lines_entries(ctx, m, kind, ls).filter(own).map_values(said) == ls.map_values(of));
    } else {
        let front = ls.drop_last();
        let before = after_lines(ctx, m, kind, front);
        law_every_line_is_logged(ctx, m, kind, front);
        let a = lines_entries(ctx, m, kind, front);
        let b = line_entries(ctx, before, kind, ls.last());
        Seq::filter_distributes_over_add(a, b, own);
        let e = (line_level(ctx, before, ls.last()), kind, ls.last());
        let marker = b.drop_last();
        assert(b == marker.push(e));
        reveal(Seq::filter);
        assert(marker.filter(own) == Seq::<(char, Seq<char>, Seq<char>)>::empty()) by {
            if marker.len() > 0 {
                assert(marker.len() == 1);
                assert(marker.drop_last().filter(own) == Seq::<(char, Seq<char>, Seq<char>)>::empty());
            }
        }
        assert(b.filter(own) == seq![e]);
        assert((a.filter(own) + seq![e]).map_values(said) == a.filter(own).map_values(said).push((kind, ls.last())));
        assert(ls.map_values(of) == front.map_values(of).push((kind, ls.last())));
    }
}

/// A line is logged with the level that the profile of the run gives it, cleaned; before a
/// tool is known it is the profile of the tool that the line itself shows, and without any
/// profile it is none.
pub proof fn law_line_is_logged_with_its_level(ctx: CaptureContext, m: CaptureModel, kind: Seq<char>, line: Seq<char>)
    ensures
        ({
            let cleaned = normalized(line);
            let last = line_entries(ctx, m, kind, line).last();
            &&& last.1 == kind
            &&& last.2 == line
            &&& ctx.filter is Some ==> last.0 == level_of(cleaned, Some(&(ctx.filter->0)))
            &&& ctx.filter is None && m.choice is Some ==> last.0 == level_of(
                cleaned,
                Some(&ctx.tools[m.choice->0]),
            )
            &&& ctx.filter is None && m.choice is None && !ctx.guesses ==> last.0 == level_of(cleaned, None)
        }),
{
    let cleaned = normalized(line);
    assert(line_entries(ctx, m, kind, line).last() == (line_level(ctx, m, line), kind, line));
}

/// A line changes the counts by itself alone: one line more, under the level that it is logged
/// with. Cleaned, it is the last error where its level is that of one, and it is kept among the
/// last five lines.
pub proof fn law_line_counts_under_its_level(ctx: CaptureContext, m: CaptureModel, kind: Seq<char>, line: Seq<char>)
    ensures
        ({
            let level = line_entries(ctx, m, kind, line).last().0;
            let after = after_line(ctx, m, kind, line).counts;
            &&& after.lines == m.counts.lines + 1
            &&& level == 'F' ==> after.fatal == m.counts.fatal + 1 && after.error == m.counts.error + 1
            &&& level == 'E' ==> after.error == m.counts.error + 1 && after.fatal == m.counts.fatal
            &&& level == 'W' ==> after.warning == m.counts.warning + 1
            &&& level != 'W' ==> after.warning == m.counts.warning
            &&& level == 'I' ==> after.info == m.counts.info + 1
            &&& level == 'T' ==> after.trace == m.counts.trace + 1
            &&& level == 'U' ==> after.unknown == m.counts.unknown + 1
            &&& level != 'F' && level != 'E' ==> after.error == m.counts.error && after.fatal == m.counts.fatal
            &&& level == 'F' || level == 'E' ==> after.last_error == normalized(line)
            &&& level != 'F' && level != 'E' ==> after.last_error == m.counts.last_error
            &&& after_line(ctx, m, kind, line).tail == tail_after(m.tail, kind, normalized(line), 5)
            &&& after_line(ctx, m, kind, line).running == m.running
            &&& after_line(ctx, m, kind, line).had_output == m.had_output
        }),
{
    assert(line_entries(ctx, m, kind, line).last() == (line_level(ctx, m, line), kind, line));
}

// ---------------------------------------------------------------------------
// Times and texts that are shown

/// A time is shown as hours, where there are any, minutes and seconds, each with at least two
/// digits: they are the numbers that make up the time again.
pub proof fn law_clock_adds_up(secs: int)
    requires
        0 <= secs,
    ensures
        exists|h: int, m: int, s: int|
            {
                &&& 0 <= h && 0 <= m < 60 && 0 <= s < 60
                &&& 3600 * h + 60 * m + s == secs
                &&& clock_text(secs) == #[trigger] shown_time(h, m, s)
            },
{
    let h = secs / 3600;
    let m = secs % 3600 / 60;
    let s = secs % 60;
    lemma_clock_parts(secs);
    lemma_padded(h);
    lemma_padded(m);
    lemma_padded(s);
    lemma_clock_text(secs, h, m, s);
}

proof fn lemma_clock_parts(secs: int)
    requires
        0 <= secs,
    ensures
        3600 * (secs / 3600) + 60 * (secs % 3600 / 60) + secs % 60 == secs,
        0 <= secs / 3600,
        0 <= secs % 3600 / 60 < 60,
        0 <= secs % 60 < 60,
        (secs / 3600 == 0) == (secs < 3600),
{
}

proof fn lemma_clock_text(secs: int, h: int, m: int, s: int)
    requires
        h == secs / 3600,
        m == secs % 3600 / 60,
        s == secs % 60,
        (h == 0) == (secs < 3600),
        two_digits(h) == padded(h),
        two_digits(m) == padded(m),
        two_digits(s) == padded(s),
    ensures
        clock_text(secs) == shown_time(h, m, s),
{
    reveal_strlit(":");
    let colon = seq![':'];
    assert(":"@ == colon);
    let rest = padded(m) + colon + padded(s);
    if h != 0 {
        assert(padded(h) + colon + rest == padded(h) + colon + padded(m) + colon + padded(s));
    }
}

/// A number with a zero before a single digit.
pub open spec fn padded(n: int) -> Seq<char> {
    if int_text(n).len() == 1 {
        seq!['0'] + int_text(n)
    } else {
        int_text(n)
    }
}

/// Hours, minutes and seconds with colons between them; no hours are not shown.
pub open spec fn shown_time(h: int, m: int, s: int) -> Seq<char> {
    if h == 0 {
        padded(m) + seq![':'] + padded(s)
    } else {
        padded(h) + seq![':'] + padded(m) + seq![':'] + padded(s)
    }
}

proof fn lemma_padded(n: int)
    requires
        0 <= n,
    ensures
        two_digits(n) == padded(n),
{
    reveal_strlit("0");
    if n >= 10 {
        crate::number::lemma_nat_text((n as nat) / 10);
        assert(int_text(n) == crate::number::nat_text((n as nat) / 10).push(
            crate::number::digit_char(((n as nat) % 10) as int),
        ));
    }
}

/// A text that is not too long is shown whole; of a longer one the beginning is, with dots.
pub proof fn law_long_texts_are_cut(s: Seq<char>, max: int)
    requires
        0 <= max,
    ensures
        s.len() <= max ==> shortened(s, max) == s,
        s.len() > max ==> shortened(s, max) == s.subrange(0, max) + seq!['.', '.', '.'],
{
    reveal_strlit("...");
    if s.len() > max {
        assert(s.take(max) == s.subrange(0, max));
    }
}

/// The progress is shown as the percentage that it is.
pub proof fn law_progress_is_shown(p: i64)
    requires
        0 <= p <= 100,
    ensures
        progress_text(Some(p)) == " pct:"@ + int_text(p as int) + "%"@,
        progress_text(None).len() == 0,
{
}

/// The line of a running command shows its process, its time, the command, the counts, the
/// progress where it is known, and the last error; each number is the one that was counted.
pub proof fn law_running_line(c: LineCounts, turns: int, pid: int, command: Seq<char>, secs: int)
    ensures
        exists|spinner: char|
            running_text(c, turns, pid, command, secs) == #[trigger] seq![spinner] + " RUNNING pid:"@ + int_text(pid)
                + " t:"@ + clock_text(secs) + " cmd:"@ + shortened(command, 36) + " lines:"@ + int_text(c.lines)
                + " warn:"@ + int_text(c.warning) + " err:"@ + int_text(c.error) + progress_text(c.progress)
                + " last:"@ + error_text(c.last_error),
        c.last_error.len() == 0 ==> error_text(c.last_error) == seq!['-'],
        c.last_error.len() > 0 ==> error_text(c.last_error) == shortened(c.last_error, 48),
        crate::render::spinner_at(turns + 4) == crate::render::spinner_at(turns),
{
    reveal_strlit("-");
    let spinner = crate::render::spinner_at(turns);
    assert("-"@ == seq!['-']);
    assert(running_text(c, turns, pid, command, secs) == seq![spinner] + " RUNNING pid:"@ + int_text(pid) + " t:"@
        + clock_text(secs) + " cmd:"@ + shortened(command, 36) + " lines:"@ + int_text(c.lines) + " warn:"@
        + int_text(c.warning) + " err:"@ + int_text(c.error) + progress_text(c.progress) + " last:"@ + error_text(
        c.last_error,
    ));
}

/// The counts by level are shown under their names.
pub proof fn law_counts_are_shown(c: LineCounts)
    ensures
        stats_line_text(c) == "STATS lines="@ + int_text(c.lines) + " fatal="@ + int_text(c.fatal) + " error="@
            + int_text(c.error) + " warning="@ + int_text(c.warning) + " info="@ + int_text(c.info) + " trace="@
            + int_text(c.trace) + " unknown="@ + int_text(c.unknown),
{
}

/// A failed run shows its error lines behind the word for it, in their order and as many as
/// are allowed; one that succeeded shows how many warnings there were, where there were any.
pub proof fn law_result_is_shown(code: int, s: SummaryCounts, max: int)
    requires
        0 <= max,
    ensures
        code != 0 ==> result_text(code, Some(s), max)[0] == "FAILED"@,
        code != 0 && s.error_lines.len() <= max ==> result_text(code, Some(s), max).skip(1) == s.error_lines,
        code != 0 && s.error_lines.len() > max ==> result_text(code, Some(s), max).skip(1) == s.error_lines.subrange(
            0,
            max,
        ),
        code != 0 ==> result_text(code, None, max) == seq!["FAILED"@],
        code == 0 && s.warnings > 0 ==> result_text(code, Some(s), max) == seq![
            "SUCCESS ("@ + int_text(s.warnings) + " warnings)"@,
        ],
        code == 0 && s.warnings <= 0 ==> result_text(code, Some(s), max) == seq!["SUCCESS"@],
        code == 0 ==> result_text(code, None, max) == seq!["SUCCESS"@],
{
    let r = result_text(code, Some(s), max);
    if code != 0 {
        if s.error_lines.len() <= max {
            assert(r.skip(1) == s.error_lines);
        } else {
            assert(r.skip(1) == s.error_lines.subrange(0, max));
        }
    }
}

// ---------------------------------------------------------------------------
// Command lines

/// A word stands on a command line without quotes only where it is made of letters, digits and
/// `_ - . / : =`; any other is put between single quotes, and so is an empty one.
pub proof fn law_only_plain_words_are_bare(s: Seq<char>)
    ensures
        ({
            let bare = s.len() > 0 && forall|i: int|
                0 <= i < s.len() ==> {
                    let n = (#[trigger] s[i]) as int;
                    97 <= n <= 122 || 65 <= n <= 90 || 48 <= n <= 57 || n == 95 || n == 45 || n == 46 || n == 47 || n == 58
                        || n == 61
                };
            &&& bare ==> escaped(s) == s
            &&& !bare ==> escaped(s).len() >= 2 && escaped(s)[0] == '\'' && escaped(s).last() == '\''
        }),
{
    if forall|i: int|
        0 <= i < s.len() ==> {
            let n = (#[trigger] s[i]) as int;
            97 <= n <= 122 || 65 <= n <= 90 || 48 <= n <= 57 || n == 95 || n == 45 || n == 46 || n == 47 || n == 58 || n
                == 61
        } {
        assert forall|i: int| 0 <= i < s.len() implies is_plain(#[trigger] s[i]) by {
            let n = s[i] as int;
        }
    } else {
        let i = choose|i: int|
            0 <= i < s.len() && !({
                let n = (#[trigger] s[i]) as int;
                97 <= n <= 122 || 65 <= n <= 90 || 48 <= n <= 57 || n == 95 || n == 45 || n == 46 || n == 47 || n == 58
                    || n == 61
            });
        assert(!is_plain(s[i]));
    }
}

/// Between quotes every character stands as it is, but for a quote, which ends them, stands
/// escaped, and opens them again.
pub proof fn law_quoted_text(s: Seq<char>, c: char)
    ensures
        quoted_body(Seq::<char>::empty()) == Seq::<char>::empty(),
        c != '\'' ==> quoted_body(seq![c] + s) == seq![c] + quoted_body(s),
        c == '\'' ==> quoted_body(seq![c] + s) == seq!['\'', '\\', '\'', '\''] + quoted_body(s),
{
    let t = seq![c] + s;
    assert(t[0] == c);
    assert(t.skip(1) == s);
}

// ---------------------------------------------------------------------------
// Hashes

/// A digit leaves no trace in the hash of a line, and every other character counts.
pub proof fn law_only_digits_are_dropped(a: Seq<char>, c: char)
    ensures
        without_digits(Seq::<char>::empty()) == Seq::<char>::empty(),
        '0' <= c && c <= '9' ==> without_digits(a.push(c)) == without_digits(a),
        !('0' <= c && c <= '9') ==> without_digits(a.push(c)) == without_digits(a).push(c),
        hash_of_payload(a) == text_hash(without_digits(a)),
{
    reveal(Seq::filter);
    assert(a.push(c).drop_last() == a);
}

/// A hash is the MD5 digest of a text in hexadecimal: two digits for each byte, which give the
/// byte again.
pub proof fn law_hash_is_hexadecimal(s: Seq<char>, i: int)
    requires
        0 <= i < md5_digest(encode_utf8(s)).len(),
    ensures
        ({
            let bytes = md5_digest(encode_utf8(s));
            let h = text_hash(s);
            &&& h.len() == 2 * bytes.len()
            &&& hex_value(h[2 * i]) >= 0
            &&& hex_value(h[2 * i + 1]) >= 0
            &&& 16 * hex_value(h[2 * i]) + hex_value(h[2 * i + 1]) == bytes[i]
        }),
{
    let bytes = md5_digest(encode_utf8(s));
    lemma_hex_text(bytes);
    lemma_hex_at(bytes, i);
}

/// The value of a hexadecimal digit in lower case.
pub open spec fn hex_value(c: char) -> int {
    if '0' <= c && c <= '9' {
        c as int - 48
    } else if 'a' <= c && c <= 'f' {
        c as int - 87
    } else {
        -1
    }
}

proof fn lemma_hex_digit_value(n: int)
    requires
        0 <= n < 16,
    ensures
        hex_value(hex_digit(n)) == n,
{
    assert(hex_digit(n) as int == if n < 10 {
        48 + n
    } else {
        87 + n
    });
}

proof fn lemma_hex_at(bytes: Seq<u8>, i: int)
    requires
        0 <= i < bytes.len(),
    ensures
        hex_text(bytes).len() == 2 * bytes.len(),
        hex_value(hex_text(bytes)[2 * i]) >= 0,
        hex_value(hex_text(bytes)[2 * i + 1]) >= 0,
        16 * hex_value(hex_text(bytes)[2 * i]) + hex_value(hex_text(bytes)[2 * i + 1]) == bytes[i],
    decreases bytes.len(),
{
    let front = bytes.drop_last();
    lemma_hex_text(bytes);
    lemma_hex_text(front);
    if i < bytes.len() - 1 {
        lemma_hex_at(front, i);
        assert(hex_text(bytes)[2 * i] == hex_text(front)[2 * i]);
        assert(hex_text(bytes)[2 * i + 1] == hex_text(front)[2 * i + 1]);
    } else {
        let b = bytes.last() as int;
        lemma_hex_digit_value(b / 16);
        lemma_hex_digit_value(b % 16);
    }
}

/// The files of a run are named by the first eight digits of the hash of its command and by
/// its start.
pub proof fn law_run_is_named(command: Seq<char>, start: int)
    ensures
        run_name(command_prefix(command), start) == text_hash(command).subrange(0, 8) + seq!['-'] + int_text(start),
{
    reveal_strlit("-");
    assert(text_hash(command).take(8) == text_hash(command).subrange(0, 8));
}

// ---------------------------------------------------------------------------
// What a line does to a run

/// Before a tool is known, a line that shows one makes the run a compact one: nothing is passed
/// on or kept back any more, the tool is noted in the log, before the line, and its profile
/// applies from this line on. Any other line leaves all that as it is.
pub proof fn law_telling_line(ctx: CaptureContext, m: CaptureModel, kind: Seq<char>, line: Seq<char>)
    requires
        ctx.filter is None,
        ctx.guesses,
        m.choice is None,
    ensures
        ({
            let cleaned = normalized(line);
            let after = after_line(ctx, m, kind, line);
            let records = line_entries(ctx, m, kind, line);
            let tells = cleaned.len() > 0 && exists|k: int|
                0 <= k < ctx.names.len() && shows(ctx.tools[#[trigger] ctx.names[k]], cleaned);
            &&& tells ==> exists|k: int|
                {
                    &&& 0 <= k < ctx.names.len()
                    &&& shows(ctx.tools[#[trigger] ctx.names[k]], cleaned)
                    &&& forall|j: int| 0 <= j < k ==> !shows(ctx.tools[#[trigger] ctx.names[j]], cleaned)
                    &&& after.choice == Some(ctx.names[k])
                    &&& records == seq![
                        ('U', "FILTER"@, ctx.names[k]),
                        (level_of(cleaned, Some(&ctx.tools[ctx.names[k]])), kind, line),
                    ]
                }
            &&& tells ==> after.compact && !after.passthrough && !after.buffering && after.buffered.len() == 0
            &&& !tells ==> after.choice is None && after.compact == m.compact && after.passthrough == m.passthrough
                && after.buffering == m.buffering && after.buffered == m.buffered
            &&& !tells ==> records == seq![(level_of(cleaned, None), kind, line)]
        }),
{
    let cleaned = normalized(line);
    let found = found_tool(ctx, m, cleaned);
    let records = line_entries(ctx, m, kind, line);
    law_first_shown_tool_is_detected(ctx.names, ctx.tools, cleaned);
    match found {
        Some(tool) => {
            let k = choose|k: int|
                0 <= k < ctx.names.len() && #[trigger] ctx.names[k] == tool && shows(ctx.tools[tool], cleaned)
                    && forall|j: int| 0 <= j < k ==> !shows(ctx.tools[#[trigger] ctx.names[j]], cleaned);
            assert(shows(ctx.tools[ctx.names[k]], cleaned));
            assert(records == seq![
                ('U', "FILTER"@, ctx.names[k]),
                (level_of(cleaned, Some(&ctx.tools[ctx.names[k]])), kind, line),
            ]);
        },
        None => {
            assert(records == seq![(level_of(cleaned, None), kind, line)]);
        },
    }
}

/// With a profile, or with a tool that is known, a line never changes how output is shown nor
/// the tool, and it is the only thing logged of it.
pub proof fn law_settled_run_stays(ctx: CaptureContext, m: CaptureModel, kind: Seq<char>, line: Seq<char>)
    requires
        !ctx.guesses || m.choice is Some,
    ensures
        after_line(ctx, m, kind, line).choice == m.choice,
        after_line(ctx, m, kind, line).compact == m.compact,
        after_line(ctx, m, kind, line).passthrough == m.passthrough,
        after_line(ctx, m, kind, line).buffering == m.buffering,
        after_line(ctx, m, kind, line).buffered == m.buffered,
        after_line(ctx, m, kind, line).running == m.running,
        after_line(ctx, m, kind, line).had_output == m.had_output,
        line_entries(ctx, m, kind, line).len() == 1,
{
}

/// A run with a profile sums up each line by the patterns of that profile, and keeps the last
/// lines of it.
pub proof fn law_run_sums_up(ctx: CaptureContext, m: CaptureModel, kind: Seq<char>, line: Seq<char>, s: SummaryCounts)
    requires
        m.summary == Some(s),
    ensures
        ({
            let cleaned = normalized(line);
            let after = after_line(ctx, m, kind, line);
            let level = line_entries(ctx, m, kind, line).last().0;
            &&& after.tail == tail_after(m.tail, kind, cleaned, 5)
            &&& ctx.filter is Some ==> after.summary == Some(
                summarized(s, cleaned, level, Some(&(ctx.filter->0)), ctx.max_error_lines),
            )
            &&& ctx.filter is None && m.choice is Some ==> after.summary == Some(
                summarized(s, cleaned, level, Some(&ctx.tools[m.choice->0]), ctx.max_error_lines),
            )
            &&& ctx.filter is None && m.choice is None && !ctx.guesses ==> after.summary == Some(
                summarized(s, cleaned, level, None, ctx.max_error_lines),
            )
        }),
{
    assert(line_entries(ctx, m, kind, line).last() == (line_level(ctx, m, line), kind, line));
}

/// The progress of a run goes to where the line came in earlier runs, where that is further;
/// lines are known again by the hash of their text.
pub proof fn law_history_moves_the_progress(ctx: CaptureContext, m: CaptureModel, kind: Seq<char>, line: Seq<char>)
    ensures
        ({
            let after = after_line(ctx, m, kind, line).counts.progress;
            let h = text_hash(without_digits(json_text(line)));
            let known = ctx.history is Some && (ctx.history->0).contains_key(h);
            let p = (ctx.history->0)[h] as int;
            let at = if p < 0 {
                0
            } else if p > 100 {
                100
            } else {
                p
            };
            &&& !known ==> after == m.counts.progress
            &&& known && m.counts.progress is None ==> after is Some && after->0 == at
            &&& known && m.counts.progress is Some ==> after is Some && after->0 == if m.counts.progress->0 >= at {
                m.counts.progress->0 as int
            } else {
                at
            }
        }),
{
}

/// A piece of output is noted as such, whatever it holds; where output is kept back, it is kept
/// behind what was kept before.
pub proof fn law_piece_is_noted(m: CaptureModel, kind: Seq<char>, data: Seq<u8>)
    ensures
        with_chunk(m, kind, data).had_output,
        m.buffering && !m.passthrough ==> with_chunk(m, kind, data).buffered == m.buffered.push((kind, data)),
        m.passthrough || !m.buffering ==> with_chunk(m, kind, data).buffered == m.buffered,
        with_chunk(m, kind, data).counts == m.counts,
        with_chunk(m, kind, data).summary == m.summary,
        with_chunk(m, kind, data).tail == m.tail,
        with_chunk(m, kind, data).choice == m.choice,
        with_chunk(m, kind, data).compact == m.compact,
        with_chunk(m, kind, data).passthrough == m.passthrough,
        with_chunk(m, kind, data).buffering == m.buffering,
        with_chunk(m, kind, data).running == m.running,
{
}

/// The lines of a run are looked at one after the other.
pub proof fn law_lines_are_looked_at_in_turn(
    ctx: CaptureContext,
    m: CaptureModel,
    kind: Seq<char>,
    ls: Seq<Seq<char>>,
    line: Seq<char>,
)
    ensures
        after_lines(ctx, m, kind, ls.push(line)) == after_line(ctx, after_lines(ctx, m, kind, ls), kind, line),
        lines_entries(ctx, m, kind, ls.push(line)) == lines_entries(ctx, m, kind, ls) + line_entries(
            ctx,
            after_lines(ctx, m, kind, ls),
            kind,
            line,
        ),
        after_lines(ctx, m, kind, Seq::<Seq<char>>::empty()) == m,
{
    assert(ls.push(line).drop_last() == ls);
    assert(ls.push(line).last() == line);
}

/// A compact run passes nothing on and keeps nothing back; all else stays.
pub proof fn law_compact_run(m: CaptureModel)
    ensures
        ({
            let c = compacted(m);
            &&& c.compact && !c.passthrough && !c.buffering && c.buffered.len() == 0
            &&& c.counts == m.counts && c.summary == m.summary && c.tail == m.tail && c.choice == m.choice
            &&& c.running == m.running && c.had_output == m.had_output
        }),
{
}

// ---------------------------------------------------------------------------
// Before the start

/// A run is compact from the start where that was asked for or where its command has a profile.
/// Its output is passed on from the start where it is neither compact nor kept back.
pub proof fn law_run_starts(
    force: bool,
    tool: Option<Seq<char>>,
    compact: bool,
    adaptive: bool,
    sums_up: bool,
)
    ensures
        starts_compact(force, tool) == (force || tool is Some),
        ({
            let m = fresh_run(compact, adaptive, sums_up);
            &&& m.running && !m.had_output && m.choice is None && m.tail.len() == 0 && m.buffered.len() == 0
            &&& m.compact == compact && m.buffering == adaptive && m.passthrough == (!compact && !adaptive)
            &&& m.counts.lines == 0 && m.counts.error == 0 && m.counts.warning == 0 && m.counts.progress is None
            &&& m.counts.fatal == 0 && m.counts.info == 0 && m.counts.trace == 0 && m.counts.unknown == 0
            &&& m.counts.last_error.len() == 0
            &&& (m.summary is Some) == sums_up
            &&& sums_up ==> (m.summary->0).warnings == 0 && (m.summary->0).errors == 0 && (
            m.summary->0).error_lines.len() == 0
        }),
{
}

/// Long runs become compact unless the environment says one of four words, in any letter case
/// and with any white space around it.
pub proof fn law_environment_can_forbid(v: Seq<char>)
    ensures
        adaptive_allowed(None),
        adaptive_allowed(Some(v)) == !(lower(trim(v)) == seq!['0'] || lower(trim(v)) == seq![
            'f',
            'a',
            'l',
            's',
            'e',
        ] || lower(trim(v)) == seq!['n', 'o'] || lower(trim(v)) == seq!['o', 'f', 'f']),
{
    reveal_strlit("0");
    reveal_strlit("false");
    reveal_strlit("no");
    reveal_strlit("off");
    assert("0"@ == seq!['0']);
    assert("false"@ == seq!['f', 'a', 'l', 's', 'e']);
    assert("no"@ == seq!['n', 'o']);
    assert("off"@ == seq!['o', 'f', 'f']);
}

/// The run of a command goes by the profile of its program; only without one is the tool
/// guessed, where that is switched on and there is a tool to guess.
pub proof fn law_run_goes_by_its_profile(cfg: CtConfig, cmd: Seq<char>, history: Map<Seq<char>, i64>)
    ensures
        ({
            let ctx = run_context(cfg, cmd, history);
            let tools = cfg.filters.tools@;
            let tool = tool_for(tools, program_name(cmd));
            &&& tool is Some ==> ctx.filter == Some(tools[tool->0]) && !ctx.guesses
            &&& tool is None ==> ctx.filter is None
            &&& tool is None && cfg.heuristics.auto_detect_log_type && candidates_of(tools).len() > 0 ==> ctx.guesses
                && ctx.names == candidates_of(tools) && ctx.tools == tools
            &&& !cfg.heuristics.auto_detect_log_type ==> !ctx.guesses
            &&& ctx.max_error_lines == cfg.output.max_error_lines
            &&& history.dom().len() > 0 && history.dom().finite() ==> ctx.history == Some(history)
        }),
{
    if history == Map::<Seq<char>, i64>::empty() {
        assert(history.dom() == Set::<Seq<char>>::empty());
    }
}

/// A piece of output is noted, and then its lines are looked at.
pub proof fn law_piece_is_read(ctx: CaptureContext, m: CaptureModel, kind: Seq<char>, data: Seq<u8>)
    ensures
        after_chunk(ctx, m, kind, data) == after_lines(ctx, with_chunk(m, kind, data), kind, lines(lossy_text(data))),
{
}

/// What is said of records and of pieces of output is said of all of them, in their order.
pub proof fn law_records_and_pieces(rs: Seq<LogRequest>, cs: Seq<BufferedChunk>)
    ensures
        entries(rs).len() == rs.len(),
        forall|i: int|
            0 <= i < rs.len() ==> #[trigger] entries(rs)[i] == (rs[i].level, rs[i].kind@, rs[i].text@),
        pieces(cs).len() == cs.len(),
        forall|i: int| 0 <= i < cs.len() ==> #[trigger] pieces(cs)[i] == (cs[i].kind@, cs[i].data@),
{
}

/// Words on a command line are separated by single spaces.
pub proof fn law_words_are_spaced(args: Seq<Seq<char>>, last: Seq<char>)
    ensures
        args.len() > 0 ==> command_line(args.push(last)) == command_line(args) + seq![' '] + escaped(last),
        command_line(seq![last]) == escaped(last),
{
    reveal_strlit(" ");
    assert(" "@ == seq![' ']);
    let f = |a: Seq<char>| escaped(a);
    assert(args.push(last).map_values(f) == args.map_values(f).push(escaped(last)));
    assert(seq![last].map_values(f) == seq![escaped(last)]);
    if args.len() > 0 {
        lemma_spaced_push(args.map_values(f), escaped(last));
    }
}

/// A line is cleaned by taking out escape sequences, and then a time at its start and the white
/// space around it.
pub proof fn law_line_is_cleaned(line: Seq<char>)
    ensures
        normalized(line) == unstamped(regex_replaced(ansi_pattern(), line, Seq::empty())),
{
    reveal_strlit("");
    assert(""@ == Seq::<char>::empty());
}

/// Of a run in the background every line is logged as it came, under its stream; a blank one at
/// the level of traces, and any other at none.
pub proof fn law_background_lines_are_logged(kind: Seq<char>, text: Seq<char>)
    ensures
        plain_entries(kind, text).len() == lines(text).len(),
        forall|i: int|
            0 <= i < lines(text).len() ==> #[trigger] plain_entries(kind, text)[i] == (
                if normalized(lines(text)[i]).len() == 0 {
                    'T'
                } else {
                    'U'
                },
                kind,
                lines(text)[i],
            ),
{
}

} // verus!
