//! What the history of a command comes to: which runs and entries are kept, and what the
//! averages written for them are.
use crate::number::{i64_value, int_text, law_int_text_reads_back, lemma_int_text_word};
use crate::order::{last_n, lemma_last_n, lemma_listing, lemma_number_orders, num_leq, pair_leq};
use crate::stats::{average_time, clamp_percent, current_pairs, div_to_zero, duration_of, entries_value, entry_text, exec_header, file_history, file_percents, file_runs, hash_line, hash_text, hashes_kept, merged_model, pairs_at, pairs_kept, percent_count, percent_of, percent_sum, run_text, starts, stats_text, time_sum, StatsModel, HISTORY};
use crate::stats_laws::{hash_names, is_hash, law_percent_in_range, law_stats_read_back, lemma_entry_text, lemma_file_finite, lemma_hash_words, lemma_kept_runs, lemma_pairs_finite, lemma_run_lines, model_wf, percent_map};
use crate::strmap::{lemma_ascending_distinct, lemma_text_order, text_leq};
use crate::tally::{advanced, LineCounts};
use crate::text::{is_word, lines, starts_with, words};
use vstd::arithmetic::div_mod::{lemma_fundamental_div_mod, lemma_fundamental_div_mod_converse};
use vstd::prelude::*;

verus! {

// ---------------------------------------------------------------------------
// Averages

/// Whether `p` is the position, in whole percent, of something that came at `time` in a run
/// that took `duration`: 0 where it came at the start or before it, 100 where it came at the
/// end or after it, and else the share of the duration that had passed, rounded down.
pub open spec fn is_position(p: int, time: int, duration: int) -> bool {
    if time <= 0 {
        p == 0
    } else if time >= duration {
        p == 100
    } else {
        p * duration <= 100 * time && 100 * time < (p + 1) * duration
    }
}

/// The entries that have a position: those of a run with a positive duration.
pub open spec fn placed(runs: Seq<(i64, i64)>, es: Seq<(i64, i64)>) -> Seq<(i64, i64)> {
    es.filter(|e: (i64, i64)| exists|k: int| 0 <= k < runs.len() && (#[trigger] runs[k]).0 == e.0 && runs[k].1 > 0)
}

/// The sum of a list of numbers.
pub open spec fn total(ns: Seq<int>) -> int {
    ns.fold_left(0int, |a: int, n: int| a + n)
}

/// No two runs have the same start.
pub open spec fn apart(runs: Seq<(i64, i64)>) -> bool {
    forall|i: int, j: int| 0 <= i < j < runs.len() ==> (#[trigger] runs[i]).0 != (#[trigger] runs[j]).0
}

proof fn lemma_duration_of(runs: Seq<(i64, i64)>, k: int)
    requires
        apart(runs),
        0 <= k < runs.len(),
    ensures
        duration_of(runs, runs[k].0) == Some(runs[k].1),
    decreases runs.len(),
{
    let last = runs.len() - 1;
    assert(runs[last] == runs.last());
    if k < last {
        let front = runs.drop_last();
        assert forall|i: int, j: int| 0 <= i < j < front.len() implies (#[trigger] front[i]).0 != (#[trigger] front[j]).0 by {
            assert(runs[i].0 != runs[j].0);
        }
        assert(runs[k].0 != runs[last].0);
        lemma_duration_of(front, k);
        assert(front[k] == runs[k]);
    }
}

proof fn lemma_no_duration(runs: Seq<(i64, i64)>, t: i64)
    requires
        forall|k: int| 0 <= k < runs.len() ==> (#[trigger] runs[k]).0 != t,
    ensures
        duration_of(runs, t) is None,
    decreases runs.len(),
{
    if runs.len() > 0 {
        let front = runs.drop_last();
        assert(runs[runs.len() - 1].0 != t);
        assert forall|k: int| 0 <= k < front.len() implies (#[trigger] front[k]).0 != t by {
            assert(runs[k].0 != t);
        }
        lemma_no_duration(front, t);
    }
}

proof fn lemma_position(p: int, time: int, duration: int)
    requires
        duration > 0,
        is_position(p, time, duration),
    ensures
        p == clamp_percent(div_to_zero(time * 100, duration)),
{
    if time <= 0 {
        let q = (-(time * 100)) / duration;
        assert(q >= 0) by (nonlinear_arith)
            requires
                time <= 0,
                duration > 0,
                q == (-(time * 100)) / duration,
        ;
        if time == 0 {
            assert(0int / duration == 0) by (nonlinear_arith)
                requires
                    duration > 0,
            ;
        }
    } else if time >= duration {
        let q = (time * 100) / duration;
        assert(q >= 100) by (nonlinear_arith)
            requires
                time >= duration,
                duration > 0,
                q == (time * 100) / duration,
        ;
    } else {
        let r = 100 * time - p * duration;
        assert(0 <= r < duration) by (nonlinear_arith)
            requires
                p * duration <= 100 * time,
                100 * time < (p + 1) * duration,
                r == 100 * time - p * duration,
        ;
        lemma_fundamental_div_mod_converse(100 * time, duration, p, r);
        assert(0 <= p < 100) by (nonlinear_arith)
            requires
                p * duration <= 100 * time,
                100 * time < (p + 1) * duration,
                0 < time < duration,
        ;
    }
}

/// The positions of the entries sum up over the whole list.
proof fn lemma_percent_parts(runs: Seq<(i64, i64)>, es: Seq<(i64, i64)>, ps: Seq<int>)
    requires
        apart(runs),
        ps.len() == placed(runs, es).len(),
        forall|i: int, k: int|
            0 <= i < ps.len() && 0 <= k < runs.len() && (#[trigger] runs[k]).0 == placed(runs, es)[i].0
                ==> is_position(#[trigger] ps[i], placed(runs, es)[i].1 as int, runs[k].1 as int),
    ensures
        percent_sum(runs, es) == total(ps),
        percent_count(runs, es) == ps.len(),
    decreases es.len(),
{
    reveal(Seq::filter);
    let ok = |e: (i64, i64)| exists|k: int| 0 <= k < runs.len() && (#[trigger] runs[k]).0 == e.0 && runs[k].1 > 0;
    let add = |a: int, n: int| a + n;
    if es.len() > 0 {
        let front = es.drop_last();
        let e = es.last();
        let all = placed(runs, es);
        let pf = placed(runs, front);
        assert(pf == front.filter(ok));
        if ok(e) {
            assert(all == pf.push(e));
            let k = choose|k: int| 0 <= k < runs.len() && (#[trigger] runs[k]).0 == e.0 && runs[k].1 > 0;
            let qs = ps.drop_last();
            assert forall|i: int, j: int|
                0 <= i < qs.len() && 0 <= j < runs.len() && (#[trigger] runs[j]).0 == pf[i].0 implies is_position(
                #[trigger] qs[i],
                pf[i].1 as int,
                runs[j].1 as int,
            ) by {
                assert(all[i] == pf[i]);
                assert(is_position(ps[i], all[i].1 as int, runs[j].1 as int));
            }
            lemma_percent_parts(runs, front, qs);
            lemma_duration_of(runs, k);
            let n = ps.len() - 1;
            assert(all[n] == e);
            assert(is_position(ps[n], all[n].1 as int, runs[k].1 as int));
            lemma_position(ps[n], e.1 as int, runs[k].1 as int);
            assert(ps.last() == ps[n]);
            assert(total(ps) == total(qs) + ps.last());
        } else {
            assert(all == pf);
            lemma_percent_parts(runs, front, ps);
            if exists|k: int| 0 <= k < runs.len() && (#[trigger] runs[k]).0 == e.0 {
                let k = choose|k: int| 0 <= k < runs.len() && (#[trigger] runs[k]).0 == e.0;
                lemma_duration_of(runs, k);
                assert(runs[k].1 <= 0);
            } else {
                lemma_no_duration(runs, e.0);
            }
        }
    } else {
        assert(placed(runs, es).len() == 0);
    }
}

/// The percentage of a hash is the mean of the positions of all its entries, rounded down. An
/// entry of a run without a positive duration has no position; where none has one, the
/// percentage is 0.
pub proof fn law_percent_is_the_mean(runs: Seq<(i64, i64)>, es: Seq<(i64, i64)>, ps: Seq<int>)
    requires
        apart(runs),
        ps.len() == placed(runs, es).len(),
        forall|i: int, k: int|
            0 <= i < ps.len() && 0 <= k < runs.len() && (#[trigger] runs[k]).0 == placed(runs, es)[i].0
                ==> is_position(#[trigger] ps[i], placed(runs, es)[i].1 as int, runs[k].1 as int),
    ensures
        ps.len() > 0 ==> percent_of(runs, es) * ps.len() <= total(ps) < (percent_of(runs, es) + 1) * ps.len(),
        ps.len() == 0 ==> percent_of(runs, es) == 0,
{
    lemma_percent_parts(runs, es, ps);
    if ps.len() > 0 {
        let s = total(ps);
        let n = ps.len() as int;
        lemma_fundamental_div_mod(s, n);
        let q = s / n;
        assert(q * n <= s < (q + 1) * n) by (nonlinear_arith)
            requires
                s == n * q + s % n,
                0 <= s % n < n,
        ;
    }
}

/// The percentage that is written for a hash, and read from the file again, is that mean.
pub proof fn law_written_percent_is_the_mean(m: StatsModel, i: int, ps: Seq<int>)
    requires
        model_wf(m),
        0 <= i < m.hashes.len(),
        ps.len() == placed(m.runs, m.hashes[i].1).len(),
        forall|j: int, k: int|
            0 <= j < ps.len() && 0 <= k < m.runs.len() && (#[trigger] m.runs[k]).0 == placed(
                m.runs,
                m.hashes[i].1,
            )[j].0 ==> is_position(
                #[trigger] ps[j],
                placed(m.runs, m.hashes[i].1)[j].1 as int,
                m.runs[k].1 as int,
            ),
    ensures
        ({
            let read = file_percents(lines(stats_text(m)));
            let p = read[m.hashes[i].0] as int;
            &&& read.contains_key(m.hashes[i].0)
            &&& ps.len() > 0 ==> p * ps.len() <= total(ps) < (p + 1) * ps.len()
            &&& ps.len() == 0 ==> p == 0
        }),
{
    law_stats_read_back(m);
    assert(apart(m.runs)) by {
        assert forall|a: int, b: int| 0 <= a < b < m.runs.len() implies (#[trigger] m.runs[a]).0 != (#[trigger] m.runs[b]).0 by {
            assert(m.runs[a].0 < m.runs[b].0);
        }
    }
    lemma_ascending_distinct(hash_names(m.hashes));
    lemma_percent_map(m.runs, m.hashes, i);
    law_percent_in_range(m.runs, m.hashes[i].1);
    law_percent_is_the_mean(m.runs, m.hashes[i].1, ps);
}

proof fn lemma_percent_map(runs: Seq<(i64, i64)>, hashes: Seq<(Seq<char>, Seq<(i64, i64)>)>, i: int)
    requires
        0 <= i < hashes.len(),
        hash_names(hashes).no_duplicates(),
    ensures
        percent_map(runs, hashes).contains_key(hashes[i].0),
        percent_map(runs, hashes)[hashes[i].0] == percent_of(runs, hashes[i].1) as i64,
    decreases hashes.len(),
{
    let last = hashes.len() - 1;
    assert(hashes[last] == hashes.last());
    if i < last {
        let front = hashes.drop_last();
        let ns = hash_names(hashes);
        let nb = hash_names(front);
        assert(nb.no_duplicates()) by {
            assert forall|a: int, b: int| 0 <= a < nb.len() && 0 <= b < nb.len() && a != b implies nb[a] != nb[b] by {
                assert(ns[a] != ns[b]);
            }
        }
        lemma_percent_map(runs, front, i);
        assert(ns[i] != ns[last]);
        assert(front[i] == hashes[i]);
    }
}

/// The average time of a hash is the mean of the times of all its entries, rounded towards
/// zero.
pub proof fn law_average_is_the_mean(es: Seq<(i64, i64)>)
    requires
        es.len() > 0,
    ensures
        ({
            let sum = total(es.map_values(|e: (i64, i64)| e.1 as int));
            let n = es.len() as int;
            let avg = average_time(es);
            &&& sum >= 0 ==> avg * n <= sum < (avg + 1) * n
            &&& sum <= 0 ==> (avg - 1) * n < sum <= avg * n
        }),
{
    let sum = total(es.map_values(|e: (i64, i64)| e.1 as int));
    lemma_time_sum(es);
    let n = es.len() as int;
    let m = if sum >= 0 {
        sum
    } else {
        -sum
    };
    lemma_fundamental_div_mod(m, n);
    let q = m / n;
    assert(q * n <= m < (q + 1) * n) by (nonlinear_arith)
        requires
            m == n * q + m % n,
            0 <= m % n < n,
    ;
    if sum < 0 {
        assert((-q - 1) * n < sum <= (-q) * n) by (nonlinear_arith)
            requires
                q * n <= -sum < (q + 1) * n,
        ;
    }
    if sum == 0 {
        assert(q == 0) by (nonlinear_arith)
            requires
                q * n <= 0 < (q + 1) * n,
                n > 0,
        ;
        assert((q - 1) * n < 0 && 0 <= q * n) by (nonlinear_arith)
            requires
                q == 0,
                n > 0,
        ;
    }
}

proof fn lemma_time_sum(es: Seq<(i64, i64)>)
    ensures
        time_sum(es) == total(es.map_values(|e: (i64, i64)| e.1 as int)),
    decreases es.len(),
{
    let f = |e: (i64, i64)| e.1 as int;
    let ns = es.map_values(f);
    if es.len() > 0 {
        lemma_time_sum(es.drop_last());
        assert(ns.drop_last() == es.drop_last().map_values(f));
        assert(ns.last() == es.last().1);
        assert(total(ns) == total(ns.drop_last()) + ns.last());
    } else {
        assert(ns.len() == 0);
    }
}

// ---------------------------------------------------------------------------
// Reading a file

/// The runs of a file are those of its `EXEC` lines, the last one for each start.
pub proof fn law_last_exec_line_counts(ls: Seq<Seq<char>>, t: i64)
    ensures
        file_runs(ls).contains_key(t) == exists|i: int|
            0 <= i < ls.len() && exec_header(#[trigger] ls[i]) is Some && (exec_header(ls[i])->0).0 == t,
        forall|i: int|
            0 <= i < ls.len() && exec_header(#[trigger] ls[i]) is Some && (exec_header(ls[i])->0).0 == t && (forall|
                j: int,
            |
                i < j < ls.len() ==> !(exec_header(#[trigger] ls[j]) is Some && (exec_header(ls[j])->0).0 == t))
                ==> file_runs(ls)[t] == (exec_header(ls[i])->0).1,
{
    lemma_run_known(ls, t);
    assert forall|i: int|
        0 <= i < ls.len() && exec_header(#[trigger] ls[i]) is Some && (exec_header(ls[i])->0).0 == t && (forall|j: int|
            i < j < ls.len() ==> !(exec_header(#[trigger] ls[j]) is Some && (exec_header(ls[j])->0).0 == t)) implies file_runs(
        ls,
    )[t] == (exec_header(ls[i])->0).1 by {
        lemma_run_at(ls, t, i);
    }
}

proof fn lemma_run_known(ls: Seq<Seq<char>>, t: i64)
    ensures
        file_runs(ls).contains_key(t) == exists|i: int|
            0 <= i < ls.len() && exec_header(#[trigger] ls[i]) is Some && (exec_header(ls[i])->0).0 == t,
    decreases ls.len(),
{
    if ls.len() > 0 {
        let front = ls.drop_last();
        let last = ls.len() - 1;
        lemma_run_known(front, t);
        assert(ls[last] == ls.last());
        if file_runs(front).contains_key(t) {
            let i = choose|i: int|
                0 <= i < front.len() && exec_header(#[trigger] front[i]) is Some && (exec_header(front[i])->0).0 == t;
            assert(ls[i] == front[i]);
        }
        if exists|i: int| 0 <= i < ls.len() && exec_header(#[trigger] ls[i]) is Some && (exec_header(ls[i])->0).0 == t {
            let i = choose|i: int|
                0 <= i < ls.len() && exec_header(#[trigger] ls[i]) is Some && (exec_header(ls[i])->0).0 == t;
            if i < last {
                assert(front[i] == ls[i]);
            }
        }
    }
}

proof fn lemma_run_at(ls: Seq<Seq<char>>, t: i64, i: int)
    requires
        0 <= i < ls.len(),
        exec_header(ls[i]) is Some,
        (exec_header(ls[i])->0).0 == t,
        forall|j: int|
            i < j < ls.len() ==> !(exec_header(#[trigger] ls[j]) is Some && (exec_header(ls[j])->0).0 == t),
    ensures
        file_runs(ls)[t] == (exec_header(ls[i])->0).1,
    decreases ls.len(),
{
    let last = ls.len() - 1;
    assert(ls[last] == ls.last());
    if i < last {
        let front = ls.drop_last();
        assert forall|j: int| i < j < front.len() implies !(exec_header(#[trigger] front[j]) is Some
            && (exec_header(front[j])->0).0 == t) by {
            assert(front[j] == ls[j]);
        }
        assert(front[i] == ls[i]);
        lemma_run_at(front, t, i);
        assert(!(exec_header(ls[last]) is Some && (exec_header(ls[last])->0).0 == t));
    }
}

/// The entries of a hash are those of all its lines.
pub proof fn law_every_hash_line_counts(ls: Seq<Seq<char>>, h: Seq<char>, e: (i64, i64))
    ensures
        pairs_at(file_history(ls), h).contains(e) == exists|i: int|
            0 <= i < ls.len() && exec_header(#[trigger] ls[i]) is None && hash_line(ls[i]) is Some && (hash_line(
                ls[i],
            )->0).0 == h && (hash_line(ls[i])->0).1.contains(e),
    decreases ls.len(),
{
    if ls.len() > 0 {
        let front = ls.drop_last();
        let last = ls.len() - 1;
        law_every_hash_line_counts(front, h, e);
        assert(ls[last] == ls.last());
        if pairs_at(file_history(front), h).contains(e) {
            let i = choose|i: int|
                0 <= i < front.len() && exec_header(#[trigger] front[i]) is None && hash_line(front[i]) is Some
                    && (hash_line(front[i])->0).0 == h && (hash_line(front[i])->0).1.contains(e);
            assert(ls[i] == front[i]);
        }
        if exists|i: int|
            0 <= i < ls.len() && exec_header(#[trigger] ls[i]) is None && hash_line(ls[i]) is Some && (hash_line(
                ls[i],
            )->0).0 == h && (hash_line(ls[i])->0).1.contains(e) {
            let i = choose|i: int|
                0 <= i < ls.len() && exec_header(#[trigger] ls[i]) is None && hash_line(ls[i]) is Some && (hash_line(
                    ls[i],
                )->0).0 == h && (hash_line(ls[i])->0).1.contains(e);
            if i < last {
                assert(front[i] == ls[i]);
            } else {
                assert((hash_line(ls.last())->0).1.to_set().contains(e));
            }
        }
        if exec_header(ls.last()) is None && hash_line(ls.last()) is Some {
            let hl = hash_line(ls.last())->0;
            assert(hl.1.to_set().contains(e) == hl.1.contains(e));
        }
    }
}

/// An `EXEC` line gives the start and the duration of a run, whatever follows them, and is
/// written as such a line followed by its end.
pub proof fn law_exec_lines(t: i64, d: i64)
    ensures
        exec_header("EXEC "@ + int_text(t as int) + " "@ + int_text(d as int)) == Some((t, d)),
        lines(run_text((t, d))) == seq![
            "EXEC "@ + int_text(t as int) + " "@ + int_text(d as int),
            "EXEC-END"@,
        ],
        exec_header("EXEC-END"@) is None,
{
    lemma_run_lines((t, d));
}

/// Two numbers behind `EXEC` are a run, whatever stands behind them.
pub proof fn law_two_numbers_are_a_run(line: Seq<char>, t: i64, d: i64)
    requires
        starts_with(line, "EXEC "@),
        words(line.skip(5)).len() >= 2,
        i64_value(words(line.skip(5))[0]) == Some(t as int),
        i64_value(words(line.skip(5))[1]) == Some(d as int),
    ensures
        exec_header(line) == Some((t, d)),
{
}

/// A line without `EXEC` and two numbers is none.
pub proof fn law_other_lines_are_no_runs(line: Seq<char>)
    requires
        !starts_with(line, "EXEC "@) || words(line.skip(5)).len() < 2 || i64_value(words(line.skip(5))[0]) is None
            || i64_value(words(line.skip(5))[1]) is None,
    ensures
        exec_header(line) is None,
{
}

/// A hash line is written with its hash, the percentage, the average time, and every entry;
/// with or without the average time it gives the hash and every entry.
pub proof fn law_hash_lines(runs: Seq<(i64, i64)>, h: Seq<char>, es: Seq<(i64, i64)>, line: Seq<char>)
    requires
        is_hash(h),
        es.len() > 0,
    ensures
        lines(hash_text(runs, (h, es))).len() == 1,
        words(lines(hash_text(runs, (h, es)))[0]) == seq![
            h,
            int_text(percent_of(runs, es)),
            int_text(average_time(es)),
        ] + es.map_values(|e: (i64, i64)| int_text(e.0 as int) + ":"@ + int_text(e.1 as int)),
        forall|p: i64|
            words(line) == #[trigger] seq![h, int_text(p as int)] + es.map_values(
                |e: (i64, i64)| int_text(e.0 as int) + ":"@ + int_text(e.1 as int),
            ) ==> hash_line(line) == Some((h, es)),
        forall|p: i64, avg: i64|
            words(line) == seq![h, int_text(p as int), #[trigger] int_text(avg as int)] + es.map_values(
                |e: (i64, i64)| int_text(e.0 as int) + ":"@ + int_text(e.1 as int),
            ) && #[trigger] i64_value(int_text(p as int)) is Some ==> hash_line(line) == Some((h, es)),
{
    let raw = |e: (i64, i64)| int_text(e.0 as int) + ":"@ + int_text(e.1 as int);
    let own = |e: (i64, i64)| entry_text(e);
    let toks = es.map_values(raw);
    assert(toks == es.map_values(own));
    lemma_hash_words(runs, h, es);
    lemma_entries_read(es);
    assert forall|p: i64|
        words(line) == #[trigger] seq![h, int_text(p as int)] + es.map_values(raw) implies hash_line(line) == Some(
        (h, es),
    ) by {
        law_int_text_reads_back(p as int);
        assert(words(line).skip(2) == toks);
    }
    assert forall|p: i64, avg: i64|
        words(line) == seq![h, int_text(p as int), #[trigger] int_text(avg as int)] + es.map_values(raw)
            && #[trigger] i64_value(int_text(p as int)) is Some implies hash_line(line) == Some((h, es)) by {
        let a = int_text(avg as int);
        lemma_int_text_word(avg as int);
        assert(words(line).skip(2) == seq![a] + toks);
        assert(!a.contains(':')) by {
            if a.contains(':') {
                let j = choose|j: int| 0 <= j < a.len() && a[j] == ':';
                assert(a[j] == ':');
            }
        }
        lemma_skip_plain(a, toks);
    }
}

proof fn lemma_entries_read(es: Seq<(i64, i64)>)
    ensures
        entries_value(es.map_values(|e: (i64, i64)| entry_text(e))) == Some(es),
    decreases es.len(),
{
    let own = |e: (i64, i64)| entry_text(e);
    let toks = es.map_values(own);
    if es.len() > 0 {
        lemma_entries_read(es.drop_last());
        lemma_entry_text(es.last());
        assert(toks.drop_last() == es.drop_last().map_values(own));
        assert(toks.last() == entry_text(es.last()));
        assert(es.drop_last().push(es.last()) == es);
    } else {
        assert(es == Seq::<(i64, i64)>::empty());
    }
}

proof fn lemma_skip_plain(a: Seq<char>, toks: Seq<Seq<char>>)
    requires
        !a.contains(':'),
    ensures
        entries_value(seq![a] + toks) == entries_value(toks),
    decreases toks.len(),
{
    let all = seq![a] + toks;
    if toks.len() > 0 {
        lemma_skip_plain(a, toks.drop_last());
        assert(all.drop_last() == seq![a] + toks.drop_last());
        assert(all.last() == toks.last());
    } else {
        assert(all == seq![a]);
        assert(all.drop_last() == toks);
    }
}

/// The percentages of a file are those of its hash lines, brought into range, the last one
/// for each hash.
pub proof fn law_percents_are_read(ls: Seq<Seq<char>>, line: Seq<char>, h: Seq<char>, p: i64)
    requires
        is_word(h),
        words(line).len() >= 2,
        words(line)[0] == h,
        words(line)[1] == int_text(p as int),
        !starts_with(line, "EXEC "@),
        line != "EXEC-END"@,
    ensures
        file_percents(ls.push(line)).contains_key(h),
        file_percents(ls.push(line))[h] == if p < 0 {
            0
        } else if p > 100 {
            100
        } else {
            p as int
        },
        forall|other: Seq<char>|
            other != h ==> {
                &&& #[trigger] file_percents(ls.push(line)).contains_key(other) == file_percents(ls).contains_key(
                    other,
                )
                &&& file_percents(ls.push(line))[other] == file_percents(ls)[other]
            },
{
    law_int_text_reads_back(p as int);
    assert(ls.push(line).drop_last() == ls);
    assert(ls.push(line).last() == line);
}

/// No other line gives a percentage: not that of a run, not one with fewer than two words, and
/// not one whose second word is no number.
pub proof fn law_other_lines_give_no_percent(ls: Seq<Seq<char>>, line: Seq<char>)
    requires
        starts_with(line, "EXEC "@) || line == "EXEC-END"@ || words(line).len() < 2 || i64_value(words(line)[1]) is None,
    ensures
        file_percents(ls.push(line)) == file_percents(ls),
        file_percents(Seq::<Seq<char>>::empty()) == Map::<Seq<char>, i64>::empty(),
{
    assert(ls.push(line).drop_last() == ls);
    assert(ls.push(line).last() == line);
}

// ---------------------------------------------------------------------------
// What is kept

/// A merge keeps the runs of the file and the run at hand, or the ten newest of them where
/// there are more, from the oldest to the newest.
pub proof fn law_newest_runs_are_kept(
    existing: Seq<char>,
    exec_ts: i64,
    duration: i64,
    cur: Map<Seq<char>, Vec<(i64, i64)>>,
)
    ensures
        ({
            let m = merged_model(existing, exec_ts, duration, cur);
            let known = file_runs(lines(existing));
            &&& m.runs.len() <= 10
            &&& forall|i: int, j: int| 0 <= i < j < m.runs.len() ==> (#[trigger] m.runs[i]).0 < (#[trigger] m.runs[j]).0
            &&& forall|i: int|
                0 <= i < m.runs.len() ==> (#[trigger] m.runs[i]) == (exec_ts, duration) || (m.runs[i].0 != exec_ts
                    && known.contains_key(m.runs[i].0) && known[m.runs[i].0] == m.runs[i].1)
            &&& forall|t: i64|
                (t == exec_ts || #[trigger] known.contains_key(t)) && !(exists|i: int|
                    0 <= i < m.runs.len() && (#[trigger] m.runs[i]).0 == t) ==> m.runs.len() == 10 && t < m.runs[0].0
        }),
{
    let ls = lines(existing);
    let known = file_runs(ls);
    let rm = known.insert(exec_ts, duration);
    let m = merged_model(existing, exec_ts, duration, cur);
    lemma_file_finite(ls);
    lemma_kept_runs(rm);
    lemma_number_orders();
    lemma_listing(rm.dom(), num_leq());
    let ts = rm.dom().to_sorted_seq(num_leq());
    lemma_last_n(ts, HISTORY as int, num_leq());
    let lt = last_n(ts, HISTORY as int);
    let k = ts.len() - lt.len();
    assert(m.runs.map_values(|r: (i64, i64)| r.0) == lt);
    assert forall|t: i64|
        (t == exec_ts || #[trigger] known.contains_key(t)) && !(exists|i: int|
            0 <= i < m.runs.len() && (#[trigger] m.runs[i]).0 == t) implies m.runs.len() == 10 && t < m.runs[0].0 by {
        assert(rm.dom().contains(t));
        assert(ts.contains(t));
        let j = choose|j: int| 0 <= j < ts.len() && ts[j] == t;
        if j >= k {
            assert(lt[j - k] == t);
            assert(m.runs.map_values(|r: (i64, i64)| r.0)[j - k] == t);
            assert(m.runs[j - k].0 == t);
        }
        assert(ts.len() > HISTORY);
        assert(lt[0] == ts[k]);
        assert((num_leq())(ts[j], ts[k]));
        assert(ts[j] != ts[k]);
        assert(m.runs.map_values(|r: (i64, i64)| r.0)[0] == lt[0]);
    }
}

/// For each hash a merge keeps the entries, old and new, of the runs that it keeps, or the ten
/// newest of them where there are more, from the oldest to the newest. A hash without any is
/// left out.
pub proof fn law_newest_entries_are_kept(
    existing: Seq<char>,
    exec_ts: i64,
    duration: i64,
    cur: Map<Seq<char>, Vec<(i64, i64)>>,
    h: Seq<char>,
)
    requires
        cur.dom().finite(),
    ensures
        ({
            let m = merged_model(existing, exec_ts, duration, cur);
            let old = file_history(lines(existing));
            let mine = |e: (i64, i64)|
                (pairs_at(old, h).contains(e) || (cur.contains_key(h) && cur[h]@.contains(e))) && exists|k: int|
                    0 <= k < m.runs.len() && (#[trigger] m.runs[k]).0 == e.0;
            &&& (exists|i: int| 0 <= i < m.hashes.len() && (#[trigger] m.hashes[i]).0 == h) == (exists|e: (i64, i64)|
                #[trigger] mine(e))
            &&& forall|i: int|
                0 <= i < m.hashes.len() && (#[trigger] m.hashes[i]).0 == h ==> {
                    let es = m.hashes[i].1;
                    &&& 0 < es.len() <= 10
                    &&& forall|a: int, b: int|
                        0 <= a < b < es.len() ==> (#[trigger] es[a]).0 < (#[trigger] es[b]).0 || (es[a].0 == es[b].0
                            && es[a].1 < es[b].1)
                    &&& forall|a: int| 0 <= a < es.len() ==> mine(#[trigger] es[a])
                    &&& forall|e: (i64, i64)| #[trigger]
                        mine(e) && !es.contains(e) ==> es.len() == 10 && (e.0 < es[0].0 || (e.0 == es[0].0 && e.1
                            < es[0].1))
                }
        }),
{
    let ls = lines(existing);
    let old = file_history(ls);
    let m = merged_model(existing, exec_ts, duration, cur);
    let kept = starts(m.runs);
    let mine = |e: (i64, i64)|
        (pairs_at(old, h).contains(e) || (cur.contains_key(h) && cur[h]@.contains(e))) && exists|k: int|
            0 <= k < m.runs.len() && (#[trigger] m.runs[k]).0 == e.0;
    let s = pairs_kept(old, cur, kept, h);
    lemma_file_finite(ls);
    lemma_number_orders();
    lemma_text_order();
    let set = hashes_kept(old, cur, kept);
    assert(old.dom().union(cur.dom()).finite());
    assert(set.finite());
    lemma_listing(set, text_leq());
    let names = set.to_sorted_seq(text_leq());
    assert(pairs_at(old, h).finite());
    lemma_pairs_finite(old, cur, kept, h);
    lemma_listing(s, pair_leq());
    let all = s.to_sorted_seq(pair_leq());
    lemma_last_n(all, HISTORY as int, pair_leq());
    let es = last_n(all, HISTORY as int);
    let cut = all.len() - es.len();
    let ts = m.runs.map_values(|r: (i64, i64)| r.0);
    assert forall|e: (i64, i64)| #[trigger] mine(e) == s.contains(e) by {
        if kept.contains(e.0) {
            assert(ts.contains(e.0));
            let k = choose|k: int| 0 <= k < ts.len() && ts[k] == e.0;
            assert(m.runs[k].0 == e.0);
        }
        if exists|k: int| 0 <= k < m.runs.len() && (#[trigger] m.runs[k]).0 == e.0 {
            let k = choose|k: int| 0 <= k < m.runs.len() && (#[trigger] m.runs[k]).0 == e.0;
            assert(ts[k] == e.0);
            assert(ts.contains(e.0));
        }
        if cur.contains_key(h) {
            assert(current_pairs(cur, h).contains(e) == cur[h]@.contains(e));
        }
    }
    if exists|i: int| 0 <= i < m.hashes.len() && (#[trigger] m.hashes[i]).0 == h {
        let i = choose|i: int| 0 <= i < m.hashes.len() && (#[trigger] m.hashes[i]).0 == h;
        assert(names[i] == h);
        assert(names.contains(h));
        assert(set.contains(h));
        let e = choose|e: (i64, i64)| pairs_kept(old, cur, kept, h).contains(e);
        assert(mine(e));
    }
    if exists|e: (i64, i64)| #[trigger] mine(e) {
        let e = choose|e: (i64, i64)| #[trigger] mine(e);
        assert(s.contains(e));
        assert(old.contains_key(h) || cur.contains_key(h));
        assert(set.contains(h));
        assert(names.contains(h));
        let i = choose|i: int| 0 <= i < names.len() && names[i] == h;
        assert(m.hashes[i].0 == h);
    }
    assert forall|i: int| 0 <= i < m.hashes.len() && (#[trigger] m.hashes[i]).0 == h implies m.hashes[i].1 == es
        && es.len() > 0 by {
        assert(names[i] == h);
        assert(names.contains(h));
        assert(set.contains(h));
        let e = choose|e: (i64, i64)| pairs_kept(old, cur, kept, h).contains(e);
        assert(all.contains(e));
    }
    assert forall|a: int, b: int| 0 <= a < b < es.len() implies (#[trigger] es[a]).0 < (#[trigger] es[b]).0 || (es[a].0
        == es[b].0 && es[a].1 < es[b].1) by {
        assert((pair_leq())(es[a], es[b]));
        assert(es[a] != es[b]);
    }
    assert forall|a: int| 0 <= a < es.len() implies mine(#[trigger] es[a]) by {
        assert(es.contains(es[a]));
        assert(all.contains(es[a]));
        assert(s.contains(es[a]));
    }
    assert forall|e: (i64, i64)| #[trigger] mine(e) && !es.contains(e) implies es.len() == 10 && (e.0 < es[0].0 || (
    e.0 == es[0].0 && e.1 < es[0].1)) by {
        assert(s.contains(e));
        assert(all.contains(e));
        let j = choose|j: int| 0 <= j < all.len() && all[j] == e;
        if j >= cut {
            assert(es[j - cut] == e);
            assert(es.contains(e));
        }
        assert(all.len() > HISTORY);
        assert(es[0] == all[cut]);
        assert((pair_leq())(all[j], all[cut]));
        assert(all[j] != all[cut]);
    }
}

// ---------------------------------------------------------------------------
// Progress

/// The counts after lines that came at `ps` of earlier runs.
pub open spec fn advanced_all(c: LineCounts, ps: Seq<Option<i64>>) -> LineCounts
    decreases ps.len(),
{
    if ps.len() == 0 {
        c
    } else {
        advanced(advanced_all(c, ps.drop_last()), ps.last())
    }
}

/// The progress is the furthest position of any line so far: it is reached by one of them,
/// and no line is further. Without such a line it stays.
pub proof fn law_progress_is_the_furthest(c: LineCounts, ps: Seq<Option<i64>>)
    requires
        c.progress is None,
    ensures
        ({
            let progress = advanced_all(c, ps).progress;
            &&& (forall|i: int| 0 <= i < ps.len() ==> (#[trigger] ps[i]) is None) ==> progress is None
            &&& forall|i: int|
                0 <= i < ps.len() && (#[trigger] ps[i]) is Some ==> progress is Some && 0 <= progress->0 <= 100 && (
                progress->0 == 100 || ps[i]->0 <= progress->0)
            &&& progress is Some ==> exists|i: int|
                0 <= i < ps.len() && (#[trigger] ps[i]) is Some && (ps[i]->0 == progress->0 || (ps[i]->0 < 0
                    && progress->0 == 0) || (ps[i]->0 > 100 && progress->0 == 100))
        }),
    decreases ps.len(),
{
    if ps.len() > 0 {
        let front = ps.drop_last();
        let last = ps.len() - 1;
        law_progress_is_the_furthest(c, front);
        assert(ps[last] == ps.last());
        let before = advanced_all(c, front).progress;
        let progress = advanced_all(c, ps).progress;
        if forall|i: int| 0 <= i < ps.len() ==> (#[trigger] ps[i]) is None {
            assert forall|i: int| 0 <= i < front.len() implies (#[trigger] front[i]) is None by {
                assert(ps[i] is None);
            }
        }
        assert forall|i: int| 0 <= i < ps.len() && (#[trigger] ps[i]) is Some implies progress is Some && 0 <= progress->0
            <= 100 && (progress->0 == 100 || ps[i]->0 <= progress->0) by {
            if i < last {
                assert(front[i] == ps[i]);
            }
            if before is Some {
                let j = choose|j: int| 0 <= j < front.len() && (#[trigger] front[j]) is Some;
            }
        }
        if progress is Some {
            if before is Some && progress == before {
                let i = choose|i: int|
                    0 <= i < front.len() && (#[trigger] front[i]) is Some && (front[i]->0 == before->0 || (front[i]->0
                        < 0 && before->0 == 0) || (front[i]->0 > 100 && before->0 == 100));
                assert(ps[i] == front[i]);
            } else {
                assert(ps[last] is Some);
            }
        }
    }
}

// ---------------------------------------------------------------------------
// What a file looks like, and what is no part of it

/// A stats file holds the lines of its runs, one after the other, and then those of its hashes.
pub proof fn law_layout_of_a_file(
    runs: Seq<(i64, i64)>,
    run: (i64, i64),
    hashes: Seq<(Seq<char>, Seq<(i64, i64)>)>,
    h: (Seq<char>, Seq<(i64, i64)>),
)
    ensures
        ({
            let none = Seq::<(Seq<char>, Seq<(i64, i64)>)>::empty();
            &&& stats_text(StatsModel { runs: Seq::empty(), hashes: none }) == Seq::<char>::empty()
            &&& stats_text(StatsModel { runs: runs.push(run), hashes: none }) == stats_text(
                StatsModel { runs, hashes: none },
            ) + run_text(run)
            &&& stats_text(StatsModel { runs, hashes: hashes.push(h) }) == stats_text(StatsModel { runs, hashes })
                + hash_text(runs, h)
        }),
{
    let none = Seq::<(Seq<char>, Seq<(i64, i64)>)>::empty();
    assert(runs.push(run).drop_last() == runs);
    assert(hashes.push(h).drop_last() == hashes);
    let empty = Seq::<char>::empty();
    assert(crate::stats::runs_text(Seq::empty()) == empty);
    assert(crate::stats::hashes_text(Seq::empty(), none) == empty);
    assert(crate::stats::hashes_text(runs, none) == empty);
    assert(crate::stats::hashes_text(runs.push(run), none) == empty);
    assert(empty + empty == empty);
    let r = crate::stats::runs_text(runs);
    assert(r + empty == r);
    assert(r + run_text(run) + empty == r + run_text(run));
    let hs = crate::stats::hashes_text(runs, hashes);
    assert(r + (hs + hash_text(runs, h)) == r + hs + hash_text(runs, h));
}

/// A line is no hash line where it has fewer than two words, where the second is no number,
/// where one with a colon is no pair of numbers, or where none has a colon.
pub proof fn law_broken_hash_lines(line: Seq<char>, k: int)
    requires
        words(line).len() < 2 || i64_value(words(line)[1]) is None || (2 <= k < words(line).len() && (exists|
            a: Seq<char>,
            b: Seq<char>,
        |
            !a.contains(':') && !b.contains(':') && words(line)[k] == #[trigger] (a + seq![':'] + b) && (i64_value(a) is None
                || i64_value(b) is None))) || (forall|j: int| 2 <= j < words(line).len() ==> !(#[trigger] words(
            line,
        )[j]).contains(':')),
    ensures
        hash_line(line) is None,
{
    let w = words(line);
    if w.len() >= 2 && i64_value(w[1]) is Some {
        let toks = w.skip(2);
        if 2 <= k < w.len() && (exists|a: Seq<char>, b: Seq<char>|
            !a.contains(':') && !b.contains(':') && w[k] == #[trigger] (a + seq![':'] + b) && (i64_value(a) is None
                || i64_value(b) is None)) {
            let (a, b) = choose|a: Seq<char>, b: Seq<char>|
                !a.contains(':') && !b.contains(':') && w[k] == #[trigger] (a + seq![':'] + b) && (i64_value(a) is None
                    || i64_value(b) is None);
            crate::text_laws::law_split(a, ':', b);
            crate::text_laws::law_split(b, ':', b);
            let t = a + seq![':'] + b;
            assert(crate::text::split_char(t, ':') == seq![a, b]);
            assert(t[a.len() as int] == ':');
            assert(toks[k - 2] == t);
            lemma_broken_entry(toks, k - 2);
        } else {
            assert forall|j: int| 0 <= j < toks.len() implies !(#[trigger] toks[j]).contains(':') by {
                assert(toks[j] == w[j + 2]);
            }
            lemma_no_entries(toks);
        }
    }
}

proof fn lemma_broken_entry(toks: Seq<Seq<char>>, k: int)
    requires
        0 <= k < toks.len(),
        toks[k].contains(':'),
        crate::stats::entry_value(toks[k]) is None,
    ensures
        entries_value(toks) is None,
    decreases toks.len(),
{
    if k < toks.len() - 1 {
        lemma_broken_entry(toks.drop_last(), k);
    }
}

proof fn lemma_no_entries(toks: Seq<Seq<char>>)
    requires
        forall|j: int| 0 <= j < toks.len() ==> !(#[trigger] toks[j]).contains(':'),
    ensures
        entries_value(toks) == Some(Seq::<(i64, i64)>::empty()),
    decreases toks.len(),
{
    if toks.len() > 0 {
        let t = toks.drop_last();
        assert forall|j: int| 0 <= j < t.len() implies !(#[trigger] t[j]).contains(':') by {
            assert(t[j] == toks[j]);
        }
        lemma_no_entries(t);
        assert(!toks[toks.len() - 1].contains(':'));
    }
}

} // verus!
