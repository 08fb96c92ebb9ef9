//! What holds of stats files as a whole: what is written reads back, merging a run twice
//! is merging it once, and a file never grows beyond its limits.
use crate::number::{int_text, law_int_text_reads_back, lemma_int_text_word};
use crate::order::{last_n, lemma_last_n, lemma_last_n_between, lemma_listing, lemma_listing_is, lemma_number_orders, num_leq, pair_leq};
use crate::stats::{average_time, current_pairs, entries_text, entries_value, entry_list, entry_text, entry_value, exec_header, file_history, file_percents, file_runs, hash_line, hash_text, hashes_kept, merged_model, pairs_at, pairs_kept, percent_count, percent_line, percent_of, percent_sum, run_list, run_text, runs_text, starts, stats_text, StatsModel, HISTORY};
use crate::strmap::{ascending, lemma_ascending_distinct, lemma_text_order, text_leq};
use crate::text::{is_space, is_word, lemma_lines_concat, lemma_lines_first, lemma_one_line, lemma_split_char_first, lemma_split_char_none, lemma_unbroken_concat, lemma_unbroken_word, lemma_words_are_words, lemma_words_of_word, lemma_words_push, lines, split_char, starts_with, unbroken, words};
use vstd::prelude::*;
use vstd::relations::sorted_by;

verus! {

/// A hash that can stand at the start of a line and be read back.
pub open spec fn is_hash(h: Seq<char>) -> bool {
    is_word(h) && h != "EXEC"@
}

/// A model that a stats file can hold: runs and hashes in ascending order, and at least
/// one entry for each hash.
pub open spec fn model_wf(m: StatsModel) -> bool {
    &&& forall|i: int, j: int| 0 <= i < j < m.runs.len() ==> (#[trigger] m.runs[i]).0 < (#[trigger] m.runs[j]).0
    &&& ascending(m.hashes.map_values(|h: (Seq<char>, Seq<(i64, i64)>)| h.0))
    &&& forall|i: int| 0 <= i < m.hashes.len() ==> is_hash((#[trigger] m.hashes[i]).0) && m.hashes[i].1.len() > 0
}

// ---------------------------------------------------------------------------
// Lines read back

/// The `EXEC` line of a run.
pub open spec fn run_line(run: (i64, i64)) -> Seq<char> {
    "EXEC "@ + int_text(run.0 as int) + " "@ + int_text(run.1 as int)
}

/// The two lines of a run.
pub proof fn lemma_run_lines(run: (i64, i64))
    ensures
        lines(run_text(run)) == seq![run_line(run), "EXEC-END"@],
        run_text(run).last() == '\n',
        exec_header(run_line(run)) == Some(run),
        percent_line(run_line(run)) is None,
        exec_header("EXEC-END"@) is None,
        hash_line("EXEC-END"@) is None,
        percent_line("EXEC-END"@) is None,
{
    reveal_strlit("EXEC ");
    reveal_strlit("EXEC-END");
    reveal_strlit("\nEXEC-END\n");
    reveal_strlit(" ");
    let a = int_text(run.0 as int);
    let b = int_text(run.1 as int);
    lemma_int_text_word(run.0 as int);
    lemma_int_text_word(run.1 as int);
    law_int_text_reads_back(run.0 as int);
    law_int_text_reads_back(run.1 as int);
    let l = run_line(run);
    lemma_unbroken_word(a);
    lemma_unbroken_word(b);
    lemma_unbroken_concat("EXEC "@, a);
    lemma_unbroken_concat("EXEC "@ + a, " "@);
    lemma_unbroken_concat("EXEC "@ + a + " "@, b);
    assert("\nEXEC-END\n"@ == seq!['\n'] + ("EXEC-END"@ + seq!['\n']));
    assert(run_text(run) == l + seq!['\n'] + ("EXEC-END"@ + seq!['\n']));
    lemma_lines_first(l, "EXEC-END"@ + seq!['\n']);
    lemma_one_line("EXEC-END"@);
    assert(seq![l] + seq!["EXEC-END"@] == seq![l, "EXEC-END"@]);
    assert(starts_with(l, "EXEC "@)) by {
        assert(l.take(5) == "EXEC "@);
    }
    assert(l.skip(5) == a + seq![' '] + b);
    lemma_words_of_word(a);
    lemma_words_push(a, b);
    assert(words(l.skip(5)) == seq![a, b]);
    assert(is_word("EXEC-END"@));
    lemma_words_of_word("EXEC-END"@);
    assert(!starts_with("EXEC-END"@, "EXEC "@)) by {
        assert("EXEC-END"@.take(5)[4] == '-');
        assert("EXEC "@[4] == ' ');
    }
}

/// An entry reads back.
pub proof fn lemma_entry_text(e: (i64, i64))
    ensures
        is_word(entry_text(e)),
        entry_text(e).contains(':'),
        entry_value(entry_text(e)) == Some(e),
{
    reveal_strlit(":");
    let a = int_text(e.0 as int);
    let b = int_text(e.1 as int);
    lemma_int_text_word(e.0 as int);
    lemma_int_text_word(e.1 as int);
    law_int_text_reads_back(e.0 as int);
    law_int_text_reads_back(e.1 as int);
    let t = entry_text(e);
    assert(t == a + seq![':'] + b);
    assert(t[a.len() as int] == ':');
    assert forall|j: int| 0 <= j < t.len() implies !is_space(#[trigger] t[j]) by {
        if j < a.len() {
            assert(t[j] == a[j]);
        } else if j > a.len() {
            assert(t[j] == b[j - a.len() - 1]);
        }
    }
    lemma_split_char_first(a, b, ':');
    lemma_split_char_none(b, ':');
    assert(split_char(t, ':') == seq![a, b]);
}

/// The words of a line grow by one for each entry.
proof fn lemma_entries_words(head: Seq<char>, es: Seq<(i64, i64)>)
    requires
        unbroken(head),
    ensures
        words(head + entries_text(es)) == words(head) + es.map_values(|e: (i64, i64)| entry_text(e)),
        unbroken(head + entries_text(es)),
    decreases es.len(),
{
    let toks = es.map_values(|e: (i64, i64)| entry_text(e));
    if es.len() == 0 {
        assert(head + entries_text(es) == head);
        assert(words(head) + toks == words(head));
    } else {
        reveal_strlit(" ");
        let before = es.drop_last();
        let w = entry_text(es.last());
        lemma_entries_words(head, before);
        lemma_entry_text(es.last());
        lemma_unbroken_word(w);
        let s = head + entries_text(before);
        lemma_words_push(s, w);
        assert(head + entries_text(es) == s + seq![' '] + w);
        lemma_unbroken_concat(s, seq![' ']);
        lemma_unbroken_concat(s + seq![' '], w);
        assert(toks == before.map_values(|e: (i64, i64)| entry_text(e)).push(w));
        assert(words(head) + toks == (words(head) + before.map_values(
            |e: (i64, i64)| entry_text(e),
        )).push(w));
    }
}

/// A word without a colon is passed over, and the entries read back.
proof fn lemma_entries_value(avg: Seq<char>, es: Seq<(i64, i64)>)
    requires
        !avg.contains(':'),
    ensures
        entries_value(seq![avg] + es.map_values(|e: (i64, i64)| entry_text(e))) == Some(es),
    decreases es.len(),
{
    let toks = seq![avg] + es.map_values(|e: (i64, i64)| entry_text(e));
    if es.len() == 0 {
        assert(toks == seq![avg]);
        assert(toks.drop_last() == Seq::<Seq<char>>::empty());
        assert(entries_value(toks.drop_last()) == Some(Seq::<(i64, i64)>::empty()));
        assert(es == Seq::<(i64, i64)>::empty());
    } else {
        let before = es.drop_last();
        lemma_entries_value(avg, before);
        lemma_entry_text(es.last());
        assert(toks.drop_last() == seq![avg] + before.map_values(|e: (i64, i64)| entry_text(e)));
        assert(toks.last() == entry_text(es.last()));
        assert(before.push(es.last()) == es);
    }
}

/// The average position is a percentage.
pub proof fn law_percent_in_range(runs: Seq<(i64, i64)>, es: Seq<(i64, i64)>)
    ensures
        0 <= percent_of(runs, es) <= 100,
{
    lemma_percent_sum(runs, es);
    let s = percent_sum(runs, es);
    let n = percent_count(runs, es);
    if n > 0 {
        assert(0 <= s / n <= 100) by (nonlinear_arith)
            requires
                0 <= s <= 100 * n,
                n > 0,
        ;
    }
}

proof fn lemma_percent_sum(runs: Seq<(i64, i64)>, es: Seq<(i64, i64)>)
    ensures
        0 <= percent_sum(runs, es) <= 100 * percent_count(runs, es),
    decreases es.len(),
{
    if es.len() > 0 {
        lemma_percent_sum(runs, es.drop_last());
    }
}

/// The line of a hash, without its end.
spec fn hash_row(runs: Seq<(i64, i64)>, h: Seq<char>, es: Seq<(i64, i64)>) -> Seq<char> {
    h + " "@ + int_text(percent_of(runs, es)) + " "@ + int_text(average_time(es)) + entries_text(es)
}

proof fn lemma_hash_line(runs: Seq<(i64, i64)>, h: Seq<char>, es: Seq<(i64, i64)>)
    requires
        is_hash(h),
        es.len() > 0,
    ensures
        lines(hash_text(runs, (h, es))) == seq![hash_row(runs, h, es)],
        hash_text(runs, (h, es)).last() == '\n',
        exec_header(hash_row(runs, h, es)) is None,
        hash_line(hash_row(runs, h, es)) == Some((h, es)),
        percent_line(hash_row(runs, h, es)) == Some((h, percent_of(runs, es) as i64)),
{
    reveal_strlit(" ");
    reveal_strlit("\n");
    reveal_strlit("EXEC");
    reveal_strlit("EXEC ");
    reveal_strlit("EXEC-END");
    let p = int_text(percent_of(runs, es));
    let a = int_text(average_time(es));
    let l = hash_row(runs, h, es);
    lemma_int_text_word(percent_of(runs, es));
    lemma_int_text_word(average_time(es));
    law_percent_in_range(runs, es);
    law_int_text_reads_back(percent_of(runs, es));
    lemma_unbroken_word(h);
    lemma_unbroken_word(p);
    lemma_unbroken_word(a);
    let h1 = h + seq![' '] + p;
    let h2 = h1 + seq![' '] + a;
    lemma_unbroken_concat(h, seq![' ']);
    lemma_unbroken_concat(h + seq![' '], p);
    lemma_unbroken_concat(h1, seq![' ']);
    lemma_unbroken_concat(h1 + seq![' '], a);
    lemma_words_of_word(h);
    lemma_words_push(h, p);
    lemma_words_push(h1, a);
    lemma_entries_words(h2, es);
    assert(l == h2 + entries_text(es));
    let toks = es.map_values(|e: (i64, i64)| entry_text(e));
    assert(words(h1) == seq![h, p]);
    assert(words(h2) == seq![h, p, a]);
    assert(words(l) == seq![h, p, a] + toks);
    assert(words(l).skip(2) == seq![a] + toks);
    assert(!a.contains(':')) by {
        if a.contains(':') {
            let j = choose|j: int| 0 <= j < a.len() && a[j] == ':';
            assert(a[j] == ':');
        }
    }
    lemma_entries_value(a, es);
    lemma_one_line(l);
    assert(hash_text(runs, (h, es)) == l + seq!['\n']);
    assert(!starts_with(l, "EXEC "@)) by {
        if starts_with(l, "EXEC "@) {
            let q = l.take(5);
            assert(q == "EXEC "@);
            if h.len() >= 5 {
                assert(q[4] == h[4]);
                assert(!is_space(h[4]));
            } else if h.len() == 4 {
                assert forall|j: int| 0 <= j < 4 implies h[j] == "EXEC"@[j] by {
                    assert(q[j] == h[j]);
                }
                assert(h == "EXEC"@);
            } else {
                assert(q[h.len() as int] == l[h.len() as int]);
                assert(l[h.len() as int] == ' ');
                assert("EXEC "@[h.len() as int] != ' ');
            }
        }
    }
    assert(l != "EXEC-END"@) by {
        assert(is_word("EXEC-END"@));
        lemma_words_of_word("EXEC-END"@);
        assert(words(l).len() >= 3);
    }
}

/// The words of the line of a hash.
pub proof fn lemma_hash_words(runs: Seq<(i64, i64)>, h: Seq<char>, es: Seq<(i64, i64)>)
    requires
        is_hash(h),
        es.len() > 0,
    ensures
        lines(hash_text(runs, (h, es))).len() == 1,
        words(lines(hash_text(runs, (h, es)))[0]) == seq![
            h,
            int_text(percent_of(runs, es)),
            int_text(average_time(es)),
        ] + es.map_values(|e: (i64, i64)| entry_text(e)),
{
    reveal_strlit(" ");
    let p = int_text(percent_of(runs, es));
    let a = int_text(average_time(es));
    lemma_hash_line(runs, h, es);
    lemma_int_text_word(percent_of(runs, es));
    lemma_int_text_word(average_time(es));
    lemma_unbroken_word(h);
    lemma_unbroken_word(p);
    lemma_unbroken_word(a);
    let h1 = h + seq![' '] + p;
    let h2 = h1 + seq![' '] + a;
    lemma_unbroken_concat(h, seq![' ']);
    lemma_unbroken_concat(h + seq![' '], p);
    lemma_unbroken_concat(h1, seq![' ']);
    lemma_unbroken_concat(h1 + seq![' '], a);
    lemma_words_of_word(h);
    lemma_words_push(h, p);
    lemma_words_push(h1, a);
    lemma_entries_words(h2, es);
    assert(hash_row(runs, h, es) == h2 + entries_text(es));
    assert(words(h2) == seq![h, p, a]);
}

// ---------------------------------------------------------------------------
// Files read back

/// The runs as a map.
pub open spec fn run_map(runs: Seq<(i64, i64)>) -> Map<i64, i64>
    decreases runs.len(),
{
    if runs.len() == 0 {
        Map::empty()
    } else {
        run_map(runs.drop_last()).insert(runs.last().0, runs.last().1)
    }
}

proof fn lemma_runs_text(runs: Seq<(i64, i64)>)
    ensures
        runs_text(runs).len() == 0 || runs_text(runs).last() == '\n',
        file_runs(lines(runs_text(runs))) == run_map(runs),
        file_history(lines(runs_text(runs))) == Map::<Seq<char>, Set<(i64, i64)>>::empty(),
        file_percents(lines(runs_text(runs))) == Map::<Seq<char>, i64>::empty(),
    decreases runs.len(),
{
    if runs.len() == 0 {
        assert(lines(runs_text(runs)) == Seq::<Seq<char>>::empty());
    } else {
        let before = runs_text(runs.drop_last());
        let t = run_text(runs.last());
        lemma_runs_text(runs.drop_last());
        lemma_run_lines(runs.last());
        lemma_lines_concat(before, t);
        let l0 = lines(before);
        let l1 = l0.push(run_line(runs.last()));
        let l2 = l1.push("EXEC-END"@);
        assert(lines(runs_text(runs)) == l2);
        assert(l2.drop_last() == l1);
        assert(l1.drop_last() == l0);
        assert(file_runs(l1) == file_runs(l0).insert(runs.last().0, runs.last().1));
        assert(file_history(l1) == file_history(l0));
        assert(file_percents(l1) == file_percents(l0));
        assert(runs_text(runs).last() == t.last());
    }
}

/// The names of the hashes.
pub open spec fn hash_names(hashes: Seq<(Seq<char>, Seq<(i64, i64)>)>) -> Seq<Seq<char>> {
    hashes.map_values(|h: (Seq<char>, Seq<(i64, i64)>)| h.0)
}

/// The entries of each hash as a set.
pub open spec fn history_map(hashes: Seq<(Seq<char>, Seq<(i64, i64)>)>) -> Map<Seq<char>, Set<(i64, i64)>>
    decreases hashes.len(),
{
    if hashes.len() == 0 {
        Map::empty()
    } else {
        history_map(hashes.drop_last()).insert(hashes.last().0, hashes.last().1.to_set())
    }
}

/// The average position of each hash.
pub open spec fn percent_map(
    runs: Seq<(i64, i64)>,
    hashes: Seq<(Seq<char>, Seq<(i64, i64)>)>,
) -> Map<Seq<char>, i64>
    decreases hashes.len(),
{
    if hashes.len() == 0 {
        Map::empty()
    } else {
        percent_map(runs, hashes.drop_last()).insert(
            hashes.last().0,
            percent_of(runs, hashes.last().1) as i64,
        )
    }
}

proof fn lemma_history_map(hashes: Seq<(Seq<char>, Seq<(i64, i64)>)>)
    ensures
        forall|h: Seq<char>| #[trigger] history_map(hashes).contains_key(h) == hash_names(hashes).contains(h),
        hash_names(hashes).no_duplicates() ==> forall|i: int|
            0 <= i < hashes.len() ==> history_map(hashes)[(#[trigger] hashes[i]).0] == hashes[i].1.to_set(),
    decreases hashes.len(),
{
    let ns = hash_names(hashes);
    if hashes.len() > 0 {
        let before = hashes.drop_last();
        lemma_history_map(before);
        let nb = hash_names(before);
        assert(ns == nb.push(hashes.last().0));
        assert forall|h: Seq<char>| #[trigger] history_map(hashes).contains_key(h) == ns.contains(h) by {
            assert(history_map(before).contains_key(h) == nb.contains(h));
            if nb.contains(h) {
                let k = choose|k: int| 0 <= k < nb.len() && nb[k] == h;
                assert(ns[k] == h);
            }
            if ns.contains(h) && h != hashes.last().0 {
                let k = choose|k: int| 0 <= k < ns.len() && ns[k] == h;
                assert(nb[k] == h);
            }
            assert(ns[ns.len() - 1] == hashes.last().0);
        }
        if ns.no_duplicates() {
            assert(nb.no_duplicates()) by {
                assert forall|i: int, j: int| 0 <= i < nb.len() && 0 <= j < nb.len() && i != j implies nb[i]
                    != nb[j] by {
                    assert(ns[i] != ns[j]);
                }
            }
            assert forall|i: int| 0 <= i < hashes.len() implies history_map(hashes)[(#[trigger] hashes[i]).0]
                == hashes[i].1.to_set() by {
                if i < before.len() {
                    assert(before[i] == hashes[i]);
                    assert(ns[i] != ns[ns.len() - 1]);
                }
            }
        }
    }
}

proof fn lemma_hashes_text(runs: Seq<(i64, i64)>, hashes: Seq<(Seq<char>, Seq<(i64, i64)>)>)
    requires
        forall|i: int| 0 <= i < hashes.len() ==> is_hash((#[trigger] hashes[i]).0) && hashes[i].1.len() > 0,
        hash_names(hashes).no_duplicates(),
    ensures
        stats_text(StatsModel { runs, hashes }).len() == 0 || stats_text(StatsModel { runs, hashes }).last()
            == '\n',
        file_runs(lines(stats_text(StatsModel { runs, hashes }))) == run_map(runs),
        file_history(lines(stats_text(StatsModel { runs, hashes }))) == history_map(hashes),
        file_percents(lines(stats_text(StatsModel { runs, hashes }))) == percent_map(runs, hashes),
    decreases hashes.len(),
{
    let whole = stats_text(StatsModel { runs, hashes });
    if hashes.len() == 0 {
        lemma_runs_text(runs);
        assert(whole == runs_text(runs));
    } else {
        let init = hashes.drop_last();
        let ns = hash_names(hashes);
        let nb = hash_names(init);
        assert(ns == nb.push(hashes.last().0));
        assert(nb.no_duplicates()) by {
            assert forall|i: int, j: int| 0 <= i < nb.len() && 0 <= j < nb.len() && i != j implies nb[i]
                != nb[j] by {
                assert(ns[i] != ns[j]);
            }
        }
        assert forall|i: int| 0 <= i < init.len() implies is_hash((#[trigger] init[i]).0) && init[i].1.len()
            > 0 by {
            assert(init[i] == hashes[i]);
        }
        lemma_hashes_text(runs, init);
        let before = stats_text(StatsModel { runs, hashes: init });
        let (h, es) = hashes.last();
        assert(hashes[hashes.len() - 1] == hashes.last());
        let t = hash_text(runs, (h, es));
        lemma_hash_line(runs, h, es);
        assert(whole == before + t);
        lemma_lines_concat(before, t);
        let l0 = lines(before);
        let l1 = l0.push(hash_row(runs, h, es));
        assert(lines(whole) == l1);
        assert(l1.drop_last() == l0);
        assert(whole.last() == t.last());
        lemma_history_map(init);
        assert(!nb.contains(h)) by {
            if nb.contains(h) {
                let k = choose|k: int| 0 <= k < nb.len() && nb[k] == h;
                assert(ns[k] == h);
                assert(ns[ns.len() - 1] == h);
            }
        }
        assert(!history_map(init).contains_key(h));
        assert(pairs_at(history_map(init), h).union(es.to_set()) == es.to_set());
    }
}

proof fn lemma_run_map(runs: Seq<(i64, i64)>)
    requires
        forall|i: int, j: int| 0 <= i < j < runs.len() ==> (#[trigger] runs[i]).0 < (#[trigger] runs[j]).0,
    ensures
        run_map(runs).dom().finite(),
        forall|t: i64| #[trigger] run_map(runs).contains_key(t) == exists|i: int| 0 <= i < runs.len() && (#[trigger] runs[i]).0 == t,
        forall|i: int| 0 <= i < runs.len() ==> run_map(runs)[(#[trigger] runs[i]).0] == runs[i].1,
        run_list(run_map(runs)) == runs,
    decreases runs.len(),
{
    let m = run_map(runs);
    if runs.len() > 0 {
        let before = runs.drop_last();
        assert forall|i: int, j: int| 0 <= i < j < before.len() implies (#[trigger] before[i]).0 < (#[trigger] before[j]).0 by {
            assert(runs[i].0 < runs[j].0);
        }
        lemma_run_map(before);
        assert forall|t: i64| #[trigger] m.contains_key(t) == exists|i: int| 0 <= i < runs.len() && (#[trigger] runs[i]).0 == t by {
            assert(run_map(before).contains_key(t) == exists|i: int| 0 <= i < before.len() && (#[trigger] before[i]).0 == t);
            if exists|i: int| 0 <= i < before.len() && (#[trigger] before[i]).0 == t {
                let i = choose|i: int| 0 <= i < before.len() && (#[trigger] before[i]).0 == t;
                assert(runs[i].0 == t);
            }
            if exists|i: int| 0 <= i < runs.len() && (#[trigger] runs[i]).0 == t {
                let i = choose|i: int| 0 <= i < runs.len() && (#[trigger] runs[i]).0 == t;
                if i < before.len() {
                    assert(before[i].0 == t);
                }
            }
            assert(runs[runs.len() - 1] == runs.last());
        }
        assert forall|i: int| 0 <= i < runs.len() implies m[(#[trigger] runs[i]).0] == runs[i].1 by {
            if i < before.len() {
                assert(before[i] == runs[i]);
                assert(runs[i].0 < runs[runs.len() - 1].0);
            }
        }
    }
    lemma_number_orders();
    let ts = runs.map_values(|r: (i64, i64)| r.0);
    assert(sorted_by(ts, num_leq())) by {
        assert forall|i: int, j: int| 0 <= i < j < ts.len() implies #[trigger] (num_leq())(ts[i], ts[j]) by {
            assert(runs[i].0 < runs[j].0);
        }
    }
    assert(ts.no_duplicates()) by {
        assert forall|i: int, j: int| 0 <= i < ts.len() && 0 <= j < ts.len() && i != j implies ts[i] != ts[j] by {
            if i < j {
                assert(runs[i].0 < runs[j].0);
            } else {
                assert(runs[j].0 < runs[i].0);
            }
        }
    }
    assert forall|t: i64| ts.contains(t) == m.dom().contains(t) by {
        assert(m.contains_key(t) == exists|i: int| 0 <= i < runs.len() && (#[trigger] runs[i]).0 == t);
        if m.contains_key(t) {
            let i = choose|i: int| 0 <= i < runs.len() && (#[trigger] runs[i]).0 == t;
            assert(ts[i] == t);
        }
        if ts.contains(t) {
            let i = choose|i: int| 0 <= i < ts.len() && ts[i] == t;
            assert(runs[i].0 == t);
        }
    }
    lemma_listing_is(m.dom(), num_leq(), ts);
    assert(run_list(m) == runs) by {
        assert forall|i: int| 0 <= i < runs.len() implies run_list(m)[i] == runs[i] by {
            assert(ts[i] == runs[i].0);
        }
    }
}

/// What is written to a stats file is read from it again: the runs, the entries of each
/// hash, and its percentage.
pub proof fn law_stats_read_back(m: StatsModel)
    requires
        model_wf(m),
    ensures
        run_list(file_runs(lines(stats_text(m)))) == m.runs,
        file_history(lines(stats_text(m))) == history_map(m.hashes),
        file_percents(lines(stats_text(m))) == percent_map(m.runs, m.hashes),
{
    lemma_ascending_distinct(hash_names(m.hashes));
    lemma_hashes_text(m.runs, m.hashes);
    lemma_run_map(m.runs);
}

// ---------------------------------------------------------------------------
// Merging

/// What a file holds is finite.
pub proof fn lemma_file_finite(ls: Seq<Seq<char>>)
    ensures
        file_runs(ls).dom().finite(),
        file_history(ls).dom().finite(),
        forall|h: Seq<char>| #[trigger] pairs_at(file_history(ls), h).finite(),
    decreases ls.len(),
{
    if ls.len() > 0 {
        lemma_file_finite(ls.drop_last());
        let m = file_history(ls.drop_last());
        assert forall|h: Seq<char>| #[trigger] pairs_at(file_history(ls), h).finite() by {
            assert(pairs_at(m, h).finite());
            match (exec_header(ls.last()), hash_line(ls.last())) {
                (None, Some(hl)) => {
                    assert(pairs_at(m, hl.0).finite());
                    assert(hl.1.to_set().finite());
                },
                _ => {},
            }
        }
    }
}

/// The starts that are kept are the last ones.
pub proof fn lemma_kept_runs(rm: Map<i64, i64>)
    requires
        rm.dom().finite(),
    ensures
        forall|i: int, j: int|
            0 <= i < j < last_n(run_list(rm), HISTORY as int).len() ==> (#[trigger] last_n(
                run_list(rm),
                HISTORY as int,
            )[i]).0 < (#[trigger] last_n(run_list(rm), HISTORY as int)[j]).0,
        last_n(run_list(rm), HISTORY as int).len() <= HISTORY,
        forall|i: int|
            0 <= i < last_n(run_list(rm), HISTORY as int).len() ==> rm.contains_key(
                (#[trigger] last_n(run_list(rm), HISTORY as int)[i]).0,
            ) && rm[last_n(run_list(rm), HISTORY as int)[i].0] == last_n(run_list(rm), HISTORY as int)[i].1,
        last_n(run_list(rm), HISTORY as int).map_values(|r: (i64, i64)| r.0) == last_n(
            rm.dom().to_sorted_seq(num_leq()),
            HISTORY as int,
        ),
{
    lemma_number_orders();
    lemma_listing(rm.dom(), num_leq());
    let ts = rm.dom().to_sorted_seq(num_leq());
    let rs = run_list(rm);
    lemma_last_n(ts, HISTORY as int, num_leq());
    let lt = last_n(ts, HISTORY as int);
    let lr = last_n(rs, HISTORY as int);
    let k = ts.len() - lt.len();
    assert(lr.map_values(|r: (i64, i64)| r.0) == lt);
    assert forall|i: int| 0 <= i < lr.len() implies lt[i] == (#[trigger] lr[i]).0 && rm.contains_key(lr[i].0) && rm[lr[i].0]
        == lr[i].1 by {
        assert(lr[i] == rs[i + k]);
        assert(ts.contains(ts[i + k]));
    }
    assert forall|i: int, j: int| 0 <= i < j < lr.len() implies (#[trigger] lr[i]).0 < (#[trigger] lr[j]).0 by {
        assert((num_leq())(lt[i], lt[j]));
        assert(lt[i] != lt[j]);
    }
}

/// So is what is kept of it.
pub proof fn lemma_pairs_finite(
    hist: Map<Seq<char>, Set<(i64, i64)>>,
    cur: Map<Seq<char>, Vec<(i64, i64)>>,
    kept: Set<i64>,
    h: Seq<char>,
)
    requires
        pairs_at(hist, h).finite(),
    ensures
        pairs_kept(hist, cur, kept, h).finite(),
{
    assert(current_pairs(cur, h).finite());
    assert(pairs_at(hist, h).union(current_pairs(cur, h)).finite());
}

/// What a merge leaves can be written: the runs and the hashes ascend, no list is longer
/// than the limit, and each hash has an entry.
pub proof fn law_merge_is_bounded(
    existing: Seq<char>,
    exec_ts: i64,
    duration: i64,
    cur: Map<Seq<char>, Vec<(i64, i64)>>,
)
    requires
        cur.dom().finite(),
    ensures
        ({
            let m = merged_model(existing, exec_ts, duration, cur);
            &&& m.runs.len() <= HISTORY
            &&& forall|i: int, j: int| 0 <= i < j < m.runs.len() ==> (#[trigger] m.runs[i]).0 < (#[trigger] m.runs[j]).0
            &&& ascending(hash_names(m.hashes))
            &&& forall|i: int|
                0 <= i < m.hashes.len() ==> 0 < (#[trigger] m.hashes[i]).1.len() <= HISTORY
            &&& forall|i: int, k: int|
                0 <= i < m.hashes.len() && 0 <= k < m.hashes[i].1.len() ==> starts(m.runs).contains(
                    (#[trigger] m.hashes[i].1[k]).0,
                )
        }),
{
    let ls = lines(existing);
    let hist = file_history(ls);
    let m = merged_model(existing, exec_ts, duration, cur);
    let kept = starts(m.runs);
    lemma_file_finite(ls);
    lemma_number_orders();
    lemma_text_order();
    lemma_kept_runs(file_runs(ls).insert(exec_ts, duration));
    let set = hashes_kept(hist, cur, kept);
    assert(hist.dom().union(cur.dom()).finite());
    assert(set.finite());
    lemma_listing(set, text_leq());
    let names = set.to_sorted_seq(text_leq());
    assert(hash_names(m.hashes) == names);
    assert forall|i: int, j: int| 0 <= i < j < names.len() implies crate::strmap::text_before(
        #[trigger] names[i],
        #[trigger] names[j],
    ) by {
        assert((text_leq())(names[i], names[j]));
        assert(names[i] != names[j]);
    }
    assert forall|i: int| 0 <= i < m.hashes.len() implies 0 < (#[trigger] m.hashes[i]).1.len() <= HISTORY by {
        let h = names[i];
        assert(names.contains(h));
        assert(set.contains(h));
        let p = choose|p: (i64, i64)| pairs_kept(hist, cur, kept, h).contains(p);
        assert(pairs_at(hist, h).finite());
        lemma_pairs_finite(hist, cur, kept, h);
        let s = pairs_kept(hist, cur, kept, h);
        lemma_listing(s, pair_leq());
        lemma_last_n(s.to_sorted_seq(pair_leq()), HISTORY as int, pair_leq());
        assert(s.to_sorted_seq(pair_leq()).contains(p));
    }
    assert forall|i: int, k: int| 0 <= i < m.hashes.len() && 0 <= k < m.hashes[i].1.len() implies starts(
        m.runs,
    ).contains((#[trigger] m.hashes[i].1[k]).0) by {
        let h = names[i];
        assert(pairs_at(hist, h).finite());
        lemma_pairs_finite(hist, cur, kept, h);
        let s = pairs_kept(hist, cur, kept, h);
        lemma_listing(s, pair_leq());
        lemma_last_n(s.to_sorted_seq(pair_leq()), HISTORY as int, pair_leq());
        assert(m.hashes[i].1.contains(m.hashes[i].1[k]));
        assert(s.contains(m.hashes[i].1[k]));
    }
}

/// The hashes of a stats file are words.
pub proof fn law_history_holds_words(ls: Seq<Seq<char>>)
    ensures
        forall|h: Seq<char>| #[trigger] file_history(ls).contains_key(h) ==> is_word(h),
    decreases ls.len(),
{
    if ls.len() > 0 {
        let before = file_history(ls.drop_last());
        law_history_holds_words(ls.drop_last());
        lemma_words_are_words(ls.last());
        assert forall|h: Seq<char>| #[trigger] file_history(ls).contains_key(h) implies is_word(h) by {
            if !before.contains_key(h) {
                assert(h == words(ls.last())[0]);
            }
        }
    }
}

/// The hashes that a merge leaves are those for which it keeps an entry.
pub proof fn law_hashes_are_kept_ones(
    existing: Seq<char>,
    exec_ts: i64,
    duration: i64,
    cur: Map<Seq<char>, Vec<(i64, i64)>>,
)
    requires
        cur.dom().finite(),
    ensures
        ({
            let m = merged_model(existing, exec_ts, duration, cur);
            forall|i: int|
                0 <= i < m.hashes.len() ==> hashes_kept(
                    file_history(lines(existing)),
                    cur,
                    starts(m.runs),
                ).contains((#[trigger] m.hashes[i]).0)
        }),
{
    let ls = lines(existing);
    let hist = file_history(ls);
    let m = merged_model(existing, exec_ts, duration, cur);
    let set = hashes_kept(hist, cur, starts(m.runs));
    lemma_file_finite(ls);
    lemma_text_order();
    assert(hist.dom().union(cur.dom()).finite());
    assert(set.finite());
    lemma_listing(set, text_leq());
    let names = set.to_sorted_seq(text_leq());
    assert forall|i: int| 0 <= i < m.hashes.len() implies set.contains((#[trigger] m.hashes[i]).0) by {
        assert(names.contains(names[i]));
    }
}

/// Merging a run into the file that the same merge left changes nothing.
pub proof fn law_merge_twice_is_once(
    existing: Seq<char>,
    exec_ts: i64,
    duration: i64,
    cur: Map<Seq<char>, Vec<(i64, i64)>>,
)
    requires
        cur.dom().finite(),
        forall|i: int|
            0 <= i < merged_model(existing, exec_ts, duration, cur).hashes.len() ==> is_hash(
                (#[trigger] merged_model(existing, exec_ts, duration, cur).hashes[i]).0,
            ),
    ensures
        merged_model(stats_text(merged_model(existing, exec_ts, duration, cur)), exec_ts, duration, cur)
            == merged_model(existing, exec_ts, duration, cur),
{
    let ls = lines(existing);
    let hist = file_history(ls);
    let m = merged_model(existing, exec_ts, duration, cur);
    let kept = starts(m.runs);
    law_merge_is_bounded(existing, exec_ts, duration, cur);
    assert(model_wf(m));
    law_stats_read_back(m);
    lemma_file_finite(ls);
    lemma_number_orders();
    lemma_text_order();

    let again = merged_model(stats_text(m), exec_ts, duration, cur);
    let ls2 = lines(stats_text(m));
    let rm = file_runs(ls).insert(exec_ts, duration);
    let rm2 = file_runs(ls2).insert(exec_ts, duration);
    lemma_ascending_distinct(hash_names(m.hashes));
    lemma_hashes_text(m.runs, m.hashes);
    lemma_run_map(m.runs);
    lemma_kept_runs(rm);
    assert(file_runs(ls2) == run_map(m.runs));

    // the same runs are kept
    let lt = last_n(rm.dom().to_sorted_seq(num_leq()), HISTORY as int);
    lemma_listing(rm.dom(), num_leq());
    lemma_last_n(rm.dom().to_sorted_seq(num_leq()), HISTORY as int, num_leq());
    assert(lt == m.runs.map_values(|r: (i64, i64)| r.0));
    assert forall|t: i64| #[trigger] run_map(m.runs).contains_key(t) implies rm.contains_key(t) && rm[t]
        == run_map(m.runs)[t] && lt.contains(t) by {
        let i = choose|i: int| 0 <= i < m.runs.len() && (#[trigger] m.runs[i]).0 == t;
        assert(m.runs[i].0 == t);
        assert(lt[i] == t);
    }
    assert(rm2.dom().subset_of(rm.dom()));
    assert forall|t: i64| lt.contains(t) implies rm2.dom().contains(t) by {
        let i = choose|i: int| 0 <= i < lt.len() && lt[i] == t;
        assert(m.runs[i].0 == t);
        assert(run_map(m.runs).contains_key(t));
    }
    lemma_last_n_between(rm2.dom(), rm.dom(), HISTORY as int, num_leq());
    lemma_kept_runs(rm2);
    assert(again.runs == m.runs) by {
        assert(again.runs.map_values(|r: (i64, i64)| r.0) == lt);
        assert(again.runs.len() == lt.len());
        assert forall|i: int| 0 <= i < m.runs.len() implies again.runs[i] == m.runs[i] by {
            assert(again.runs.map_values(|r: (i64, i64)| r.0)[i] == lt[i]);
            assert(m.runs.map_values(|r: (i64, i64)| r.0)[i] == lt[i]);
            let t = again.runs[i].0;
            assert(m.runs[i].0 == t);
            assert(rm2[t] == again.runs[i].1);
            assert(rm[t] == m.runs[i].1);
            assert(rm2.contains_key(t));
            if t != exec_ts {
                assert(run_map(m.runs).contains_key(t));
            }
        }
    }

    // the same entries are kept
    let hist2 = file_history(ls2);
    lemma_file_finite(ls2);
    lemma_history_map(m.hashes);
    let set = hashes_kept(hist, cur, kept);
    assert(hist.dom().union(cur.dom()).finite());
    assert(set.finite());
    lemma_listing(set, text_leq());
    let names = set.to_sorted_seq(text_leq());
    assert(hash_names(m.hashes) == names);
    assert forall|h: Seq<char>| #[trigger] hashes_kept(hist2, cur, kept).contains(h) == set.contains(h)
        && entry_list(hist2, cur, kept, h) == entry_list(hist, cur, kept, h) by {
        assert(pairs_at(hist, h).finite());
        assert(pairs_at(hist2, h).finite());
        lemma_pairs_finite(hist, cur, kept, h);
        lemma_pairs_finite(hist2, cur, kept, h);
        let big = pairs_kept(hist, cur, kept, h);
        let small = pairs_kept(hist2, cur, kept, h);
        lemma_listing(big, pair_leq());
        lemma_last_n(big.to_sorted_seq(pair_leq()), HISTORY as int, pair_leq());
        let last = last_n(big.to_sorted_seq(pair_leq()), HISTORY as int);
        assert(hist2.contains_key(h) == names.contains(h));
        if names.contains(h) {
            let i = choose|i: int| 0 <= i < names.len() && names[i] == h;
            assert(m.hashes[i].0 == h);
            assert(hist2[h] == last.to_set());
            assert forall|p: (i64, i64)| last.contains(p) implies small.contains(p) by {
                assert(last.to_set().contains(p));
                assert(big.contains(p));
            }
            assert forall|p: (i64, i64)| small.contains(p) implies big.contains(p) by {
                if last.to_set().contains(p) {
                    assert(last.contains(p));
                }
            }
        } else {
            assert forall|p: (i64, i64)| !big.contains(p) by {
                if big.contains(p) {
                    assert(hist.contains_key(h) || cur.contains_key(h));
                    assert(set.contains(h));
                }
            }
            assert forall|p: (i64, i64)| !small.contains(p) by {
                if small.contains(p) {
                    assert(big.contains(p));
                }
            }
        }
        assert(small.subset_of(big));
        assert forall|p: (i64, i64)| last.contains(p) implies small.contains(p) by {
            assert(big.contains(p));
        }
        lemma_last_n_between(small, big, HISTORY as int, pair_leq());
        if set.contains(h) {
            let p = choose|p: (i64, i64)| pairs_kept(hist, cur, kept, h).contains(p);
            assert(big.to_sorted_seq(pair_leq()).contains(p));
            assert(last.len() > 0);
            assert(last.contains(last[0]));
            assert(small.contains(last[0]));
            assert(hist2.contains_key(h));
        }
        if hashes_kept(hist2, cur, kept).contains(h) {
            let p = choose|p: (i64, i64)| pairs_kept(hist2, cur, kept, h).contains(p);
            assert(big.contains(p));
            assert(hist.contains_key(h) || cur.contains_key(h));
        }
    }
    assert(hashes_kept(hist2, cur, kept) == set);
    assert(again.hashes == m.hashes) by {
        assert forall|i: int| 0 <= i < m.hashes.len() implies again.hashes[i] == m.hashes[i] by {
            assert(hashes_kept(hist2, cur, kept).contains(names[i]) == set.contains(names[i]));
        }
    }
    assert(again == m);
}

/// A run that started last is the last one in the file, with its duration.
pub proof fn law_newest_run_is_kept(
    existing: Seq<char>,
    exec_ts: i64,
    duration: i64,
    cur: Map<Seq<char>, Vec<(i64, i64)>>,
)
    requires
        forall|t: i64| #[trigger] file_runs(lines(existing)).contains_key(t) ==> t <= exec_ts,
    ensures
        ({
            let m = merged_model(existing, exec_ts, duration, cur);
            m.runs.len() > 0 && m.runs.last() == (exec_ts, duration)
        }),
{
    let rm = file_runs(lines(existing)).insert(exec_ts, duration);
    lemma_file_finite(lines(existing));
    lemma_number_orders();
    lemma_listing(rm.dom(), num_leq());
    let ts = rm.dom().to_sorted_seq(num_leq());
    assert(rm.dom().contains(exec_ts));
    assert(ts.contains(exec_ts));
    let k = choose|k: int| 0 <= k < ts.len() && ts[k] == exec_ts;
    let last = ts.len() - 1;
    assert(ts[last] == exec_ts) by {
        assert(rm.dom().contains(ts[last])) by {
            assert(ts.contains(ts[last]));
        }
        if k < last {
            assert((num_leq())(ts[k], ts[last]));
        }
    }
    let rs = run_list(rm);
    let m = merged_model(existing, exec_ts, duration, cur);
    assert(m.runs.last() == rs[last]);
}

/// What a run saw first at `rel` is the last entry of that hash, where the run started
/// after all others.
pub proof fn law_newest_entry_is_kept(
    existing: Seq<char>,
    exec_ts: i64,
    duration: i64,
    cur: Map<Seq<char>, Vec<(i64, i64)>>,
    h: Seq<char>,
    rel: i64,
)
    requires
        cur.dom().finite(),
        forall|t: i64| #[trigger] file_runs(lines(existing)).contains_key(t) ==> t < exec_ts,
        forall|p: (i64, i64)| #[trigger] pairs_at(file_history(lines(existing)), h).contains(p) ==> p.0 < exec_ts,
        cur.contains_key(h),
        cur[h]@ == seq![(exec_ts, rel)],
    ensures
        ({
            let m = merged_model(existing, exec_ts, duration, cur);
            exists|i: int|
                0 <= i < m.hashes.len() && (#[trigger] m.hashes[i]).0 == h && m.hashes[i].1.last() == (exec_ts, rel)
        }),
{
    let ls = lines(existing);
    let hist = file_history(ls);
    let m = merged_model(existing, exec_ts, duration, cur);
    let kept = starts(m.runs);
    let e = (exec_ts, rel);
    law_newest_run_is_kept(existing, exec_ts, duration, cur);
    lemma_file_finite(ls);
    lemma_number_orders();
    lemma_text_order();
    assert(kept.contains(exec_ts)) by {
        let ts = m.runs.map_values(|r: (i64, i64)| r.0);
        assert(ts[m.runs.len() - 1] == exec_ts);
        assert(ts.contains(exec_ts));
    }
    assert(current_pairs(cur, h).contains(e)) by {
        assert(cur[h]@[0] == e);
        assert(cur[h]@.contains(e));
    }
    let s = pairs_kept(hist, cur, kept, h);
    assert(s.contains(e));
    let set = hashes_kept(hist, cur, kept);
    assert(set.contains(h));
    assert(hist.dom().union(cur.dom()).finite());
    lemma_listing(set, text_leq());
    let names = set.to_sorted_seq(text_leq());
    assert(names.contains(h));
    let i = choose|i: int| 0 <= i < names.len() && names[i] == h;
    assert(pairs_at(hist, h).finite());
    lemma_pairs_finite(hist, cur, kept, h);
    lemma_listing(s, pair_leq());
    let es = s.to_sorted_seq(pair_leq());
    assert(es.contains(e));
    let k = choose|k: int| 0 <= k < es.len() && es[k] == e;
    let last = es.len() - 1;
    assert(es[last] == e) by {
        assert(s.contains(es[last])) by {
            assert(es.contains(es[last]));
        }
        if k < last {
            assert((pair_leq())(es[k], es[last]));
            if pairs_at(hist, h).contains(es[last]) {
                assert(es[last].0 < exec_ts);
            } else {
                assert(cur[h]@.contains(es[last]));
                assert(es[last] == e);
            }
        }
    }
    assert(m.hashes[i].0 == h);
    assert(m.hashes[i].1 == entry_list(hist, cur, kept, h));
}

} // verus!
