//! The history of a command: when each kind of output line came, over its last runs.
//!
//! A stats file holds two lines per run, `EXEC <start> <duration>` and `EXEC-END`, and
//! then one line per kind of output line: its hash, the average position in percent, the
//! average time, and a `<start>:<time>` entry for each time it was seen.
use crate::number::{i64_value, int_text, parse_i64, push_i64, push_u64};
use crate::order::{last_n, lemma_listing_is, lemma_number_orders, num_leq, pair_leq};
use crate::strmap::{ascending, lemma_ascending_listing, text_before, text_leq, StringMap};
use crate::text::{has_char, lines, same, split_at_char, split_char, split_lines, split_words, starts_with, texts, without_prefix, words};
use vstd::arithmetic::div_mod::lemma_div_pos_is_pos;
use vstd::prelude::*;
use vstd::relations::sorted_by;

verus! {

/// How many runs a stats file keeps, and how many entries for each hash.
pub const HISTORY: usize = 10;

// ---------------------------------------------------------------------------
// Reading one line

/// Two texts as a pair of numbers.
pub open spec fn pair_value(a: Seq<char>, b: Seq<char>) -> Option<(i64, i64)> {
    match (i64_value(a), i64_value(b)) {
        (Some(x), Some(y)) => Some((x as i64, y as i64)),
        _ => None,
    }
}

/// The start and the duration that an `EXEC` line gives.
pub open spec fn exec_header(line: Seq<char>) -> Option<(i64, i64)> {
    let w = words(line.skip(5));
    if starts_with(line, "EXEC "@) && w.len() >= 2 {
        pair_value(w[0], w[1])
    } else {
        None
    }
}

/// Reads an `EXEC` line.
pub fn parse_exec_header(line: &str) -> (r: Option<(i64, i64)>)
    ensures
        r == exec_header(line@),
{
    proof {
        reveal_strlit("EXEC ");
    }
    let rest: &str = match without_prefix(line, "EXEC ") {
        Some(t) => t,
        None => {
            return None;
        },
    };
    let w: Vec<String> = split_words(rest);
    assert(texts(w@).len() == w@.len());
    if w.len() < 2 {
        return None;
    }
    assert(texts(w@)[0] == w@[0]@);
    assert(texts(w@)[1] == w@[1]@);
    match (parse_i64(w[0].as_str()), parse_i64(w[1].as_str())) {
        (Some(t), Some(d)) => Some((t, d)),
        _ => None,
    }
}

/// The entry that a token with a colon stands for; what follows a second colon is ignored.
pub open spec fn entry_value(token: Seq<char>) -> Option<(i64, i64)> {
    let p = split_char(token, ':');
    if p.len() >= 2 {
        pair_value(p[0], p[1])
    } else {
        None
    }
}

/// The entries among `tokens`: those without a colon are passed over, and one that
/// cannot be read spoils them all.
pub open spec fn entries_value(tokens: Seq<Seq<char>>) -> Option<Seq<(i64, i64)>>
    decreases tokens.len(),
{
    if tokens.len() == 0 {
        Some(Seq::empty())
    } else {
        match entries_value(tokens.drop_last()) {
            Some(es) => if !tokens.last().contains(':') {
                Some(es)
            } else {
                match entry_value(tokens.last()) {
                    Some(e) => Some(es.push(e)),
                    None => None,
                }
            },
            None => None,
        }
    }
}

/// The hash and the entries that a line gives: a word, a number, and at least one entry.
pub open spec fn hash_line(line: Seq<char>) -> Option<(Seq<char>, Seq<(i64, i64)>)> {
    let w = words(line);
    if w.len() >= 2 && i64_value(w[1]) is Some {
        match entries_value(w.skip(2)) {
            Some(es) => if es.len() > 0 {
                Some((w[0], es))
            } else {
                None
            },
            None => None,
        }
    } else {
        None
    }
}

proof fn lemma_entries_value_none(tokens: Seq<Seq<char>>, k: int)
    requires
        0 <= k <= tokens.len(),
        entries_value(tokens.take(k)) is None,
    ensures
        entries_value(tokens) is None,
    decreases tokens.len() - k,
{
    if k == tokens.len() {
        assert(tokens.take(k) == tokens);
    } else {
        assert(tokens.take(k + 1).drop_last() == tokens.take(k));
        lemma_entries_value_none(tokens, k + 1);
    }
}

/// Reads a hash line.
pub fn parse_stats_hash_line(line: &str) -> (r: Option<(String, Vec<(i64, i64)>)>)
    ensures
        match r {
            Some((h, es)) => hash_line(line@) == Some((h@, es@)),
            None => hash_line(line@) is None,
        },
{
    let w: Vec<String> = split_words(line);
    let ghost all = words(line@);
    assert(all.len() == w@.len());
    if w.len() < 2 {
        return None;
    }
    assert(texts(w@)[1] == w@[1]@);
    if parse_i64(w[1].as_str()).is_none() {
        return None;
    }
    let mut entries: Vec<(i64, i64)> = Vec::new();
    let mut i: usize = 2;
    assert(all.skip(2).take(0) == Seq::<Seq<char>>::empty());
    while i < w.len()
        invariant
            2 <= i <= w@.len(),
            all == texts(w@),
            all == words(line@),
            entries_value(all.skip(2).take(i - 2)) == Some(entries@),
        decreases w@.len() - i,
    {
        let ghost toks = all.skip(2);
        proof {
            assert(toks.take(i - 1).drop_last() == toks.take(i - 2));
            assert(toks.take(i - 1).last() == w@[i as int]@);
        }
        if has_char(w[i].as_str(), ':') {
            let p: Vec<String> = split_at_char(w[i].as_str(), ':');
            let ghost parts = split_char(w@[i as int]@, ':');
            assert(parts.len() == p@.len());
            if p.len() < 2 {
                proof {
                    lemma_entries_value_none(toks, i - 1);
                }
                return None;
            }
            assert(texts(p@)[0] == p@[0]@);
            assert(texts(p@)[1] == p@[1]@);
            match (parse_i64(p[0].as_str()), parse_i64(p[1].as_str())) {
                (Some(t), Some(r)) => {
                    entries.push((t, r));
                },
                _ => {
                    proof {
                        lemma_entries_value_none(toks, i - 1);
                    }
                    return None;
                },
            }
        }
        i = i + 1;
    }
    assert(all.skip(2).take(i - 2) == all.skip(2));
    if entries.len() == 0 {
        return None;
    }
    assert(texts(w@)[0] == w@[0]@);
    Some((w[0].clone(), entries))
}

// ---------------------------------------------------------------------------
// Reading a file

/// The runs that the lines of a stats file give; of two with one start the later counts.
pub open spec fn file_runs(ls: Seq<Seq<char>>) -> Map<i64, i64>
    decreases ls.len(),
{
    if ls.len() == 0 {
        Map::empty()
    } else {
        match exec_header(ls.last()) {
            Some(run) => file_runs(ls.drop_last()).insert(run.0, run.1),
            None => file_runs(ls.drop_last()),
        }
    }
}

/// What a map of sets holds for `h`: nothing, where it does not hold `h`.
pub open spec fn pairs_at(m: Map<Seq<char>, Set<(i64, i64)>>, h: Seq<char>) -> Set<(i64, i64)> {
    if m.contains_key(h) {
        m[h]
    } else {
        Set::empty()
    }
}

/// The entries that the lines of a stats file give for each hash.
pub open spec fn file_history(ls: Seq<Seq<char>>) -> Map<Seq<char>, Set<(i64, i64)>>
    decreases ls.len(),
{
    if ls.len() == 0 {
        Map::empty()
    } else {
        let m = file_history(ls.drop_last());
        match (exec_header(ls.last()), hash_line(ls.last())) {
            (None, Some(hl)) => m.insert(hl.0, pairs_at(m, hl.0).union(hl.1.to_set())),
            _ => m,
        }
    }
}

// ---------------------------------------------------------------------------
// The merged file

/// What a stats file states: runs in ascending order of their start, and for each hash,
/// in ascending order, its entries in ascending order.
#[verifier::ext_equal]
pub struct StatsModel {
    pub runs: Seq<(i64, i64)>,
    pub hashes: Seq<(Seq<char>, Seq<(i64, i64)>)>,
}

/// The runs in ascending order of their start.
pub open spec fn run_list(m: Map<i64, i64>) -> Seq<(i64, i64)> {
    m.dom().to_sorted_seq(num_leq()).map_values(|t: i64| (t, m[t]))
}

/// The starts of a list of runs.
pub open spec fn starts(runs: Seq<(i64, i64)>) -> Set<i64> {
    runs.map_values(|r: (i64, i64)| r.0).to_set()
}

/// The entries that the current run adds for `h`.
pub open spec fn current_pairs(cur: Map<Seq<char>, Vec<(i64, i64)>>, h: Seq<char>) -> Set<(i64, i64)> {
    if cur.contains_key(h) {
        cur[h]@.to_set()
    } else {
        Set::empty()
    }
}

/// The entries of `s` that belong to a run with one of the starts `kept`.
pub open spec fn belonging(s: Set<(i64, i64)>, kept: Set<i64>) -> Set<(i64, i64)> {
    s.filter(|p: (i64, i64)| kept.contains(p.0))
}

/// The entries for `h`, old and new, that belong to one of the runs that are kept.
pub open spec fn pairs_kept(
    hist: Map<Seq<char>, Set<(i64, i64)>>,
    cur: Map<Seq<char>, Vec<(i64, i64)>>,
    kept: Set<i64>,
    h: Seq<char>,
) -> Set<(i64, i64)> {
    belonging(pairs_at(hist, h).union(current_pairs(cur, h)), kept)
}

/// The hashes for which an entry is kept.
pub open spec fn hashes_kept(
    hist: Map<Seq<char>, Set<(i64, i64)>>,
    cur: Map<Seq<char>, Vec<(i64, i64)>>,
    kept: Set<i64>,
) -> Set<Seq<char>> {
    hist.dom().union(cur.dom()).filter(
        |h: Seq<char>| exists|p: (i64, i64)| pairs_kept(hist, cur, kept, h).contains(p),
    )
}

/// The last entries for `h`, in ascending order.
pub open spec fn entry_list(
    hist: Map<Seq<char>, Set<(i64, i64)>>,
    cur: Map<Seq<char>, Vec<(i64, i64)>>,
    kept: Set<i64>,
    h: Seq<char>,
) -> Seq<(i64, i64)> {
    last_n(pairs_kept(hist, cur, kept, h).to_sorted_seq(pair_leq()), HISTORY as int)
}

/// A stats file after a run: the last runs, with this one among them or in place of the
/// one with the same start, and for each hash the last entries that belong to them.
pub open spec fn merged_model(
    existing: Seq<char>,
    exec_ts: i64,
    duration: i64,
    cur: Map<Seq<char>, Vec<(i64, i64)>>,
) -> StatsModel {
    let ls = lines(existing);
    let runs = last_n(run_list(file_runs(ls).insert(exec_ts, duration)), HISTORY as int);
    let hist = file_history(ls);
    let kept = starts(runs);
    StatsModel {
        runs,
        hashes: hashes_kept(hist, cur, kept).to_sorted_seq(text_leq()).map_values(
            |h: Seq<char>| (h, entry_list(hist, cur, kept, h)),
        ),
    }
}

// ---------------------------------------------------------------------------
// Writing

/// Division that rounds towards zero.
pub open spec fn div_to_zero(a: int, b: int) -> int {
    if a >= 0 {
        a / b
    } else {
        -((-a) / b)
    }
}

/// `n` brought into the range of a percentage.
pub open spec fn clamp_percent(n: int) -> int {
    if n < 0 {
        0
    } else if n > 100 {
        100
    } else {
        n
    }
}

/// The duration of the run that started at `t`.
pub open spec fn duration_of(runs: Seq<(i64, i64)>, t: i64) -> Option<i64>
    decreases runs.len(),
{
    if runs.len() == 0 {
        None
    } else if runs.last().0 == t {
        Some(runs.last().1)
    } else {
        duration_of(runs.drop_last(), t)
    }
}

/// The position of an entry within its run, in percent; none where the run has no
/// positive duration.
pub open spec fn entry_percent(runs: Seq<(i64, i64)>, e: (i64, i64)) -> Option<int> {
    match duration_of(runs, e.0) {
        Some(d) => if d > 0 {
            Some(clamp_percent(div_to_zero(e.1 * 100, d as int)))
        } else {
            None
        },
        None => None,
    }
}

/// The sum of the positions of the entries.
pub open spec fn percent_sum(runs: Seq<(i64, i64)>, es: Seq<(i64, i64)>) -> int
    decreases es.len(),
{
    if es.len() == 0 {
        0
    } else {
        percent_sum(runs, es.drop_last()) + match entry_percent(runs, es.last()) {
            Some(p) => p,
            None => 0,
        }
    }
}

/// The number of entries that have a position.
pub open spec fn percent_count(runs: Seq<(i64, i64)>, es: Seq<(i64, i64)>) -> int
    decreases es.len(),
{
    if es.len() == 0 {
        0
    } else {
        percent_count(runs, es.drop_last()) + match entry_percent(runs, es.last()) {
            Some(_) => 1int,
            None => 0int,
        }
    }
}

/// The average position of the entries, in whole percent.
pub open spec fn percent_of(runs: Seq<(i64, i64)>, es: Seq<(i64, i64)>) -> int {
    if percent_count(runs, es) > 0 {
        percent_sum(runs, es) / percent_count(runs, es)
    } else {
        0
    }
}

/// The sum of the times of the entries.
pub open spec fn time_sum(es: Seq<(i64, i64)>) -> int
    decreases es.len(),
{
    if es.len() == 0 {
        0
    } else {
        time_sum(es.drop_last()) + es.last().1
    }
}

/// The average time of the entries.
pub open spec fn average_time(es: Seq<(i64, i64)>) -> int {
    div_to_zero(time_sum(es), es.len() as int)
}

/// The lines of one run.
pub open spec fn run_text(run: (i64, i64)) -> Seq<char> {
    "EXEC "@ + int_text(run.0 as int) + " "@ + int_text(run.1 as int) + "\nEXEC-END\n"@
}

/// The lines of all runs.
pub open spec fn runs_text(runs: Seq<(i64, i64)>) -> Seq<char>
    decreases runs.len(),
{
    if runs.len() == 0 {
        Seq::empty()
    } else {
        runs_text(runs.drop_last()) + run_text(runs.last())
    }
}

/// One entry.
pub open spec fn entry_text(e: (i64, i64)) -> Seq<char> {
    int_text(e.0 as int) + ":"@ + int_text(e.1 as int)
}

/// All entries, with a space before each.
pub open spec fn entries_text(es: Seq<(i64, i64)>) -> Seq<char>
    decreases es.len(),
{
    if es.len() == 0 {
        Seq::empty()
    } else {
        entries_text(es.drop_last()) + " "@ + entry_text(es.last())
    }
}

/// The line of one hash.
pub open spec fn hash_text(runs: Seq<(i64, i64)>, h: (Seq<char>, Seq<(i64, i64)>)) -> Seq<char> {
    h.0 + " "@ + int_text(percent_of(runs, h.1)) + " "@ + int_text(average_time(h.1))
        + entries_text(h.1) + "\n"@
}

/// The lines of all hashes.
pub open spec fn hashes_text(
    runs: Seq<(i64, i64)>,
    hashes: Seq<(Seq<char>, Seq<(i64, i64)>)>,
) -> Seq<char>
    decreases hashes.len(),
{
    if hashes.len() == 0 {
        Seq::empty()
    } else {
        hashes_text(runs, hashes.drop_last()) + hash_text(runs, hashes.last())
    }
}

/// A stats file as text.
pub open spec fn stats_text(m: StatsModel) -> Seq<char> {
    runs_text(m.runs) + hashes_text(m.runs, m.hashes)
}

// ---------------------------------------------------------------------------
// Ascending lists of runs and entries

/// `v` lists the runs of `m` in ascending order of their start.
pub open spec fn runs_listed(v: Seq<(i64, i64)>, m: Map<i64, i64>) -> bool {
    &&& forall|i: int, j: int| 0 <= i < j < v.len() ==> (#[trigger] v[i]).0 < (#[trigger] v[j]).0
    &&& forall|i: int| 0 <= i < v.len() ==> m.contains_key((#[trigger] v[i]).0) && m[v[i].0] == v[i].1
    &&& forall|t: i64| #[trigger] m.contains_key(t) ==> exists|i: int| 0 <= i < v.len() && (#[trigger] v[i]).0 == t
}

/// Such a list is the one that `run_list` names.
proof fn lemma_runs_listed(v: Seq<(i64, i64)>, m: Map<i64, i64>)
    requires
        runs_listed(v, m),
    ensures
        v == run_list(m),
        m.dom().finite(),
{
    lemma_number_orders();
    let ts = v.map_values(|r: (i64, i64)| r.0);
    assert(sorted_by(ts, num_leq())) by {
        assert forall|i: int, j: int| 0 <= i < j < ts.len() implies #[trigger] (num_leq())(ts[i], ts[j]) by {
            assert(v[i].0 < v[j].0);
        }
    }
    assert(ts.no_duplicates()) by {
        assert forall|i: int, j: int| 0 <= i < ts.len() && 0 <= j < ts.len() && i != j implies ts[i] != ts[j] by {
            if i < j {
                assert(v[i].0 < v[j].0);
            } else {
                assert(v[j].0 < v[i].0);
            }
        }
    }
    assert forall|t: i64| ts.contains(t) == m.dom().contains(t) by {
        if m.contains_key(t) {
            let i = choose|i: int| 0 <= i < v.len() && (#[trigger] v[i]).0 == t;
            assert(ts[i] == t);
        }
        if ts.contains(t) {
            let i = choose|i: int| 0 <= i < ts.len() && ts[i] == t;
            assert(v[i].0 == t);
        }
    }
    lemma_listing_is(m.dom(), num_leq(), ts);
    assert(v == run_list(m)) by {
        assert forall|i: int| 0 <= i < v.len() implies v[i] == run_list(m)[i] by {
            assert(run_list(m)[i] == (ts[i], m[ts[i]]));
        }
    }
}

/// Puts a run into an ascending list, in place of one with the same start.
fn insert_run(v: &mut Vec<(i64, i64)>, t: i64, d: i64)
    ensures
        forall|m: Map<i64, i64>| #[trigger]
            runs_listed(old(v)@, m) ==> runs_listed(final(v)@, m.insert(t, d)),
{
    let ghost before = v@;
    let mut i: usize = 0;
    while i < v.len() && v[i].0 < t
        invariant
            i <= v@.len(),
            v@ == before,
            forall|j: int| 0 <= j < i ==> (#[trigger] v@[j]).0 < t,
        decreases v@.len() - i,
    {
        i = i + 1;
    }
    if i < v.len() && v[i].0 == t {
        v.set(i, (t, d));
        proof {
            assert forall|m: Map<i64, i64>| #[trigger] runs_listed(before, m) implies runs_listed(
                v@,
                m.insert(t, d),
            ) by {
                let n = m.insert(t, d);
                assert forall|a: int, b: int| 0 <= a < b < v@.len() implies (#[trigger] v@[a]).0 < (
                #[trigger] v@[b]).0 by {
                    assert(before[a].0 < before[b].0);
                }
                assert forall|a: int| 0 <= a < v@.len() implies n.contains_key((#[trigger] v@[a]).0)
                    && n[v@[a].0] == v@[a].1 by {
                    assert(m.contains_key(before[a].0));
                    if a < i {
                        assert(before[a].0 < before[i as int].0);
                    } else if a > i {
                        assert(before[i as int].0 < before[a].0);
                    }
                }
                assert forall|x: i64| #[trigger] n.contains_key(x) implies exists|a: int|
                    0 <= a < v@.len() && (#[trigger] v@[a]).0 == x by {
                    if x == t {
                        assert(v@[i as int].0 == t);
                    } else {
                        assert(m.contains_key(x));
                        let a = choose|a: int| 0 <= a < before.len() && (#[trigger] before[a]).0 == x;
                        assert(v@[a].0 == x);
                    }
                }
            }
        }
    } else {
        v.insert(i, (t, d));
        proof {
            assert forall|m: Map<i64, i64>| #[trigger] runs_listed(before, m) implies runs_listed(
                v@,
                m.insert(t, d),
            ) by {
                let n = m.insert(t, d);
                assert forall|a: int| i <= a < before.len() implies t < (#[trigger] before[a]).0 by {
                    if a > i {
                        assert(before[i as int].0 < before[a].0);
                    }
                }
                assert forall|a: int, b: int| 0 <= a < b < v@.len() implies (#[trigger] v@[a]).0 < (
                #[trigger] v@[b]).0 by {
                    let x = if a < i { a } else { a - 1 };
                    let y = if b < i { b } else { b - 1 };
                    if a != i && b != i {
                        assert(before[x].0 < before[y].0);
                    }
                }
                assert forall|a: int| 0 <= a < v@.len() implies n.contains_key((#[trigger] v@[a]).0)
                    && n[v@[a].0] == v@[a].1 by {
                    if a != i {
                        let x = if a < i { a } else { a - 1 };
                        assert(m.contains_key(before[x].0));
                    }
                }
                assert forall|x: i64| #[trigger] n.contains_key(x) implies exists|a: int|
                    0 <= a < v@.len() && (#[trigger] v@[a]).0 == x by {
                    if x == t {
                        assert(v@[i as int].0 == t);
                    } else {
                        assert(m.contains_key(x));
                        let a = choose|a: int| 0 <= a < before.len() && (#[trigger] before[a]).0 == x;
                        assert(v@[if a < i { a } else { a + 1 }].0 == x);
                    }
                }
            }
        }
    }
}

/// Whether one entry comes before another.
pub open spec fn pair_before(a: (i64, i64), b: (i64, i64)) -> bool {
    a.0 < b.0 || (a.0 == b.0 && a.1 < b.1)
}

/// `v` lists the entries of `set` in ascending order.
pub open spec fn pairs_listed(v: Seq<(i64, i64)>, set: Set<(i64, i64)>) -> bool {
    &&& forall|i: int, j: int| 0 <= i < j < v.len() ==> pair_before(#[trigger] v[i], #[trigger] v[j])
    &&& forall|p: (i64, i64)| #[trigger] set.contains(p) == v.contains(p)
}

/// Such a list is the ascending list of the set.
proof fn lemma_pairs_listed(v: Seq<(i64, i64)>, set: Set<(i64, i64)>)
    requires
        pairs_listed(v, set),
    ensures
        set.finite(),
        v == set.to_sorted_seq(pair_leq()),
{
    lemma_number_orders();
    assert(sorted_by(v, pair_leq())) by {
        assert forall|i: int, j: int| 0 <= i < j < v.len() implies #[trigger] (pair_leq())(v[i], v[j]) by {
            assert(pair_before(v[i], v[j]));
        }
    }
    assert(v.no_duplicates()) by {
        assert forall|i: int, j: int| 0 <= i < v.len() && 0 <= j < v.len() && i != j implies v[i] != v[j] by {
            if i < j {
                assert(pair_before(v[i], v[j]));
            } else {
                assert(pair_before(v[j], v[i]));
            }
        }
    }
    assert forall|p: (i64, i64)| v.contains(p) == set.contains(p) by {
        assert(set.contains(p) == v.contains(p));
    }
    lemma_listing_is(set, pair_leq(), v);
}

/// Puts an entry into an ascending list, unless it is there.
fn insert_pair(v: &mut Vec<(i64, i64)>, p: (i64, i64))
    ensures
        forall|s: Set<(i64, i64)>| #[trigger]
            pairs_listed(old(v)@, s) ==> pairs_listed(final(v)@, s.insert(p)),
{
    let ghost before = v@;
    let mut i: usize = 0;
    while i < v.len() && (v[i].0 < p.0 || (v[i].0 == p.0 && v[i].1 < p.1))
        invariant
            i <= v@.len(),
            v@ == before,
            forall|j: int| 0 <= j < i ==> pair_before(#[trigger] v@[j], p),
        decreases v@.len() - i,
    {
        i = i + 1;
    }
    if i < v.len() && v[i].0 == p.0 && v[i].1 == p.1 {
        proof {
            assert(v@[i as int] == p);
            assert forall|s: Set<(i64, i64)>| #[trigger] pairs_listed(before, s) implies pairs_listed(
                v@,
                s.insert(p),
            ) by {
                assert(s.contains(p) == before.contains(p));
                assert(s.insert(p) == s);
            }
        }
    } else {
        v.insert(i, p);
        proof {
            assert forall|s: Set<(i64, i64)>| #[trigger] pairs_listed(before, s) implies pairs_listed(
                v@,
                s.insert(p),
            ) by {
                assert forall|a: int| i <= a < before.len() implies pair_before(
                    p,
                    #[trigger] before[a],
                ) by {
                    if a > i {
                        assert(pair_before(before[i as int], before[a]));
                    }
                }
                assert forall|a: int, b: int| 0 <= a < b < v@.len() implies pair_before(
                    #[trigger] v@[a],
                    #[trigger] v@[b],
                ) by {
                    let x = if a < i { a } else { a - 1 };
                    let y = if b < i { b } else { b - 1 };
                    if a != i && b != i {
                        assert(pair_before(before[x], before[y]));
                    }
                }
                assert forall|q: (i64, i64)| #[trigger] s.insert(p).contains(q) == v@.contains(q) by {
                    assert(s.contains(q) == before.contains(q));
                    if before.contains(q) {
                        let a = choose|a: int| 0 <= a < before.len() && before[a] == q;
                        assert(v@[if a < i { a } else { a + 1 }] == q);
                    }
                    if v@.contains(q) && q != p {
                        let a = choose|a: int| 0 <= a < v@.len() && v@[a] == q;
                        assert(before[if a < i { a } else { a - 1 }] == q);
                    }
                    assert(v@[i as int] == p);
                }
            }
        }
    }
}

/// Whether a run that started at `t` is among `runs`.
fn has_start(runs: &Vec<(i64, i64)>, t: i64) -> (r: bool)
    ensures
        r == starts(runs@).contains(t),
{
    let ghost ts = runs@.map_values(|r: (i64, i64)| r.0);
    let mut i: usize = 0;
    while i < runs.len()
        invariant
            i <= runs@.len(),
            ts == runs@.map_values(|r: (i64, i64)| r.0),
            forall|j: int| 0 <= j < i ==> (#[trigger] runs@[j]).0 != t,
        decreases runs@.len() - i,
    {
        if runs[i].0 == t {
            assert(ts[i as int] == t);
            assert(ts.contains(t));
            return true;
        }
        i = i + 1;
    }
    proof {
        if ts.contains(t) {
            let j = choose|j: int| 0 <= j < ts.len() && ts[j] == t;
            assert(runs@[j].0 == t);
        }
    }
    false
}

/// The duration of the run that started at `t`.
fn find_duration(runs: &Vec<(i64, i64)>, t: i64) -> (r: Option<i64>)
    ensures
        r == duration_of(runs@, t),
{
    let mut i: usize = runs.len();
    assert(runs@.take(i as int) == runs@);
    while i > 0
        invariant
            i <= runs@.len(),
            duration_of(runs@.take(i as int), t) == duration_of(runs@, t),
        decreases i,
    {
        assert(runs@.take(i as int).last() == runs@[i - 1]);
        assert(runs@.take(i as int).drop_last() == runs@.take(i - 1));
        if runs[i - 1].0 == t {
            return Some(runs[i - 1].1);
        }
        i = i - 1;
    }
    None
}

// ---------------------------------------------------------------------------
// Averages

/// The average position of the entries, in whole percent.
fn percent(runs: &Vec<(i64, i64)>, es: &Vec<(i64, i64)>) -> (r: u64)
    ensures
        r == percent_of(runs@, es@),
        r <= 100,
{
    let mut sum: u128 = 0;
    let mut count: u64 = 0;
    let mut i: usize = 0;
    let len: usize = es.len();
    assert(es@.take(0) == Seq::<(i64, i64)>::empty());
    while i < len
        invariant
            i <= len,
            len == es@.len(),
            count <= i,
            sum == percent_sum(runs@, es@.take(i as int)),
            count == percent_count(runs@, es@.take(i as int)),
            sum <= 100 * count,
        decreases es@.len() - i,
    {
        let e: (i64, i64) = es[i];
        proof {
            let t = es@.take(i + 1);
            assert(t.drop_last() == es@.take(i as int));
            assert(t.last() == e);
        }
        match find_duration(runs, e.0) {
            Some(d) => {
                if d > 0 {
                    let p: u128 = if e.1 <= 0 {
                        proof {
                            assert(div_to_zero(e.1 * 100, d as int) <= 0) by {
                                if e.1 < 0 {
                                    lemma_div_pos_is_pos(-(e.1 * 100), d as int);
                                } else {
                                    assert(0int / (d as int) == 0) by (nonlinear_arith)
                                        requires
                                            d > 0,
                                    ;
                                }
                            }
                        }
                        0
                    } else {
                        let q: u128 = (e.1 as u128 * 100) / (d as u128);
                        proof {
                            lemma_div_pos_is_pos(e.1 * 100, d as int);
                        }
                        if q > 100 {
                            100
                        } else {
                            q
                        }
                    };
                    assert(p == clamp_percent(div_to_zero(e.1 * 100, d as int)));
                    sum = sum + p;
                    count = count + 1;
                }
            },
            None => {},
        }
        i = i + 1;
    }
    assert(es@.take(i as int) == es@);
    if count > 0 {
        let r: u128 = sum / (count as u128);
        assert(r <= 100) by (nonlinear_arith)
            requires
                sum <= 100 * count,
                count > 0,
                r == sum / (count as u128),
        ;
        r as u64
    } else {
        0
    }
}

/// The average time of the entries.
fn average(es: &Vec<(i64, i64)>) -> (r: i64)
    requires
        es@.len() > 0,
    ensures
        r == average_time(es@),
{
    let mut sum: i128 = 0;
    let mut i: usize = 0;
    let len: usize = es.len();
    assert(es@.take(0) == Seq::<(i64, i64)>::empty());
    while i < len
        invariant
            i <= len,
            len == es@.len(),
            sum == time_sum(es@.take(i as int)),
            -9223372036854775808 * i <= sum <= 9223372036854775807 * i,
        decreases es@.len() - i,
    {
        proof {
            let t = es@.take(i + 1);
            assert(t.drop_last() == es@.take(i as int));
            assert(t.last() == es@[i as int]);
        }
        sum = sum + es[i].1 as i128;
        i = i + 1;
    }
    assert(es@.take(i as int) == es@);
    let n: u128 = len as u128;
    if sum >= 0 {
        let q: u128 = sum as u128 / n;
        assert(0 <= q <= 9223372036854775807) by (nonlinear_arith)
            requires
                0 <= sum <= 9223372036854775807 * n,
                n > 0,
                q == (sum as int) / (n as int),
        ;
        q as i64
    } else {
        let m: u128 = (-sum) as u128;
        let q: u128 = m / n;
        assert(0 <= q <= 9223372036854775808) by (nonlinear_arith)
            requires
                0 <= m <= 9223372036854775808 * n,
                n > 0,
                q == m / n,
        ;
        let k: i128 = -(q as i128);
        k as i64
    }
}

// ---------------------------------------------------------------------------
// Merging

/// The entries of `hm` are those of `m`, listed in ascending order.
pub open spec fn history_listed(
    hm: StringMap<Vec<(i64, i64)>>,
    m: Map<Seq<char>, Set<(i64, i64)>>,
) -> bool {
    &&& hm.wf()
    &&& forall|h: Seq<char>| #[trigger] m.contains_key(h) == hm@.contains_key(h)
    &&& forall|h: Seq<char>| #[trigger] m.contains_key(h) ==> pairs_listed(hm@[h]@, m[h])
}

/// Adds entries for one hash.
fn add_pairs(hm: &mut StringMap<Vec<(i64, i64)>>, hash: String, pairs: &Vec<(i64, i64)>)
    requires
        old(hm).wf(),
    ensures
        final(hm).wf(),
        forall|m: Map<Seq<char>, Set<(i64, i64)>>| #[trigger]
            history_listed(*old(hm), m) ==> history_listed(
                *final(hm),
                m.insert(hash@, pairs_at(m, hash@).union(pairs@.to_set())),
            ),
{
    let ghost before = *hm;
    let mut list: Vec<(i64, i64)> = match hm.remove(hash.as_str()) {
        Some(v) => v,
        None => Vec::new(),
    };
    let ghost start = list@;
    let mut i: usize = 0;
    proof {
        assert(pairs@.take(0).to_set() == Set::<(i64, i64)>::empty());
        assert forall|s: Set<(i64, i64)>| #[trigger] pairs_listed(start, s) implies pairs_listed(
            list@,
            s.union(pairs@.take(0).to_set()),
        ) by {
            assert(s.union(pairs@.take(0).to_set()) == s);
        }
    }
    while i < pairs.len()
        invariant
            i <= pairs@.len(),
            forall|s: Set<(i64, i64)>| #[trigger]
                pairs_listed(start, s) ==> pairs_listed(
                    list@,
                    s.union(pairs@.take(i as int).to_set()),
                ),
        decreases pairs@.len() - i,
    {
        let ghost mid = list@;
        insert_pair(&mut list, pairs[i]);
        proof {
            let a = pairs@.take(i as int);
            let b = pairs@.take(i + 1);
            assert(b == a.push(pairs@[i as int]));
            assert(b.to_set() == a.to_set().insert(pairs@[i as int])) by {
                assert forall|q: (i64, i64)| b.contains(q) == (a.contains(q) || q == pairs@[i as int]) by {
                    if a.contains(q) {
                        let k = choose|k: int| 0 <= k < a.len() && a[k] == q;
                        assert(b[k] == q);
                    }
                    if b.contains(q) {
                        let k = choose|k: int| 0 <= k < b.len() && b[k] == q;
                        if k < i {
                            assert(a[k] == q);
                        }
                    }
                    assert(b[i as int] == pairs@[i as int]);
                }
            }
            assert forall|s: Set<(i64, i64)>| #[trigger] pairs_listed(start, s) implies pairs_listed(
                list@,
                s.union(b.to_set()),
            ) by {
                assert(pairs_listed(mid, s.union(a.to_set())));
                assert(s.union(a.to_set()).insert(pairs@[i as int]) == s.union(b.to_set()));
            }
        }
        i = i + 1;
    }
    let ghost key = hash@;
    let ghost done = list;
    hm.insert(hash, list);
    proof {
        assert(pairs@.take(i as int) == pairs@);
        assert forall|m: Map<Seq<char>, Set<(i64, i64)>>| #[trigger]
            history_listed(before, m) implies history_listed(
            *hm,
            m.insert(key, pairs_at(m, key).union(pairs@.to_set())),
        ) by {
            assert(m.contains_key(key) == before@.contains_key(key));
            assert(pairs_listed(start, pairs_at(m, key)));
            let n = m.insert(key, pairs_at(m, key).union(pairs@.to_set()));
            assert forall|h: Seq<char>| #[trigger] n.contains_key(h) == hm@.contains_key(h) by {
                assert(m.contains_key(h) == before@.contains_key(h));
            }
            assert forall|h: Seq<char>| #[trigger] n.contains_key(h) implies pairs_listed(
                hm@[h]@,
                n[h],
            ) by {
                if h != key {
                    assert(m.contains_key(h));
                }
            }
        }
    }
}

/// Reads the runs and the entries of a stats file.
fn read_file(ls: &Vec<String>) -> (r: (Vec<(i64, i64)>, StringMap<Vec<(i64, i64)>>))
    ensures
        runs_listed(r.0@, file_runs(texts(ls@))),
        history_listed(r.1, file_history(texts(ls@))),
{
    let mut runs: Vec<(i64, i64)> = Vec::new();
    let mut hm: StringMap<Vec<(i64, i64)>> = StringMap::new();
    let ghost all = texts(ls@);
    let mut i: usize = 0;
    assert(all.take(0) == Seq::<Seq<char>>::empty());
    while i < ls.len()
        invariant
            i <= ls@.len(),
            all == texts(ls@),
            runs_listed(runs@, file_runs(all.take(i as int))),
            history_listed(hm, file_history(all.take(i as int))),
        decreases ls@.len() - i,
    {
        proof {
            assert(all.take(i + 1).drop_last() == all.take(i as int));
            assert(all.take(i + 1).last() == ls@[i as int]@);
        }
        let line: &str = ls[i].as_str();
        match parse_exec_header(line) {
            Some(run) => {
                insert_run(&mut runs, run.0, run.1);
            },
            None => {
                match parse_stats_hash_line(line) {
                    Some((hash, entries)) => {
                        add_pairs(&mut hm, hash, &entries);
                    },
                    None => {},
                }
            },
        }
        i = i + 1;
    }
    assert(all.take(i as int) == all);
    (runs, hm)
}

/// The entries of `v` that belong to one of `runs`.
fn keep_belonging(v: &Vec<(i64, i64)>, runs: &Vec<(i64, i64)>) -> (r: Vec<(i64, i64)>)
    ensures
        r@.to_set() == belonging(v@.to_set(), starts(runs@)),
        forall|s: Set<(i64, i64)>| #[trigger]
            pairs_listed(v@, s) ==> pairs_listed(r@, belonging(s, starts(runs@))),
{
    let ghost kept = starts(runs@);
    let mut r: Vec<(i64, i64)> = Vec::new();
    let mut i: usize = 0;
    while i < v.len()
        invariant
            i <= v@.len(),
            kept == starts(runs@),
            forall|p: (i64, i64)| #[trigger]
                r@.contains(p) == (v@.take(i as int).contains(p) && kept.contains(p.0)),
            forall|k: int| 0 <= k < r@.len() ==> v@.take(i as int).contains(#[trigger] r@[k]),
            (forall|a: int, b: int| 0 <= a < b < v@.len() ==> pair_before(#[trigger] v@[a], #[trigger] v@[b]))
                ==> (forall|a: int, b: int|
                0 <= a < b < r@.len() ==> pair_before(#[trigger] r@[a], #[trigger] r@[b])),
        decreases v@.len() - i,
    {
        let p: (i64, i64) = v[i];
        let ghost before = r@;
        let ghost a = v@.take(i as int);
        let ghost b = v@.take(i + 1);
        let keep: bool = has_start(runs, p.0);
        if keep {
            r.push(p);
        }
        proof {
            assert(b == a.push(p));
            assert(b[i as int] == p);
            assert forall|q: (i64, i64)| b.contains(q) == (a.contains(q) || q == p) by {
                if a.contains(q) {
                    let k = choose|k: int| 0 <= k < a.len() && a[k] == q;
                    assert(b[k] == q);
                }
                if b.contains(q) && q != p {
                    let k = choose|k: int| 0 <= k < b.len() && b[k] == q;
                    assert(a[k] == q);
                }
            }
            assert forall|q: (i64, i64)| #[trigger]
                r@.contains(q) == (b.contains(q) && kept.contains(q.0)) by {
                assert(before.contains(q) == (a.contains(q) && kept.contains(q.0)));
                if keep {
                    assert(r@[before.len() as int] == p);
                    if before.contains(q) {
                        let k = choose|k: int| 0 <= k < before.len() && before[k] == q;
                        assert(r@[k] == q);
                    }
                    if r@.contains(q) && q != p {
                        let k = choose|k: int| 0 <= k < r@.len() && r@[k] == q;
                        assert(before[k] == q);
                    }
                }
            }
            assert forall|k: int| 0 <= k < r@.len() implies b.contains(#[trigger] r@[k]) by {
                if k < before.len() {
                    assert(a.contains(before[k]));
                }
            }
            if forall|x: int, y: int|
                0 <= x < y < v@.len() ==> pair_before(#[trigger] v@[x], #[trigger] v@[y]) {
                assert forall|x: int, y: int| 0 <= x < y < r@.len() implies pair_before(
                    #[trigger] r@[x],
                    #[trigger] r@[y],
                ) by {
                    if y < before.len() {
                        assert(pair_before(before[x], before[y]));
                    } else {
                        assert(a.contains(before[x]));
                        let k = choose|k: int| 0 <= k < a.len() && a[k] == before[x];
                        assert(pair_before(v@[k], v@[i as int]));
                    }
                }
            }
        }
        i = i + 1;
    }
    proof {
        assert(v@.take(i as int) == v@);
        assert forall|p: (i64, i64)| r@.to_set().contains(p) == belonging(v@.to_set(), kept).contains(p) by {
            assert(r@.contains(p) == (v@.contains(p) && kept.contains(p.0)));
        }
        assert(r@.to_set() == belonging(v@.to_set(), kept));
        assert forall|s: Set<(i64, i64)>| #[trigger] pairs_listed(v@, s) implies pairs_listed(
            r@,
            belonging(s, kept),
        ) by {
            assert forall|p: (i64, i64)| #[trigger] belonging(s, kept).contains(p) == r@.contains(p) by {
                assert(s.contains(p) == v@.contains(p));
            }
        }
    }
    r
}

/// What `m` holds of the kept runs is what the old entries and the current run give.
pub open spec fn covers(
    m: Map<Seq<char>, Set<(i64, i64)>>,
    hist: Map<Seq<char>, Set<(i64, i64)>>,
    cur: Map<Seq<char>, Vec<(i64, i64)>>,
    kept: Set<i64>,
) -> bool {
    &&& forall|h: Seq<char>| #[trigger] m.contains_key(h) ==> hist.contains_key(h) || cur.contains_key(h)
    &&& forall|h: Seq<char>| belonging(#[trigger] pairs_at(m, h), kept) == pairs_kept(hist, cur, kept, h)
}

/// Adds what the current run saw, as far as it belongs to one of `runs`.
fn add_current(
    hm: &mut StringMap<Vec<(i64, i64)>>,
    cur: &StringMap<Vec<(i64, i64)>>,
    runs: &Vec<(i64, i64)>,
    Ghost(hist): Ghost<Map<Seq<char>, Set<(i64, i64)>>>,
)
    requires
        cur.wf(),
        history_listed(*old(hm), hist),
    ensures
        exists|m: Map<Seq<char>, Set<(i64, i64)>>| #[trigger]
            history_listed(*final(hm), m) && covers(m, hist, cur@, starts(runs@)),
{
    let ghost kept = starts(runs@);
    let ghost keys = cur.keys();
    let ghost mut m = hist;
    let n: usize = cur.len();
    let mut i: usize = 0;
    proof {
        cur.lemma_keys();
    }
    while i < n
        invariant
            i <= n,
            n == keys.len(),
            keys == cur.keys(),
            cur.wf(),
            kept == starts(runs@),
            hm.wf(),
            keys.no_duplicates(),
            forall|h: Seq<char>| keys.contains(h) == #[trigger] cur@.contains_key(h),
            history_listed(*hm, m),
            forall|h: Seq<char>| #[trigger] m.contains_key(h) ==> hist.contains_key(h) || cur@.contains_key(h),
            forall|h: Seq<char>|
                belonging(#[trigger] pairs_at(m, h), kept) == if keys.take(i as int).contains(h) {
                    pairs_kept(hist, cur@, kept, h)
                } else {
                    belonging(pairs_at(hist, h), kept)
                },
        decreases n - i,
    {
        let hash: String = cur.key_at(i).clone();
        let list: &Vec<(i64, i64)> = cur.value_at(i);
        let ghost key = hash@;
        let new: Vec<(i64, i64)> = keep_belonging(list, runs);
        let ghost m0 = m;
        add_pairs(hm, hash, &new);
        proof {
            m = m0.insert(key, pairs_at(m0, key).union(new@.to_set()));
            assert(keys[i as int] == key);
            assert(keys.contains(key));
            assert(cur@.contains_key(key));
            assert forall|h: Seq<char>| belonging(#[trigger] pairs_at(m, h), kept) == (if keys.take(
                i + 1,
            ).contains(h) {
                pairs_kept(hist, cur@, kept, h)
            } else {
                belonging(pairs_at(hist, h), kept)
            }) by {
                let a = keys.take(i as int);
                let b = keys.take(i + 1);
                assert(b == a.push(key));
                assert(belonging(pairs_at(m0, h), kept) == if a.contains(h) {
                    pairs_kept(hist, cur@, kept, h)
                } else {
                    belonging(pairs_at(hist, h), kept)
                });
                assert(b.contains(h) == (a.contains(h) || h == key)) by {
                    if a.contains(h) {
                        let k = choose|k: int| 0 <= k < a.len() && a[k] == h;
                        assert(b[k] == h);
                    }
                    assert(b[i as int] == key);
                    if b.contains(h) && h != key {
                        let k = choose|k: int| 0 <= k < b.len() && b[k] == h;
                        assert(a[k] == h);
                    }
                }
                if h == key {
                    assert(!a.contains(key)) by {
                        if a.contains(key) {
                            let k = choose|k: int| 0 <= k < a.len() && a[k] == key;
                            assert(keys[k] == keys[i as int]);
                        }
                    }
                    assert(new@.to_set() == belonging(current_pairs(cur@, key), kept));
                    assert(belonging(pairs_at(m, key), kept) == pairs_kept(hist, cur@, kept, key)) by {
                        assert forall|p: (i64, i64)| belonging(pairs_at(m, key), kept).contains(p)
                            == pairs_kept(hist, cur@, kept, key).contains(p) by {
                            assert(belonging(pairs_at(m0, key), kept).contains(p) == belonging(
                                pairs_at(hist, key),
                                kept,
                            ).contains(p));
                        }
                    }
                } else {
                    assert(pairs_at(m, h) == pairs_at(m0, h));
                }
            }
        }
        i = i + 1;
    }
    proof {
        assert(keys.take(i as int) == keys);
        assert forall|h: Seq<char>| belonging(#[trigger] pairs_at(m, h), kept) == pairs_kept(
            hist,
            cur@,
            kept,
            h,
        ) by {
            assert(keys.contains(h) == cur@.contains_key(h));
            if !cur@.contains_key(h) {
                assert(pairs_at(hist, h).union(current_pairs(cur@, h)) == pairs_at(hist, h));
            }
        }
        assert(history_listed(*hm, m) && covers(m, hist, cur@, kept));
    }
}

/// Appends the lines of the runs.
fn push_runs(out: &mut String, runs: &Vec<(i64, i64)>)
    ensures
        final(out)@ == old(out)@ + runs_text(runs@),
{
    let ghost before = out@;
    let mut i: usize = 0;
    proof {
        assert(runs@.take(0) == Seq::<(i64, i64)>::empty());
        assert(before + runs_text(runs@.take(0)) == before);
    }
    while i < runs.len()
        invariant
            i <= runs@.len(),
            out@ == before + runs_text(runs@.take(i as int)),
        decreases runs@.len() - i,
    {
        let ghost start = out@;
        out.append("EXEC ");
        push_i64(out, runs[i].0);
        out.append(" ");
        push_i64(out, runs[i].1);
        out.append("\nEXEC-END\n");
        proof {
            let t = runs@.take(i + 1);
            assert(t.drop_last() == runs@.take(i as int));
            assert(t.last() == runs@[i as int]);
            assert(out@ == start + run_text(runs@[i as int]));
            assert(out@ == before + runs_text(t));
        }
        i = i + 1;
    }
    assert(runs@.take(i as int) == runs@);
}

/// Appends the line of one hash.
fn push_hash(out: &mut String, runs: &Vec<(i64, i64)>, hash: &str, es: &Vec<(i64, i64)>)
    requires
        es@.len() > 0,
    ensures
        final(out)@ == old(out)@ + hash_text(runs@, (hash@, es@)),
{
    let ghost before = out@;
    out.append(hash);
    out.append(" ");
    push_u64(out, percent(runs, es));
    out.append(" ");
    push_i64(out, average(es));
    let ghost head = out@;
    let mut i: usize = 0;
    proof {
        assert(es@.take(0) == Seq::<(i64, i64)>::empty());
        assert(head + entries_text(es@.take(0)) == head);
    }
    while i < es.len()
        invariant
            i <= es@.len(),
            out@ == head + entries_text(es@.take(i as int)),
        decreases es@.len() - i,
    {
        let ghost start = out@;
        out.append(" ");
        push_i64(out, es[i].0);
        out.append(":");
        push_i64(out, es[i].1);
        proof {
            let t = es@.take(i + 1);
            assert(t.drop_last() == es@.take(i as int));
            assert(t.last() == es@[i as int]);
            assert(out@ == start + " "@ + entry_text(es@[i as int]));
            assert(out@ == head + entries_text(t));
        }
        i = i + 1;
    }
    out.append("\n");
    proof {
        assert(es@.take(i as int) == es@);
        assert(out@ == before + hash_text(runs@, (hash@, es@)));
    }
}

/// The stats file after a run that started at `exec_ts`, took `duration`, and first saw
/// the kinds of lines in `current_run` at the given times.
pub fn merge_stats_content(
    existing: &str,
    exec_ts: i64,
    duration: i64,
    current_run: &StringMap<Vec<(i64, i64)>>,
) -> (r: String)
    requires
        current_run.wf(),
    ensures
        r@ == stats_text(merged_model(existing@, exec_ts, duration, current_run@)),
{
    let ls: Vec<String> = split_lines(existing);
    let (mut runs, mut hm) = read_file(&ls);
    let ghost hist = file_history(lines(existing@));
    let ghost all_runs = file_runs(lines(existing@)).insert(exec_ts, duration);
    insert_run(&mut runs, exec_ts, duration);
    proof {
        lemma_runs_listed(runs@, all_runs);
    }
    if runs.len() > HISTORY {
        let k: usize = runs.len() - HISTORY;
        runs = runs.split_off(k);
    }
    let ghost model = merged_model(existing@, exec_ts, duration, current_run@);
    assert(runs@ == model.runs);
    let ghost kept = starts(runs@);
    add_current(&mut hm, current_run, &runs, Ghost(hist));
    let ghost m = choose|m: Map<Seq<char>, Set<(i64, i64)>>| #[trigger]
        history_listed(hm, m) && covers(m, hist, current_run@, kept);

    let mut out: String = String::new();
    push_runs(&mut out, &runs);
    assert(out@ == runs_text(runs@));
    let ghost head = out@;
    let ghost mut done: Seq<(Seq<char>, Seq<(i64, i64)>)> = Seq::empty();
    let ghost keys = hm.keys();
    let n: usize = hm.len();
    let mut i: usize = 0;
    proof {
        hm.lemma_keys();
        assert(head + hashes_text(runs@, done) == head);
    }
    while i < n
        invariant
            i <= n,
            n == keys.len(),
            keys == hm.keys(),
            hm.wf(),
            kept == starts(runs@),
            history_listed(hm, m),
            covers(m, hist, current_run@, kept),
            out@ == head + hashes_text(runs@, done),
            forall|a: int, b: int|
                0 <= a < b < done.len() ==> text_before((#[trigger] done[a]).0, (#[trigger] done[b]).0),
            forall|a: int|
                0 <= a < done.len() ==> keys.take(i as int).contains((#[trigger] done[a]).0) && hashes_kept(
                    hist,
                    current_run@,
                    kept,
                ).contains(done[a].0) && done[a].1 == entry_list(hist, current_run@, kept, done[a].0),
            forall|h: Seq<char>|
                #![trigger keys.take(i as int).contains(h)]
                keys.take(i as int).contains(h) && hashes_kept(hist, current_run@, kept).contains(h)
                    ==> exists|a: int| 0 <= a < done.len() && (#[trigger] done[a]).0 == h,
        decreases n - i,
    {
        let hash: &String = hm.key_at(i);
        let list: &Vec<(i64, i64)> = hm.value_at(i);
        let mut es: Vec<(i64, i64)> = keep_belonging(list, &runs);
        let ghost key = hash@;
        let ghost a0 = keys.take(i as int);
        let ghost b0 = keys.take(i + 1);
        let ghost before = done;
        proof {
            assert(keys[i as int] == key);
            assert(m.contains_key(key) == hm@.contains_key(key));
            assert(pairs_listed(list@, m[key]));
            assert(pairs_at(m, key) == m[key]);
            assert(pairs_listed(es@, pairs_kept(hist, current_run@, kept, key)));
            lemma_pairs_listed(es@, pairs_kept(hist, current_run@, kept, key));
            assert(b0 == a0.push(key));
            assert(b0[i as int] == key);
            assert forall|h: Seq<char>| b0.contains(h) == (#[trigger] a0.contains(h) || h == key) by {
                if a0.contains(h) {
                    let k = choose|k: int| 0 <= k < a0.len() && a0[k] == h;
                    assert(b0[k] == h);
                }
                if b0.contains(h) && h != key {
                    let k = choose|k: int| 0 <= k < b0.len() && b0[k] == h;
                    assert(a0[k] == h);
                }
            }
        }
        if es.len() > 0 {
            proof {
                assert(pairs_kept(hist, current_run@, kept, key).contains(es@[0])) by {
                    assert(es@.contains(es@[0]));
                }
                assert(hashes_kept(hist, current_run@, kept).contains(key));
            }
            if es.len() > HISTORY {
                let k: usize = es.len() - HISTORY;
                es = es.split_off(k);
            }
            assert(es@ == entry_list(hist, current_run@, kept, key));
            push_hash(&mut out, &runs, hash.as_str(), &es);
            proof {
                done = before.push((key, es@));
                assert(done.drop_last() == before);
                assert(out@ == head + hashes_text(runs@, done));
                assert forall|a: int, b: int| 0 <= a < b < done.len() implies text_before(
                    (#[trigger] done[a]).0,
                    (#[trigger] done[b]).0,
                ) by {
                    if b < before.len() {
                        assert(text_before(before[a].0, before[b].0));
                    } else {
                        assert(a0.contains(before[a].0));
                        let k = choose|k: int| 0 <= k < a0.len() && a0[k] == before[a].0;
                        assert(text_before(keys[k], keys[i as int]));
                    }
                }
                assert forall|h: Seq<char>|
                    #![trigger b0.contains(h)]
                    b0.contains(h) && hashes_kept(hist, current_run@, kept).contains(h) implies exists|
                    a: int,
                | 0 <= a < done.len() && (#[trigger] done[a]).0 == h by {
                    if h == key {
                        assert(done[before.len() as int].0 == h);
                    } else {
                        assert(a0.contains(h));
                        let a = choose|a: int| 0 <= a < before.len() && (#[trigger] before[a]).0 == h;
                        assert(done[a].0 == h);
                    }
                }
            }
        } else {
            proof {
                assert forall|h: Seq<char>|
                    #![trigger b0.contains(h)]
                    b0.contains(h) && hashes_kept(hist, current_run@, kept).contains(h) implies exists|
                    a: int,
                | 0 <= a < done.len() && (#[trigger] done[a]).0 == h by {
                    if h == key {
                        let p = choose|p: (i64, i64)|
                            pairs_kept(hist, current_run@, kept, key).contains(p);
                        assert(es@.contains(p));
                    } else {
                        assert(a0.contains(h));
                    }
                }
            }
        }
        i = i + 1;
    }
    proof {
        assert(keys.take(i as int) == keys);
        let names = done.map_values(|d: (Seq<char>, Seq<(i64, i64)>)| d.0);
        let set = hashes_kept(hist, current_run@, kept);
        assert(ascending(names)) by {
            assert forall|a: int, b: int| 0 <= a < b < names.len() implies text_before(
                #[trigger] names[a],
                #[trigger] names[b],
            ) by {
                assert(text_before(done[a].0, done[b].0));
            }
        }
        assert forall|h: Seq<char>| names.contains(h) == set.contains(h) by {
            if names.contains(h) {
                let a = choose|a: int| 0 <= a < names.len() && names[a] == h;
                assert(done[a].0 == h);
            }
            if set.contains(h) {
                let p = choose|p: (i64, i64)| pairs_kept(hist, current_run@, kept, h).contains(p);
                assert(belonging(pairs_at(m, h), kept).contains(p));
                assert(m.contains_key(h));
                assert(hm@.contains_key(h));
                assert(keys.contains(h));
                let a = choose|a: int| 0 <= a < done.len() && (#[trigger] done[a]).0 == h;
                assert(names[a] == h);
            }
        }
        lemma_ascending_listing(names, set);
        assert(done == model.hashes) by {
            assert forall|a: int| 0 <= a < done.len() implies done[a] == model.hashes[a] by {
                assert(names[a] == done[a].0);
            }
        }
    }
    out
}

// ---------------------------------------------------------------------------
// Percentages

/// The hash and the percentage that a line gives.
pub open spec fn percent_line(line: Seq<char>) -> Option<(Seq<char>, i64)> {
    let w = words(line);
    if starts_with(line, "EXEC "@) || line == "EXEC-END"@ || w.len() < 2 {
        None
    } else {
        match i64_value(w[1]) {
            Some(p) => Some((w[0], clamp_percent(p) as i64)),
            None => None,
        }
    }
}

/// The percentages that the lines of a stats file give; of two for one hash the later
/// counts.
pub open spec fn file_percents(ls: Seq<Seq<char>>) -> Map<Seq<char>, i64>
    decreases ls.len(),
{
    if ls.len() == 0 {
        Map::empty()
    } else {
        match percent_line(ls.last()) {
            Some(p) => file_percents(ls.drop_last()).insert(p.0, p.1),
            None => file_percents(ls.drop_last()),
        }
    }
}

/// The average position of each kind of output line, from a stats file.
pub fn parse_stats_percent_map(content: &str) -> (r: StringMap<i64>)
    ensures
        r.wf(),
        r@ == file_percents(lines(content@)),
{
    let ls: Vec<String> = split_lines(content);
    let mut out: StringMap<i64> = StringMap::new();
    let mut i: usize = 0;
    assert(texts(ls@).take(0) == Seq::<Seq<char>>::empty());
    while i < ls.len()
        invariant
            i <= ls@.len(),
            out.wf(),
            out@ == file_percents(texts(ls@).take(i as int)),
        decreases ls@.len() - i,
    {
        let line: &str = ls[i].as_str();
        proof {
            assert(texts(ls@).take(i + 1).drop_last() == texts(ls@).take(i as int));
            assert(texts(ls@).take(i + 1).last() == line@);
        }
        if without_prefix(line, "EXEC ").is_none() && !same(line, "EXEC-END") {
            let w: Vec<String> = split_words(line);
            assert(texts(w@).len() == w@.len());
            if w.len() >= 2 {
                assert(texts(w@)[0] == w@[0]@);
                assert(texts(w@)[1] == w@[1]@);
                match parse_i64(w[1].as_str()) {
                    Some(p) => {
                        let clamped: i64 = if p < 0 {
                            0
                        } else if p > 100 {
                            100
                        } else {
                            p
                        };
                        out.insert(w[0].clone(), clamped);
                    },
                    None => {},
                }
            }
        }
        i = i + 1;
    }
    assert(texts(ls@).take(i as int) == texts(ls@));
    out
}

} // verus!
