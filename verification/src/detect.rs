//! Guessing the tool from its output.
use crate::filters::{CommandFilterConfig, CtConfig};
use crate::levels::{normalize_log_line, normalized, LineRules};
use crate::outside::{regex_compiles, regex_matches, Pattern};
use crate::strmap::{lemma_text_irreflexive, lemma_text_transitive, text_before, text_leq, StringMap};
use crate::text::texts;
use vstd::prelude::*;

verus! {

// ---------------------------------------------------------------------------
// Detection patterns

/// Whether one of the patterns that compile matches a line.
pub open spec fn some_match(patterns: Seq<Seq<char>>, line: Seq<char>) -> bool {
    exists|i: int|
        0 <= i < patterns.len() && regex_compiles(#[trigger] patterns[i]) && regex_matches(patterns[i], line)
}

/// Whether one of the patterns compiles.
pub open spec fn some_compiles(patterns: Seq<Seq<char>>) -> bool {
    exists|i: int| 0 <= i < patterns.len() && regex_compiles(#[trigger] patterns[i])
}

/// Whether a line shows that the tool of an enabled profile wrote it.
pub open spec fn detects(filter: CommandFilterConfig, line: Seq<char>) -> bool {
    filter.enabled && some_match(texts(filter.detection_regex@), line)
}

/// The regular expressions are those of the patterns that compile, in their order.
pub open spec fn compiled_from(regexes: Seq<Pattern>, patterns: Seq<Seq<char>>) -> bool {
    regexes.map_values(|re: Pattern| re.source()) == patterns.filter(
        |p: Seq<char>| regex_compiles(p),
    )
}

/// Compiles the patterns; one that does not compile is passed over.
pub fn compile_patterns(patterns: &Vec<String>) -> (r: Vec<Pattern>)
    ensures
        compiled_from(r@, texts(patterns@)),
{
    let ghost all = texts(patterns@);
    let ghost ok = |p: Seq<char>| regex_compiles(p);
    let ghost of = |re: Pattern| re.source();
    let mut out: Vec<Pattern> = Vec::new();
    let mut i: usize = 0;
    proof {
        reveal(Seq::filter);
        assert(all.take(0).filter(ok) == Seq::<Seq<char>>::empty());
        assert(out@.map_values(of) == all.take(0).filter(ok));
    }
    while i < patterns.len()
        invariant
            i <= patterns@.len(),
            all == texts(patterns@),
            ok == (|p: Seq<char>| regex_compiles(p)),
            of == (|re: Pattern| re.source()),
            out@.map_values(of) == all.take(i as int).filter(ok),
        decreases patterns@.len() - i,
    {
        let ghost before = out@;
        proof {
            reveal(Seq::filter);
            assert(all.take(i + 1).drop_last() == all.take(i as int));
            assert(all.take(i + 1).last() == patterns@[i as int]@);
        }
        match Pattern::compile(patterns[i].as_str()) {
            Some(re) => {
                out.push(re);
                assert(out@.map_values(of) == before.map_values(of).push(re.source()));
            },
            None => {},
        }
        i = i + 1;
    }
    assert(all.take(i as int) == all);
    out
}

/// What the compiled patterns match.
proof fn lemma_compiled(regexes: Seq<Pattern>, patterns: Seq<Seq<char>>)
    requires
        compiled_from(regexes, patterns),
    ensures
        (regexes.len() > 0) == some_compiles(patterns),
        forall|line: Seq<char>|
            (exists|i: int| 0 <= i < regexes.len() && regex_matches((#[trigger] regexes[i]).source(), line))
                == #[trigger] some_match(patterns, line),
{
    let ok = |p: Seq<char>| regex_compiles(p);
    let of = |re: Pattern| re.source();
    let fs = patterns.filter(ok);
    let ms = regexes.map_values(of);
    assert(ms == fs);
    if some_compiles(patterns) {
        let i = choose|i: int| 0 <= i < patterns.len() && regex_compiles(#[trigger] patterns[i]);
        assert(fs.contains(patterns[i]));
        let k = choose|k: int| 0 <= k < fs.len() && fs[k] == patterns[i];
        assert(regexes.len() > 0);
    }
    if regexes.len() > 0 {
        assert(fs.contains(fs[0]));
        patterns.lemma_filter_contains_rev(ok, fs[0]);
        let i = choose|i: int| 0 <= i < patterns.len() && patterns[i] == fs[0];
        assert(ok(fs[0]));
        assert(regex_compiles(patterns[i]));
    }
    assert forall|line: Seq<char>|
        (exists|i: int| 0 <= i < regexes.len() && regex_matches((#[trigger] regexes[i]).source(), line))
            == #[trigger] some_match(patterns, line) by {
        if some_match(patterns, line) {
            let i = choose|i: int|
                0 <= i < patterns.len() && regex_compiles(#[trigger] patterns[i]) && regex_matches(
                    patterns[i],
                    line,
                );
            assert(fs.contains(patterns[i]));
            let k = choose|k: int| 0 <= k < fs.len() && fs[k] == patterns[i];
            assert(regexes[k].source() == ms[k]);
        }
        if exists|i: int| 0 <= i < regexes.len() && regex_matches((#[trigger] regexes[i]).source(), line) {
            let k = choose|k: int|
                0 <= k < regexes.len() && regex_matches((#[trigger] regexes[k]).source(), line);
            assert(ms[k] == fs[k]);
            assert(fs.contains(fs[k]));
            patterns.lemma_filter_contains_rev(ok, fs[k]);
            let i = choose|i: int| 0 <= i < patterns.len() && patterns[i] == fs[k];
            assert(ok(fs[k]));
            assert(regex_compiles(patterns[i]));
        }
    }
}

/// Whether one of the regular expressions matches a line.
pub fn any_match(regexes: &Vec<Pattern>, line: &str) -> (r: bool)
    ensures
        r == (exists|i: int|
            0 <= i < regexes@.len() && regex_matches((#[trigger] regexes@[i]).source(), line@)),
{
    let mut i: usize = 0;
    while i < regexes.len()
        invariant
            i <= regexes@.len(),
            forall|j: int| 0 <= j < i ==> !regex_matches((#[trigger] regexes@[j]).source(), line@),
        decreases regexes@.len() - i,
    {
        if regexes[i].is_match(line) {
            return true;
        }
        i = i + 1;
    }
    false
}

// ---------------------------------------------------------------------------
// The tool that most lines of a log point to

/// How many of the lines show the tool of a profile.
pub open spec fn hits(filter: CommandFilterConfig, ls: Seq<Seq<char>>) -> nat
    decreases ls.len(),
{
    if ls.len() == 0 {
        0
    } else {
        hits(filter, ls.drop_last()) + if detects(filter, ls.last()) {
            1nat
        } else {
            0nat
        }
    }
}

proof fn lemma_hits_bound(filter: CommandFilterConfig, ls: Seq<Seq<char>>)
    ensures
        hits(filter, ls) <= ls.len(),
    decreases ls.len(),
{
    if ls.len() > 0 {
        lemma_hits_bound(filter, ls.drop_last());
    }
}

proof fn lemma_no_hits(filter: CommandFilterConfig, ls: Seq<Seq<char>>)
    requires
        !filter.enabled || !some_compiles(texts(filter.detection_regex@)),
    ensures
        hits(filter, ls) == 0,
    decreases ls.len(),
{
    if ls.len() > 0 {
        lemma_no_hits(filter, ls.drop_last());
        let ps = texts(filter.detection_regex@);
        assert(!detects(filter, ls.last())) by {
            if detects(filter, ls.last()) {
                let i = choose|i: int|
                    0 <= i < ps.len() && regex_compiles(#[trigger] ps[i]) && regex_matches(ps[i], ls.last());
                assert(regex_compiles(ps[i]));
            }
        }
    }
}

/// How many of the lines show the tool of a profile.
pub fn count_hits(filter: &CommandFilterConfig, ls: &Vec<String>) -> (r: usize)
    ensures
        r == hits(*filter, texts(ls@)),
{
    let ghost all = texts(ls@);
    if !filter.enabled {
        proof {
            lemma_no_hits(*filter, all);
        }
        return 0;
    }
    let regexes: Vec<Pattern> = compile_patterns(&filter.detection_regex);
    proof {
        lemma_compiled(regexes@, texts(filter.detection_regex@));
    }
    if regexes.len() == 0 {
        proof {
            lemma_no_hits(*filter, all);
        }
        return 0;
    }
    let n: usize = ls.len();
    let mut count: usize = 0;
    let mut i: usize = 0;
    assert(all.take(0) == Seq::<Seq<char>>::empty());
    while i < n
        invariant
            i <= n,
            n == ls@.len(),
            all == texts(ls@),
            filter.enabled,
            forall|line: Seq<char>|
                (exists|k: int| 0 <= k < regexes@.len() && regex_matches((#[trigger] regexes@[k]).source(), line))
                    == #[trigger] some_match(texts(filter.detection_regex@), line),
            count == hits(*filter, all.take(i as int)),
            count <= i,
        decreases n - i,
    {
        let line: &str = ls[i].as_str();
        proof {
            assert(all.take(i + 1).drop_last() == all.take(i as int));
            assert(all.take(i + 1).last() == line@);
            assert(detects(*filter, line@) == some_match(texts(filter.detection_regex@), line@));
        }
        if any_match(&regexes, line) {
            count = count + 1;
        }
        i = i + 1;
    }
    assert(all.take(i as int) == all);
    count
}

/// The first position of the largest count, where that is not zero.
pub fn first_largest(counts: &Vec<usize>) -> (r: Option<usize>)
    ensures
        match r {
            Some(k) => {
                &&& k < counts@.len()
                &&& counts@[k as int] > 0
                &&& forall|j: int| 0 <= j < k ==> #[trigger] counts@[j] < counts@[k as int]
                &&& forall|j: int| k <= j < counts@.len() ==> #[trigger] counts@[j] <= counts@[k as int]
            },
            None => forall|j: int| 0 <= j < counts@.len() ==> #[trigger] counts@[j] == 0,
        },
{
    let mut best: Option<usize> = None;
    let mut i: usize = 0;
    while i < counts.len()
        invariant
            i <= counts@.len(),
            match best {
                Some(k) => {
                    &&& k < i
                    &&& counts@[k as int] > 0
                    &&& forall|j: int| 0 <= j < k ==> #[trigger] counts@[j] < counts@[k as int]
                    &&& forall|j: int| k <= j < i ==> #[trigger] counts@[j] <= counts@[k as int]
                },
                None => forall|j: int| 0 <= j < i ==> #[trigger] counts@[j] == 0,
            },
        decreases counts@.len() - i,
    {
        match best {
            Some(k) => {
                if counts[i] > counts[k] {
                    best = Some(i);
                }
            },
            None => {
                if counts[i] > 0 {
                    best = Some(i);
                }
            },
        }
        i = i + 1;
    }
    best
}

/// Whether `tool` is the one that most lines point to, the first by name among equals.
pub open spec fn leads(
    tools: Map<Seq<char>, CommandFilterConfig>,
    ls: Seq<Seq<char>>,
    tool: Seq<char>,
) -> bool {
    &&& tools.contains_key(tool)
    &&& hits(tools[tool], ls) > 0
    &&& forall|other: Seq<char>| #[trigger]
        tools.contains_key(other) ==> hits(tools[other], ls) < hits(tools[tool], ls) || (hits(
            tools[other],
            ls,
        ) == hits(tools[tool], ls) && (other == tool || text_before(tool, other)))
}

/// The tool that most lines point to; none where no line points to any.
pub open spec fn leading_tool(
    tools: Map<Seq<char>, CommandFilterConfig>,
    ls: Seq<Seq<char>>,
) -> Option<Seq<char>> {
    if exists|tool: Seq<char>| leads(tools, ls, tool) {
        Some(choose|tool: Seq<char>| leads(tools, ls, tool))
    } else {
        None
    }
}

/// At most one tool leads.
proof fn lemma_one_leads(
    tools: Map<Seq<char>, CommandFilterConfig>,
    ls: Seq<Seq<char>>,
    a: Seq<char>,
    b: Seq<char>,
)
    requires
        leads(tools, ls, a),
        leads(tools, ls, b),
    ensures
        a == b,
{
    if a != b {
        assert(tools.contains_key(a) && tools.contains_key(b));
        lemma_text_transitive(a, b, a);
        lemma_text_irreflexive(a);
    }
}

/// The tool that most lines point to, by its position.
pub fn detect_tool(tools: &StringMap<CommandFilterConfig>, ls: &Vec<String>) -> (r: Option<usize>)
    requires
        tools.wf(),
    ensures
        match r {
            Some(i) => i < tools.keys().len() && leading_tool(tools@, texts(ls@)) == Some(
                tools.keys()[i as int],
            ),
            None => leading_tool(tools@, texts(ls@)) is None,
        },
{
    let ghost names = tools.keys();
    let ghost all = texts(ls@);
    let n: usize = tools.len();
    let mut counts: Vec<usize> = Vec::new();
    let mut i: usize = 0;
    proof {
        tools.lemma_keys();
    }
    while i < n
        invariant
            i <= n,
            n == names.len(),
            names == tools.keys(),
            all == texts(ls@),
            tools.wf(),
            counts@.len() == i,
            forall|j: int| 0 <= j < i ==> #[trigger] counts@[j] == hits(tools@[names[j]], all),
        decreases n - i,
    {
        counts.push(count_hits(tools.value_at(i), ls));
        i = i + 1;
    }
    let best: Option<usize> = first_largest(&counts);
    proof {
        match best {
            Some(k) => {
                let tool = names[k as int];
                assert(leads(tools@, all, tool)) by {
                    assert(tools@.contains_key(tool));
                    assert(counts@[k as int] == hits(tools@[tool], all));
                    assert forall|other: Seq<char>| #[trigger] tools@.contains_key(other) implies hits(
                        tools@[other],
                        all,
                    ) < hits(tools@[tool], all) || (hits(tools@[other], all) == hits(tools@[tool], all) && (
                    other == tool || text_before(tool, other))) by {
                        assert(names.contains(other));
                        let j = choose|j: int| 0 <= j < names.len() && names[j] == other;
                        assert(counts@[j] == hits(tools@[other], all));
                        if j > k {
                            assert(text_before(names[k as int], names[j]));
                        }
                    }
                }
                let chosen = choose|t: Seq<char>| leads(tools@, all, t);
                lemma_one_leads(tools@, all, tool, chosen);
            },
            None => {
                assert forall|t: Seq<char>| !leads(tools@, all, t) by {
                    if leads(tools@, all, t) {
                        assert(names.contains(t));
                        let j = choose|j: int| 0 <= j < names.len() && names[j] == t;
                        assert(counts@[j] == hits(tools@[t], all));
                    }
                }
            },
        }
    }
    best
}

// ---------------------------------------------------------------------------
// The tool that the first telling line of a run points to

/// A tool that the output may show.
pub struct HeuristicCandidate<'a> {
    pub tool: &'a str,
    pub filter: &'a CommandFilterConfig,
    regexes: Vec<Pattern>,
}

/// Watches the lines of a run for the first that shows its tool.
pub struct HeuristicDetector<'a> {
    tools: &'a StringMap<CommandFilterConfig>,
    candidates: Vec<HeuristicCandidate<'a>>,
    selected: Option<usize>,
}

/// The names of the tools that the output may show, among the first of `names`.
pub open spec fn candidate_names(
    names: Seq<Seq<char>>,
    tools: Map<Seq<char>, CommandFilterConfig>,
) -> Seq<Seq<char>> {
    names.filter(
        |t: Seq<char>| tools[t].enabled && some_compiles(texts(tools[t].detection_regex@)),
    )
}

/// The tools that the output may show, in order of their names.
pub open spec fn candidates_of(tools: Map<Seq<char>, CommandFilterConfig>) -> Seq<Seq<char>> {
    candidate_names(tools.dom().to_sorted_seq(text_leq()), tools)
}

/// The first of `names` whose profile detects a line.
pub open spec fn first_detecting(
    names: Seq<Seq<char>>,
    tools: Map<Seq<char>, CommandFilterConfig>,
    line: Seq<char>,
) -> Option<Seq<char>>
    decreases names.len(),
{
    if names.len() == 0 {
        None
    } else {
        match first_detecting(names.drop_last(), tools, line) {
            Some(tool) => Some(tool),
            None => if detects(tools[names.last()], line) {
                Some(names.last())
            } else {
                None
            },
        }
    }
}

proof fn lemma_first_detecting(
    names: Seq<Seq<char>>,
    tools: Map<Seq<char>, CommandFilterConfig>,
    line: Seq<char>,
    k: int,
)
    requires
        0 <= k <= names.len(),
        first_detecting(names.take(k), tools, line) is Some,
    ensures
        first_detecting(names, tools, line) == first_detecting(names.take(k), tools, line),
    decreases names.len() - k,
{
    if k == names.len() {
        assert(names.take(k) == names);
    } else {
        assert(names.take(k + 1).drop_last() == names.take(k));
        lemma_first_detecting(names, tools, line, k + 1);
    }
}

/// The tool that a cleaned line shows, where none was detected before.
pub open spec fn shown_tool(
    names: Seq<Seq<char>>,
    tools: Map<Seq<char>, CommandFilterConfig>,
    choice: Option<Seq<char>>,
    cleaned: Seq<char>,
) -> Option<Seq<char>> {
    if choice is Some || cleaned.len() == 0 {
        None
    } else {
        first_detecting(names, tools, cleaned)
    }
}

/// The tool detected, after a line that shows `shown`.
pub open spec fn later_choice(choice: Option<Seq<char>>, shown: Option<Seq<char>>) -> Option<Seq<char>> {
    match shown {
        Some(tool) => Some(tool),
        None => choice,
    }
}

/// The tool detected, after some lines of output and none before them.
pub open spec fn choice_after(
    names: Seq<Seq<char>>,
    tools: Map<Seq<char>, CommandFilterConfig>,
    ls: Seq<Seq<char>>,
) -> Option<Seq<char>>
    decreases ls.len(),
{
    if ls.len() == 0 {
        None
    } else {
        let choice = choice_after(names, tools, ls.drop_last());
        later_choice(choice, shown_tool(names, tools, choice, normalized(ls.last())))
    }
}

/// What is detected at line `i` of some lines of output, with none detected before them.
pub open spec fn detected_at(
    names: Seq<Seq<char>>,
    tools: Map<Seq<char>, CommandFilterConfig>,
    ls: Seq<Seq<char>>,
    i: int,
) -> Option<Seq<char>> {
    shown_tool(names, tools, choice_after(names, tools, ls.take(i)), normalized(ls[i]))
}

/// Whether a line of output shows the tool of one of `names`.
pub open spec fn line_shows(
    names: Seq<Seq<char>>,
    tools: Map<Seq<char>, CommandFilterConfig>,
    line: Seq<char>,
) -> bool {
    normalized(line).len() > 0 && exists|k: int|
        0 <= k < names.len() && detects(tools[#[trigger] names[k]], normalized(line))
}

proof fn lemma_first_detecting_is(
    names: Seq<Seq<char>>,
    tools: Map<Seq<char>, CommandFilterConfig>,
    line: Seq<char>,
)
    ensures
        match first_detecting(names, tools, line) {
            Some(tool) => names.contains(tool) && detects(tools[tool], line),
            None => forall|k: int| 0 <= k < names.len() ==> !detects(tools[#[trigger] names[k]], line),
        },
    decreases names.len(),
{
    if names.len() > 0 {
        let front = names.drop_last();
        lemma_first_detecting_is(front, tools, line);
        assert(forall|k: int| 0 <= k < front.len() ==> front[k] == #[trigger] names[k]);
        assert(names[names.len() - 1] == names.last());
        match first_detecting(front, tools, line) {
            Some(tool) => {
                let k = choose|k: int| 0 <= k < front.len() && front[k] == tool;
                assert(names[k] == tool);
            },
            None => {},
        }
    }
}

proof fn lemma_choice_after(
    names: Seq<Seq<char>>,
    tools: Map<Seq<char>, CommandFilterConfig>,
    ls: Seq<Seq<char>>,
    k: int,
)
    requires
        0 <= k < ls.len(),
    ensures
        choice_after(names, tools, ls.take(k + 1)) == later_choice(
            choice_after(names, tools, ls.take(k)),
            detected_at(names, tools, ls, k),
        ),
{
    assert(ls.take(k + 1).drop_last() == ls.take(k));
    assert(ls.take(k + 1).last() == ls[k]);
}

/// As long as no line shows a tool, none is detected.
proof fn lemma_none_shown(
    names: Seq<Seq<char>>,
    tools: Map<Seq<char>, CommandFilterConfig>,
    ls: Seq<Seq<char>>,
    k: int,
)
    requires
        0 <= k <= ls.len(),
        forall|j: int| 0 <= j < k ==> !line_shows(names, tools, #[trigger] ls[j]),
    ensures
        choice_after(names, tools, ls.take(k)) is None,
    decreases k,
{
    if k > 0 {
        lemma_none_shown(names, tools, ls, k - 1);
        lemma_choice_after(names, tools, ls, k - 1);
        lemma_first_detecting_is(names, tools, normalized(ls[k - 1]));
        assert(!line_shows(names, tools, ls[k - 1]));
        match first_detecting(names, tools, normalized(ls[k - 1])) {
            Some(tool) => {
                let m = choose|m: int| 0 <= m < names.len() && names[m] == tool;
                assert(detects(tools[names[m]], normalized(ls[k - 1])));
            },
            None => {},
        }
    }
}

/// What was detected stays.
proof fn lemma_choice_stays(
    names: Seq<Seq<char>>,
    tools: Map<Seq<char>, CommandFilterConfig>,
    ls: Seq<Seq<char>>,
    from: int,
    k: int,
)
    requires
        0 <= from <= k <= ls.len(),
        choice_after(names, tools, ls.take(from)) is Some,
    ensures
        choice_after(names, tools, ls.take(k)) == choice_after(names, tools, ls.take(from)),
    decreases k - from,
{
    if k > from {
        lemma_choice_stays(names, tools, ls, from, k - 1);
        lemma_choice_after(names, tools, ls, k - 1);
    }
}

/// Over any lines of output a tool is detected at most once. The first line that shows a
/// tool detects one that it shows; before it none is detected, from there on that one stays,
/// and no other line detects anything.
pub proof fn law_tool_is_detected_once(
    names: Seq<Seq<char>>,
    tools: Map<Seq<char>, CommandFilterConfig>,
    ls: Seq<Seq<char>>,
)
    ensures
        (forall|i: int| 0 <= i < ls.len() ==> !line_shows(names, tools, #[trigger] ls[i])) ==> {
            &&& choice_after(names, tools, ls) is None
            &&& forall|k: int| 0 <= k < ls.len() ==> #[trigger] detected_at(names, tools, ls, k) is None
        },
        forall|i: int|
            0 <= i < ls.len() && line_shows(names, tools, #[trigger] ls[i]) && (forall|j: int|
                0 <= j < i ==> !line_shows(names, tools, #[trigger] ls[j])) ==> {
                &&& detected_at(names, tools, ls, i) matches Some(tool) && names.contains(tool) && detects(
                    tools[tool],
                    normalized(ls[i]),
                )
                &&& choice_after(names, tools, ls) == detected_at(names, tools, ls, i)
                &&& forall|k: int|
                    0 <= k < ls.len() && k != i ==> #[trigger] detected_at(names, tools, ls, k) is None
                &&& forall|k: int|
                    0 <= k <= ls.len() ==> #[trigger] choice_after(names, tools, ls.take(k)) == if k <= i {
                        None
                    } else {
                        detected_at(names, tools, ls, i)
                    }
            },
{
    if forall|i: int| 0 <= i < ls.len() ==> !line_shows(names, tools, #[trigger] ls[i]) {
        lemma_none_detected(names, tools, ls);
    }
    assert forall|i: int|
        0 <= i < ls.len() && line_shows(names, tools, #[trigger] ls[i]) && (forall|j: int|
            0 <= j < i ==> !line_shows(names, tools, #[trigger] ls[j])) implies {
        &&& detected_at(names, tools, ls, i) matches Some(tool) && names.contains(tool) && detects(
            tools[tool],
            normalized(ls[i]),
        )
        &&& choice_after(names, tools, ls) == detected_at(names, tools, ls, i)
        &&& forall|k: int| 0 <= k < ls.len() && k != i ==> #[trigger] detected_at(names, tools, ls, k) is None
        &&& forall|k: int|
            0 <= k <= ls.len() ==> #[trigger] choice_after(names, tools, ls.take(k)) == if k <= i {
                None
            } else {
                detected_at(names, tools, ls, i)
            }
    } by {
        lemma_detected_first(names, tools, ls, i);
    }
}

proof fn lemma_none_detected(
    names: Seq<Seq<char>>,
    tools: Map<Seq<char>, CommandFilterConfig>,
    ls: Seq<Seq<char>>,
)
    requires
        forall|i: int| 0 <= i < ls.len() ==> !line_shows(names, tools, #[trigger] ls[i]),
    ensures
        choice_after(names, tools, ls) is None,
        forall|k: int| 0 <= k < ls.len() ==> #[trigger] detected_at(names, tools, ls, k) is None,
{
    let n = ls.len() as int;
    assert(ls.take(n) == ls);
    assert forall|k: int| 0 <= k < n implies #[trigger] detected_at(names, tools, ls, k) is None by {
        lemma_none_shown(names, tools, ls, k + 1);
        lemma_choice_after(names, tools, ls, k);
    }
    lemma_none_shown(names, tools, ls, n);
}

proof fn lemma_detected_first(
    names: Seq<Seq<char>>,
    tools: Map<Seq<char>, CommandFilterConfig>,
    ls: Seq<Seq<char>>,
    i: int,
)
    requires
        0 <= i < ls.len(),
        line_shows(names, tools, ls[i]),
        forall|j: int| 0 <= j < i ==> !line_shows(names, tools, #[trigger] ls[j]),
    ensures
        detected_at(names, tools, ls, i) matches Some(tool) && names.contains(tool) && detects(
            tools[tool],
            normalized(ls[i]),
        ),
        choice_after(names, tools, ls) == detected_at(names, tools, ls, i),
        forall|k: int| 0 <= k < ls.len() && k != i ==> #[trigger] detected_at(names, tools, ls, k) is None,
        forall|k: int|
            0 <= k <= ls.len() ==> #[trigger] choice_after(names, tools, ls.take(k)) == if k <= i {
                None
            } else {
                detected_at(names, tools, ls, i)
            },
{
    let n = ls.len() as int;
    let found = detected_at(names, tools, ls, i);
    lemma_none_shown(names, tools, ls, i);
    lemma_first_detecting_is(names, tools, normalized(ls[i]));
    lemma_choice_after(names, tools, ls, i);
    assert forall|k: int| 0 <= k <= n implies #[trigger] choice_after(names, tools, ls.take(k)) == if k <= i {
        None
    } else {
        found
    } by {
        if k <= i {
            lemma_none_shown(names, tools, ls, k);
        } else {
            lemma_choice_stays(names, tools, ls, i + 1, k);
        }
    }
    assert(ls.take(n) == ls);
    assert(choice_after(names, tools, ls.take(n)) == found);
    assert forall|k: int| 0 <= k < n && k != i implies #[trigger] detected_at(names, tools, ls, k) is None by {
        lemma_choice_after(names, tools, ls, k);
        if k < i {
            assert(choice_after(names, tools, ls.take(k + 1)) is None);
        } else {
            assert(choice_after(names, tools, ls.take(k)) is Some);
        }
    }
}

impl<'a> HeuristicDetector<'a> {
    /// The names of the candidates, in order.
    pub closed spec fn names(&self) -> Seq<Seq<char>> {
        self.candidates@.map_values(|c: HeuristicCandidate<'a>| c.tool@)
    }

    /// The tool that was detected.
    pub closed spec fn choice(&self) -> Option<Seq<char>> {
        match self.selected {
            Some(k) => Some(self.candidates@[k as int].tool@),
            None => None,
        }
    }

    /// The profiles that the candidates were taken from.
    pub closed spec fn tools(&self) -> Map<Seq<char>, CommandFilterConfig> {
        self.tools@
    }

    /// Each candidate has an enabled profile and its compiled patterns.
    pub closed spec fn wf(&self) -> bool {
        let tools = self.tools@;
        &&& self.selected matches Some(k) ==> k < self.candidates@.len()
        &&& forall|i: int|
            #![trigger self.candidates@[i]]
            0 <= i < self.candidates@.len() ==> {
                let c = self.candidates@[i];
                &&& tools.contains_key(c.tool@)
                &&& *c.filter == tools[c.tool@]
                &&& c.filter.enabled
                &&& compiled_from(c.regexes@, texts(c.filter.detection_regex@))
            }
    }

    /// The candidates are tools with an enabled profile, and the tool detected is one of
    /// them.
    pub proof fn law_candidates_are_enabled(&self)
        requires
            self.wf(),
        ensures
            forall|i: int|
                0 <= i < self.names().len() ==> self.tools().contains_key(#[trigger] self.names()[i])
                    && self.tools()[self.names()[i]].enabled,
            self.choice() matches Some(tool) ==> self.names().contains(tool),
    {
        assert forall|i: int| 0 <= i < self.names().len() implies self.tools().contains_key(
            #[trigger] self.names()[i],
        ) && self.tools()[self.names()[i]].enabled by {
            assert(self.names()[i] == self.candidates@[i].tool@);
        }
        if let Some(k) = self.selected {
            assert(self.names()[k as int] == self.candidates@[k as int].tool@);
        }
    }

    /// Takes the tools that the output may show; none where guessing is off or there are
    /// no such tools.
    pub fn from_config(cfg: &'a CtConfig) -> (r: Option<Self>)
        requires
            cfg.wf(),
        ensures
            match r {
                Some(d) => {
                    &&& cfg.heuristics.auto_detect_log_type
                    &&& d.wf()
                    &&& d.tools() == cfg.filters.tools@
                    &&& d.names() == candidates_of(cfg.filters.tools@)
                    &&& d.names().len() > 0
                    &&& d.choice() is None
                },
                None => !cfg.heuristics.auto_detect_log_type || candidates_of(cfg.filters.tools@).len()
                    == 0,
            },
    {
        if !cfg.heuristics.auto_detect_log_type {
            return None;
        }
        let tools: &'a StringMap<CommandFilterConfig> = &cfg.filters.tools;
        let ghost names = tools.keys();
        let ghost map = tools@;
        let ghost ok = |t: Seq<char>| map[t].enabled && some_compiles(texts(map[t].detection_regex@));
        let ghost of = |c: HeuristicCandidate<'a>| c.tool@;
        let mut candidates: Vec<HeuristicCandidate<'a>> = Vec::new();
        let n: usize = tools.len();
        let mut i: usize = 0;
        proof {
            tools.lemma_sorted();
            tools.lemma_keys();
            reveal(Seq::filter);
            assert(names.take(0).filter(ok) == Seq::<Seq<char>>::empty());
            assert(candidates@.map_values(of) == names.take(0).filter(ok));
        }
        while i < n
            invariant
                i <= n,
                n == names.len(),
                names == tools.keys(),
                map == tools@,
                tools.wf(),
                ok == (|t: Seq<char>| map[t].enabled && some_compiles(texts(map[t].detection_regex@))),
                of == (|c: HeuristicCandidate<'a>| c.tool@),
                candidates@.map_values(of) == names.take(i as int).filter(ok),
                forall|j: int|
                    #![trigger candidates@[j]]
                    0 <= j < candidates@.len() ==> {
                        let c = candidates@[j];
                        &&& map.contains_key(c.tool@)
                        &&& *c.filter == map[c.tool@]
                        &&& c.filter.enabled
                        &&& compiled_from(c.regexes@, texts(c.filter.detection_regex@))
                    },
            decreases n - i,
        {
            let filter: &'a CommandFilterConfig = tools.value_at(i);
            let ghost before = candidates@;
            proof {
                reveal(Seq::filter);
                assert(names.take(i + 1).drop_last() == names.take(i as int));
                assert(names.take(i + 1).last() == names[i as int]);
            }
            if filter.enabled {
                let regexes: Vec<Pattern> = compile_patterns(&filter.detection_regex);
                proof {
                    lemma_compiled(regexes@, texts(filter.detection_regex@));
                }
                if regexes.len() > 0 {
                    let tool: &'a str = tools.key_at(i).as_str();
                    candidates.push(HeuristicCandidate { tool, filter, regexes });
                    assert(candidates@.map_values(of) == before.map_values(of).push(tool@));
                }
            }
            i = i + 1;
        }
        assert(names.take(i as int) == names);
        if candidates.len() == 0 {
            assert(candidates_of(map) == candidates@.map_values(of));
            return None;
        }
        Some(HeuristicDetector { tools, candidates, selected: None })
    }

    /// The profile of the tool that was detected.
    pub fn selected_filter(&self) -> (r: Option<&'a CommandFilterConfig>)
        requires
            self.wf(),
        ensures
            match self.choice() {
                Some(tool) => self.tools().contains_key(tool) && r == Some(&self.tools()[tool]),
                None => r is None,
            },
    {
        match self.selected {
            Some(k) => Some(self.candidates[k].filter),
            None => None,
        }
    }

    /// The tool that a cleaned line shows, where none was detected before.
    pub open spec fn detection(&self, cleaned: Seq<char>) -> Option<Seq<char>> {
        shown_tool(self.names(), self.tools(), self.choice(), cleaned)
    }

    /// A line is looked at only as long as no tool was detected, and a blank one never; what it
    /// shows is the first tool that it shows.
    pub proof fn law_detection(&self, cleaned: Seq<char>)
        ensures
            self.choice() is Some || cleaned.len() == 0 ==> self.detection(cleaned) is None,
            self.choice() is None && cleaned.len() > 0 ==> self.detection(cleaned) == first_detecting(
                self.names(),
                self.tools(),
                cleaned,
            ),
            later_choice(self.choice(), self.detection(cleaned)) == if self.choice() is Some {
                self.choice()
            } else {
                self.detection(cleaned)
            },
    {
    }

    /// The first candidate that a cleaned line shows, by its position.
    fn find_candidate(&self, cleaned: &str) -> (r: Option<usize>)
        requires
            self.wf(),
        ensures
            match r {
                Some(i) => i < self.names().len() && first_detecting(self.names(), self.tools(), cleaned@)
                    == Some(self.names()[i as int]),
                None => first_detecting(self.names(), self.tools(), cleaned@) is None,
            },
    {
        let ghost names = self.names();
        let ghost tools = self.tools@;
        let n: usize = self.candidates.len();
        let mut i: usize = 0;
        assert(names.take(0) == Seq::<Seq<char>>::empty());
        while i < n
            invariant
                i <= n,
                n == names.len(),
                n == self.candidates@.len(),
                self.wf(),
                names == self.names(),
                tools == self.tools@,
                first_detecting(names.take(i as int), tools, cleaned@) is None,
            decreases n - i,
        {
            let ghost c = self.candidates@[i as int];
            proof {
                assert(names.take(i + 1).drop_last() == names.take(i as int));
                assert(names.take(i + 1).last() == c.tool@);
                lemma_compiled(c.regexes@, texts(c.filter.detection_regex@));
                assert(detects(*c.filter, cleaned@) == some_match(texts(c.filter.detection_regex@), cleaned@));
            }
            if any_match(&self.candidates[i].regexes, cleaned) {
                proof {
                    lemma_first_detecting(names, tools, cleaned@, i + 1);
                }
                return Some(i);
            }
            i = i + 1;
        }
        assert(names.take(i as int) == names);
        None
    }

    /// Takes the candidate at position `hit` as the tool detected, where none was before.
    pub fn select(&mut self, hit: Option<usize>) -> (r: Option<(&'a str, &'a CommandFilterConfig)>)
        requires
            old(self).wf(),
            hit matches Some(i) ==> i < old(self).names().len(),
        ensures
            final(self).wf(),
            final(self).tools() == old(self).tools(),
            final(self).names() == old(self).names(),
            match (old(self).choice(), hit) {
                (None, Some(i)) => {
                    let tool = old(self).names()[i as int];
                    &&& r matches Some((t, f)) && t@ == tool && *f == old(self).tools()[tool]
                    &&& old(self).tools().contains_key(tool)
                    &&& final(self).choice() == Some(tool)
                },
                _ => r is None && final(self).choice() == old(self).choice(),
            },
    {
        match (self.selected, hit) {
            (None, Some(i)) => {
                assert(self.names()[i as int] == self.candidates@[i as int].tool@);
                self.selected = Some(i);
                Some((self.candidates[i].tool, self.candidates[i].filter))
            },
            _ => None,
        }
    }

    /// Looks at a cleaned line, where no tool was detected before; the first tool that it
    /// shows is the one detected from there on.
    pub fn detect_cleaned(&mut self, cleaned: &str) -> (r: Option<(&'a str, &'a CommandFilterConfig)>)
        requires
            old(self).wf(),
        ensures
            final(self).wf(),
            final(self).tools() == old(self).tools(),
            final(self).names() == old(self).names(),
            final(self).choice() == later_choice(old(self).choice(), old(self).detection(cleaned@)),
            match r {
                Some((tool, filter)) => {
                    &&& old(self).detection(cleaned@) == Some(tool@)
                    &&& old(self).tools().contains_key(tool@)
                    &&& *filter == old(self).tools()[tool@]
                },
                None => old(self).detection(cleaned@) is None,
            },
    {
        if self.selected.is_some() || cleaned.is_empty() {
            return None;
        }
        let hit: Option<usize> = self.find_candidate(cleaned);
        self.select(hit)
    }

    /// Looks at a line of output.
    pub fn detect_line_if_needed(
        &mut self,
        rules: &LineRules,
        line: &str,
    ) -> (r: Option<(&'a str, &'a CommandFilterConfig)>)
        requires
            old(self).wf(),
            rules.wf(),
        ensures
            final(self).wf(),
            final(self).tools() == old(self).tools(),
            final(self).names() == old(self).names(),
            final(self).choice() == later_choice(old(self).choice(), old(self).detection(normalized(line@))),
            match r {
                Some((tool, filter)) => {
                    &&& old(self).detection(normalized(line@)) == Some(tool@)
                    &&& old(self).tools().contains_key(tool@)
                    &&& *filter == old(self).tools()[tool@]
                },
                None => old(self).detection(normalized(line@)) is None,
            },
    {
        if self.selected.is_some() {
            return None;
        }
        let cleaned: String = normalize_log_line(rules, line);
        self.detect_cleaned(cleaned.as_str())
    }
}

} // verus!
