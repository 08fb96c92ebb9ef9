//! What holds of profiles: which one serves a command or a log, what its patterns say of a
//! line, and which of several files counts.
use crate::detect::{candidates_of, detects, first_detecting, hits, leading_tool, leads, some_compiles, some_match};
use crate::filters::{first_serving, holds_pattern, layered, names_profile, profiles_of, program_name, serves, standard_errors, standard_warnings, tool_for, CommandFilterConfig, CtConfigFile, FilterProfileFile};
use crate::levels::level_of;
use crate::order::lemma_listing;
use crate::outside::{regex_compiles, regex_matches};
use crate::strmap::{lemma_text_order, text_before, text_leq};
use crate::text::{contains_part, lower, texts, trim};
use crate::text_laws::{law_file_name, law_parts, law_stem_and_extension};
use vstd::prelude::*;

verus! {

// ---------------------------------------------------------------------------
// Patterns and levels

/// Whether a line holds one of some patterns: the text of a pattern that is not blank, without
/// the white space around it, stands somewhere in the line, be its letters small or not.
pub open spec fn mentions(line: Seq<char>, patterns: Seq<String>) -> bool {
    exists|i: int, a: Seq<char>, b: Seq<char>|
        0 <= i < patterns.len() && lower(trim(patterns[i]@)).len() > 0 && lower(line) == #[trigger] (a + lower(
            trim(patterns[i]@),
        ) + b)
}

/// A pattern is looked for everywhere in a line, and every pattern of a list is.
pub proof fn law_patterns_are_looked_for(line: Seq<char>, patterns: Seq<String>)
    ensures
        holds_pattern(lower(line), texts(patterns)) == mentions(line, patterns),
{
    let l = lower(line);
    let ps = texts(patterns);
    if holds_pattern(l, ps) {
        let i = choose|i: int|
            0 <= i < ps.len() && lower(trim(#[trigger] ps[i])).len() > 0 && contains_part(l, lower(trim(ps[i])));
        let p = lower(trim(patterns[i]@));
        law_parts(l, p);
        let (a, b) = choose|a: Seq<char>, b: Seq<char>| l == #[trigger] (a + p + b);
        assert(l == a + lower(trim(patterns[i]@)) + b);
    }
    if mentions(line, patterns) {
        let (i, a, b) = choose|i: int, a: Seq<char>, b: Seq<char>|
            0 <= i < patterns.len() && lower(trim(patterns[i]@)).len() > 0 && lower(line) == #[trigger] (a
                + lower(trim(patterns[i]@)) + b);
        let p = lower(trim(patterns[i]@));
        assert(l == a + p + b);
        law_parts(l, p);
        assert(ps[i] == patterns[i]@);
    }
}

/// A line has the first level that one of its patterns gives, from the most severe to the
/// least: fatal, error, warning, info and trace by the level patterns, then error and warning
/// by the other patterns. Each level is given exactly where one of its patterns is held and
/// none of those before it.
pub proof fn law_level_is_the_first_held(cleaned: Seq<char>, f: CommandFilterConfig)
    requires
        cleaned.len() > 0,
    ensures
        ({
            let level = level_of(cleaned, Some(&f));
            let fatal = mentions(cleaned, f.level_patterns.fatal@);
            let error = mentions(cleaned, f.level_patterns.error@);
            let warning = mentions(cleaned, f.level_patterns.warning@);
            let info = mentions(cleaned, f.level_patterns.info@);
            let trace = mentions(cleaned, f.level_patterns.trace@);
            let told = fatal || error || warning || info || trace;
            &&& fatal ==> level == 'F'
            &&& !fatal && error ==> level == 'E'
            &&& !fatal && !error && warning ==> level == 'W'
            &&& !fatal && !error && !warning && info ==> level == 'I'
            &&& !fatal && !error && !warning && !info && trace ==> level == 'T'
            &&& !told && mentions(cleaned, f.error_patterns@) ==> level == 'E'
            &&& !told && !mentions(cleaned, f.error_patterns@) && mentions(cleaned, f.warning_patterns@) ==> level
                == 'W'
            &&& !told && !mentions(cleaned, f.error_patterns@) && !mentions(cleaned, f.warning_patterns@) ==> level
                == 'U'
        }),
{
    law_patterns_are_looked_for(cleaned, f.level_patterns.fatal@);
    law_patterns_are_looked_for(cleaned, f.level_patterns.error@);
    law_patterns_are_looked_for(cleaned, f.level_patterns.warning@);
    law_patterns_are_looked_for(cleaned, f.level_patterns.info@);
    law_patterns_are_looked_for(cleaned, f.level_patterns.trace@);
    law_patterns_are_looked_for(cleaned, f.error_patterns@);
    law_patterns_are_looked_for(cleaned, f.warning_patterns@);
}

/// Without patterns of its own a profile takes `error:`, `error[`, `[error]` and
/// `build failure` for errors, and `warning:` and `[warning]` for warnings.
pub proof fn law_standard_patterns(cleaned: Seq<char>, f: CommandFilterConfig)
    requires
        cleaned.len() > 0,
        f.level_patterns.fatal@.len() == 0,
        f.level_patterns.error@.len() == 0,
        f.level_patterns.warning@.len() == 0,
        f.level_patterns.info@.len() == 0,
        f.level_patterns.trace@.len() == 0,
        texts(f.error_patterns@) == standard_errors(),
        texts(f.warning_patterns@) == standard_warnings(),
    ensures
        ({
            let l = lower(cleaned);
            let error = contains_part(l, "error:"@) || contains_part(l, "error["@) || contains_part(l, "[error]"@)
                || contains_part(l, "build failure"@);
            let warning = contains_part(l, "warning:"@) || contains_part(l, "[warning]"@);
            level_of(cleaned, Some(&f)) == if error {
                'E'
            } else if warning {
                'W'
            } else {
                'U'
            }
        }),
{
    let l = lower(cleaned);
    let es = standard_errors();
    let ws = standard_warnings();
    assert(lower(trim("error:"@)) == "error:"@ && "error:"@.len() > 0) by {
        reveal_strlit("error:");
        lemma_plain("error:"@);
    }
    assert(lower(trim("error["@)) == "error["@ && "error["@.len() > 0) by {
        reveal_strlit("error[");
        lemma_plain("error["@);
    }
    assert(lower(trim("[error]"@)) == "[error]"@ && "[error]"@.len() > 0) by {
        reveal_strlit("[error]");
        lemma_plain("[error]"@);
    }
    assert(lower(trim("build failure"@)) == "build failure"@ && "build failure"@.len() > 0) by {
        reveal_strlit("build failure");
        lemma_plain("build failure"@);
    }
    assert(lower(trim("warning:"@)) == "warning:"@ && "warning:"@.len() > 0) by {
        reveal_strlit("warning:");
        lemma_plain("warning:"@);
    }
    assert(lower(trim("[warning]"@)) == "[warning]"@ && "[warning]"@.len() > 0) by {
        reveal_strlit("[warning]");
        lemma_plain("[warning]"@);
    }
    assert(es[0] == "error:"@ && es[1] == "error["@ && es[2] == "[error]"@ && es[3] == "build failure"@);
    assert(ws[0] == "warning:"@ && ws[1] == "[warning]"@);
    assert(es.len() == 4 && ws.len() == 2);
    assert(texts(f.level_patterns.fatal@).len() == 0);
    assert(texts(f.level_patterns.error@).len() == 0);
    assert(texts(f.level_patterns.warning@).len() == 0);
    assert(texts(f.level_patterns.info@).len() == 0);
    assert(texts(f.level_patterns.trace@).len() == 0);
}

/// A text of small letters and signs, with no white space at its ends, is its own pattern.
proof fn lemma_plain(s: Seq<char>)
    requires
        s.len() > 0,
        !crate::text::is_space(s[0]),
        !crate::text::is_space(s.last()),
        forall|i: int| 0 <= i < s.len() ==> !('A' <= #[trigger] s[i] <= 'Z'),
    ensures
        lower(trim(s)) == s,
{
    crate::text::lemma_trim_of_trimmed(s);
    assert(lower(s) == s);
}

// ---------------------------------------------------------------------------
// The profile of a command

/// Whether an enabled profile goes by a name: its own, or any of its aliases.
pub open spec fn goes_by(tool: Seq<char>, filter: CommandFilterConfig, name: Seq<char>) -> bool {
    filter.enabled && (tool == name || exists|k: int|
        0 <= k < filter.aliases@.len() && (#[trigger] filter.aliases@[k])@ == name)
}

proof fn lemma_goes_by(tool: Seq<char>, filter: CommandFilterConfig, name: Seq<char>)
    ensures
        serves(tool, filter, name) == goes_by(tool, filter, name),
{
    let al = texts(filter.aliases@);
    if al.contains(name) {
        let k = choose|k: int| 0 <= k < al.len() && al[k] == name;
        assert(filter.aliases@[k]@ == name);
    }
    if exists|k: int| 0 <= k < filter.aliases@.len() && (#[trigger] filter.aliases@[k])@ == name {
        let k = choose|k: int| 0 <= k < filter.aliases@.len() && (#[trigger] filter.aliases@[k])@ == name;
        assert(al[k] == name);
    }
}

proof fn lemma_first_serving_is(
    names: Seq<Seq<char>>,
    tools: Map<Seq<char>, CommandFilterConfig>,
    name: Seq<char>,
)
    ensures
        match first_serving(names, tools, name) {
            Some(tool) => exists|k: int|
                0 <= k < names.len() && #[trigger] names[k] == tool && goes_by(tool, tools[tool], name) && forall|
                    j: int,
                |
                    0 <= j < k ==> !goes_by(#[trigger] names[j], tools[names[j]], name),
            None => forall|j: int| 0 <= j < names.len() ==> !goes_by(#[trigger] names[j], tools[names[j]], name),
        },
    decreases names.len(),
{
    if names.len() > 0 {
        let front = names.drop_last();
        lemma_first_serving_is(front, tools, name);
        lemma_goes_by(names.last(), tools[names.last()], name);
        assert(forall|j: int| 0 <= j < front.len() ==> front[j] == #[trigger] names[j]);
        match first_serving(front, tools, name) {
            Some(tool) => {
                let k = choose|k: int|
                    0 <= k < front.len() && #[trigger] front[k] == tool && goes_by(tool, tools[tool], name) && forall|
                        j: int,
                    |
                        0 <= j < k ==> !goes_by(#[trigger] front[j], tools[front[j]], name);
                assert(names[k] == tool);
                assert forall|j: int| 0 <= j < k implies !goes_by(#[trigger] names[j], tools[names[j]], name) by {
                    assert(front[j] == names[j]);
                }
            },
            None => {
                assert(names[names.len() - 1] == names.last());
                assert forall|j: int| 0 <= j < front.len() implies !goes_by(
                    #[trigger] names[j],
                    tools[names[j]],
                    name,
                ) by {
                    assert(front[j] == names[j]);
                }
            },
        }
    }
}

/// A profile is found by its name and by every one of its aliases. What is found is an
/// enabled profile that goes by the name, the first of them by the name of its tool; nothing
/// is found exactly where there is none.
pub proof fn law_profile_is_found_by_every_name(tools: Map<Seq<char>, CommandFilterConfig>, name: Seq<char>)
    requires
        tools.dom().finite(),
    ensures
        forall|tool: Seq<char>, k: int| #[trigger]
            tools.contains_key(tool) && tools[tool].enabled && 0 <= k < tools[tool].aliases@.len()
                && (#[trigger] tools[tool].aliases@[k])@ == name ==> tool_for(tools, name) is Some,
        tools.contains_key(name) && tools[name].enabled ==> tool_for(tools, name) is Some,
        match tool_for(tools, name) {
            Some(found) => {
                &&& tools.contains_key(found)
                &&& goes_by(found, tools[found], name)
                &&& forall|other: Seq<char>| #[trigger]
                    tools.contains_key(other) && goes_by(other, tools[other], name) ==> other == found || text_before(
                        found,
                        other,
                    )
            },
            None => forall|other: Seq<char>| #[trigger]
                tools.contains_key(other) ==> !goes_by(other, tools[other], name),
        },
{
    let names = tools.dom().to_sorted_seq(text_leq());
    lemma_text_order();
    lemma_listing(tools.dom(), text_leq());
    lemma_first_serving_is(names, tools, name);
    match tool_for(tools, name) {
        Some(found) => {
            let k = choose|k: int|
                0 <= k < names.len() && #[trigger] names[k] == found && goes_by(found, tools[found], name) && forall|
                    j: int,
                |
                    0 <= j < k ==> !goes_by(#[trigger] names[j], tools[names[j]], name);
            assert(names.contains(names[k]));
            assert forall|other: Seq<char>| #[trigger]
                tools.contains_key(other) && goes_by(other, tools[other], name) implies other == found
                || text_before(found, other) by {
                assert(names.contains(other));
                let j = choose|j: int| 0 <= j < names.len() && names[j] == other;
                if j > k {
                    assert((text_leq())(names[k], names[j]));
                }
            }
        },
        None => {
            assert forall|other: Seq<char>| #[trigger] tools.contains_key(other) implies !goes_by(
                other,
                tools[other],
                name,
            ) by {
                assert(names.contains(other));
                let j = choose|j: int| 0 <= j < names.len() && names[j] == other;
                assert(!goes_by(names[j], tools[names[j]], name));
            }
        },
    }
}

/// A profile alone in going by a name is the one found.
pub proof fn law_only_profile_is_found(
    tools: Map<Seq<char>, CommandFilterConfig>,
    tool: Seq<char>,
    name: Seq<char>,
)
    requires
        tools.dom().finite(),
        tools.contains_key(tool),
        goes_by(tool, tools[tool], name),
        forall|other: Seq<char>| #[trigger]
            tools.contains_key(other) && goes_by(other, tools[other], name) ==> other == tool,
    ensures
        tool_for(tools, name) == Some(tool),
{
    law_profile_is_found_by_every_name(tools, name);
}

/// The program of a command is the name of its file, wherever that lies.
pub proof fn law_program_is_the_file_name(dir: Seq<char>, name: Seq<char>)
    requires
        name.len() > 0,
        !name.contains('/'),
        name != "."@,
        name != ".."@,
    ensures
        program_name(name) == name,
        program_name(dir + seq!['/'] + name) == name,
{
    law_file_name(dir, name);
}

// ---------------------------------------------------------------------------
// Loading profiles

/// Every profile file with a name counts, the last one for each tool.
pub proof fn law_last_profile_file_counts(files: Seq<FilterProfileFile>, tool: Seq<char>)
    ensures
        profiles_of(files).contains_key(tool) == (tool.len() > 0 && exists|i: int|
            0 <= i < files.len() && trim((#[trigger] files[i]).tool@) == tool),
        forall|i: int|
            0 <= i < files.len() && tool.len() > 0 && trim((#[trigger] files[i]).tool@) == tool && (forall|j: int|
                i < j < files.len() ==> trim((#[trigger] files[j]).tool@) != tool) ==> profiles_of(files)[tool]
                == files[i].filter,
{
    lemma_profile_known(files, tool);
    assert forall|i: int|
        0 <= i < files.len() && tool.len() > 0 && trim((#[trigger] files[i]).tool@) == tool && (forall|j: int|
            i < j < files.len() ==> trim((#[trigger] files[j]).tool@) != tool) implies profiles_of(files)[tool]
        == files[i].filter by {
        lemma_profile_at(files, tool, i);
    }
}

proof fn lemma_profile_known(files: Seq<FilterProfileFile>, tool: Seq<char>)
    ensures
        profiles_of(files).contains_key(tool) == (tool.len() > 0 && exists|i: int|
            0 <= i < files.len() && trim((#[trigger] files[i]).tool@) == tool),
    decreases files.len(),
{
    if files.len() > 0 {
        let front = files.drop_last();
        let last = files.len() - 1;
        lemma_profile_known(front, tool);
        assert(files[last] == files.last());
        if profiles_of(front).contains_key(tool) {
            let i = choose|i: int| 0 <= i < front.len() && trim((#[trigger] front[i]).tool@) == tool;
            assert(trim(files[i].tool@) == tool);
        }
        if tool.len() > 0 && exists|i: int| 0 <= i < files.len() && trim((#[trigger] files[i]).tool@) == tool {
            let i = choose|i: int| 0 <= i < files.len() && trim((#[trigger] files[i]).tool@) == tool;
            if i < last {
                assert(trim(front[i].tool@) == tool);
            }
        }
    }
}

proof fn lemma_profile_at(files: Seq<FilterProfileFile>, tool: Seq<char>, i: int)
    requires
        0 <= i < files.len(),
        tool.len() > 0,
        trim(files[i].tool@) == tool,
        forall|j: int| i < j < files.len() ==> trim((#[trigger] files[j]).tool@) != tool,
    ensures
        profiles_of(files)[tool] == files[i].filter,
    decreases files.len(),
{
    let last = files.len() - 1;
    assert(files[last] == files.last());
    if i < last {
        let front = files.drop_last();
        assert forall|j: int| i < j < front.len() implies trim((#[trigger] front[j]).tool@) != tool by {
            assert(trim(files[j].tool@) != tool);
        }
        lemma_profile_at(front, tool, i);
        assert(trim(files[last].tool@) != tool);
    }
}

/// What the user configured counts before what lies in the user's directory, and that before
/// what is built in. Nothing of any of them is lost.
pub proof fn law_nearer_profiles_count(
    embedded: Seq<FilterProfileFile>,
    dir: Seq<FilterProfileFile>,
    user: Option<CtConfigFile>,
    tool: Seq<char>,
)
    ensures
        ({
            let all = layered(embedded, dir, user);
            if user is Some && user->0.filters@.contains_key(tool) {
                all.contains_key(tool) && all[tool] == user->0.filters@[tool]
            } else if profiles_of(dir).contains_key(tool) {
                all.contains_key(tool) && all[tool] == profiles_of(dir)[tool]
            } else if profiles_of(embedded).contains_key(tool) {
                all.contains_key(tool) && all[tool] == profiles_of(embedded)[tool]
            } else {
                !all.contains_key(tool)
            }
        }),
{
}

/// A file holds a profile exactly where its name ends in `.toml` with something before it.
pub proof fn law_profile_files_end_in_toml(dir: Seq<char>, stem: Seq<char>, ext: Seq<char>)
    requires
        stem.len() > 0,
        !stem.contains('/'),
        !ext.contains('/'),
        !ext.contains('.'),
        stem + seq!['.'] + ext != ".."@,
    ensures
        names_profile(dir + seq!['/'] + (stem + seq!['.'] + ext)) == (ext == "toml"@),
{
    reveal_strlit(".");
    let name = stem + seq!['.'] + ext;
    assert(!name.contains('/')) by {
        if name.contains('/') {
            let i = choose|i: int| 0 <= i < name.len() && name[i] == '/';
            if i < stem.len() {
                assert(stem[i] == '/');
            } else if i > stem.len() {
                assert(ext[i - stem.len() - 1] == '/');
            }
        }
    }
    assert(name.len() >= 2 && "."@.len() == 1);
    law_file_name(dir, name);
    law_stem_and_extension(stem, ext);
}

// ---------------------------------------------------------------------------
// Guessing the tool

/// Whether a line shows the tool of an enabled profile: one of its patterns, any that
/// compiles, matches the line.
pub open spec fn shows(filter: CommandFilterConfig, line: Seq<char>) -> bool {
    filter.enabled && exists|k: int|
        0 <= k < filter.detection_regex@.len() && regex_compiles((#[trigger] filter.detection_regex@[k])@)
            && regex_matches(filter.detection_regex@[k]@, line)
}

/// Every pattern of an enabled profile is tried.
pub proof fn law_every_detection_pattern_is_tried(filter: CommandFilterConfig, line: Seq<char>)
    ensures
        detects(filter, line) == shows(filter, line),
{
    let ps = texts(filter.detection_regex@);
    if some_match(ps, line) {
        let i = choose|i: int|
            0 <= i < ps.len() && regex_compiles(#[trigger] ps[i]) && regex_matches(ps[i], line);
        assert(filter.detection_regex@[i]@ == ps[i]);
    }
    if shows(filter, line) {
        let k = choose|k: int|
            0 <= k < filter.detection_regex@.len() && regex_compiles((#[trigger] filter.detection_regex@[k])@)
                && regex_matches(filter.detection_regex@[k]@, line);
        assert(ps[k] == filter.detection_regex@[k]@);
    }
}

/// How many lines show the tool of a profile: every line counts once.
pub proof fn law_every_telling_line_counts(filter: CommandFilterConfig, ls: Seq<Seq<char>>)
    ensures
        hits(filter, ls) == ls.filter(|l: Seq<char>| shows(filter, l)).len(),
    decreases ls.len(),
{
    reveal(Seq::filter);
    if ls.len() > 0 {
        law_every_telling_line_counts(filter, ls.drop_last());
        law_every_detection_pattern_is_tried(filter, ls.last());
    }
}

/// The tool of a log, by its output alone, is one that no other has more lines for; among
/// equals it is the first by name. There is none exactly where no line shows any tool.
pub proof fn law_most_lines_tell_the_tool(tools: Map<Seq<char>, CommandFilterConfig>, ls: Seq<Seq<char>>)
    requires
        tools.dom().finite(),
    ensures
        match leading_tool(tools, ls) {
            Some(tool) => {
                let most = ls.filter(|l: Seq<char>| shows(tools[tool], l)).len();
                &&& tools.contains_key(tool)
                &&& most > 0
                &&& forall|other: Seq<char>| #[trigger]
                    tools.contains_key(other) ==> {
                        let n = ls.filter(|l: Seq<char>| shows(tools[other], l)).len();
                        n < most || (n == most && (other == tool || text_before(tool, other)))
                    }
            },
            None => forall|other: Seq<char>, i: int|
                tools.contains_key(other) && 0 <= i < ls.len() ==> !#[trigger] shows(tools[other], ls[i]),
        },
{
    match leading_tool(tools, ls) {
        Some(tool) => {
            assert(leads(tools, ls, tool));
            law_every_telling_line_counts(tools[tool], ls);
            assert forall|other: Seq<char>| #[trigger] tools.contains_key(other) implies {
                let n = ls.filter(|l: Seq<char>| shows(tools[other], l)).len();
                let most = ls.filter(|l: Seq<char>| shows(tools[tool], l)).len();
                n < most || (n == most && (other == tool || text_before(tool, other)))
            } by {
                law_every_telling_line_counts(tools[other], ls);
            }
        },
        None => {
            assert forall|other: Seq<char>, i: int| tools.contains_key(other) && 0 <= i < ls.len() implies !#[trigger] shows(
                tools[other],
                ls[i],
            ) by {
                if shows(tools[other], ls[i]) {
                    lemma_line_hits(tools[other], ls, i);
                    let names = tools.dom().to_sorted_seq(text_leq());
                    lemma_text_order();
                    lemma_listing(tools.dom(), text_leq());
                    assert(names.contains(other));
                    let k = choose|k: int| 0 <= k < names.len() && names[k] == other;
                    let best = lemma_leader(tools, names, ls, names.len() as int, k);
                    assert(names.contains(names[best]));
                    assert(leads(tools, ls, names[best])) by {
                        assert forall|o: Seq<char>| #[trigger] tools.contains_key(o) implies hits(tools[o], ls)
                            < hits(tools[names[best]], ls) || (hits(tools[o], ls) == hits(
                            tools[names[best]],
                            ls,
                        ) && (o == names[best] || text_before(names[best], o))) by {
                            assert(names.contains(o));
                            let j = choose|j: int| 0 <= j < names.len() && names[j] == o;
                            if j > best {
                                assert((text_leq())(names[best], names[j]));
                            }
                        }
                    }
                }
            }
        },
    }
}

proof fn lemma_line_hits(filter: CommandFilterConfig, ls: Seq<Seq<char>>, i: int)
    requires
        0 <= i < ls.len(),
        shows(filter, ls[i]),
    ensures
        hits(filter, ls) > 0,
    decreases ls.len(),
{
    law_every_detection_pattern_is_tried(filter, ls[i]);
    if i < ls.len() - 1 {
        lemma_line_hits(filter, ls.drop_last(), i);
    }
}

/// The first of the names with the most lines.
proof fn lemma_leader(
    tools: Map<Seq<char>, CommandFilterConfig>,
    names: Seq<Seq<char>>,
    ls: Seq<Seq<char>>,
    n: int,
    k: int,
) -> (best: int)
    requires
        0 <= k < n <= names.len(),
        hits(tools[names[k]], ls) > 0,
    ensures
        0 <= best < n,
        hits(tools[names[best]], ls) > 0,
        forall|j: int|
            0 <= j < n ==> hits(tools[#[trigger] names[j]], ls) < hits(tools[names[best]], ls) || (hits(
                tools[names[j]],
                ls,
            ) == hits(tools[names[best]], ls) && best <= j),
    decreases n,
{
    if n == k + 1 && (forall|j: int| 0 <= j < k ==> hits(tools[#[trigger] names[j]], ls) == 0) {
        k
    } else if n == k + 1 {
        let j = choose|j: int| 0 <= j < k && !(hits(tools[#[trigger] names[j]], ls) == 0);
        let b = lemma_leader(tools, names, ls, k, j);
        if hits(tools[names[k]], ls) > hits(tools[names[b]], ls) {
            k
        } else {
            b
        }
    } else {
        let b = lemma_leader(tools, names, ls, n - 1, k);
        if hits(tools[names[n - 1]], ls) > hits(tools[names[b]], ls) {
            n - 1
        } else {
            b
        }
    }
}

/// The tools that output may show are those with an enabled profile that has a pattern that
/// compiles, in the order of their names.
pub proof fn law_candidates(tools: Map<Seq<char>, CommandFilterConfig>)
    requires
        tools.dom().finite(),
    ensures
        forall|tool: Seq<char>| #[trigger]
            candidates_of(tools).contains(tool) == (tools.contains_key(tool) && tools[tool].enabled && exists|k: int|
                0 <= k < tools[tool].detection_regex@.len() && regex_compiles(
                    (#[trigger] tools[tool].detection_regex@[k])@,
                )),
        forall|i: int, j: int|
            0 <= i < j < candidates_of(tools).len() ==> text_before(
                #[trigger] candidates_of(tools)[i],
                #[trigger] candidates_of(tools)[j],
            ),
{
    let names = tools.dom().to_sorted_seq(text_leq());
    lemma_text_order();
    lemma_listing(tools.dom(), text_leq());
    let ok = |t: Seq<char>| tools[t].enabled && some_compiles(texts(tools[t].detection_regex@));
    let cs = candidates_of(tools);
    assert(cs == names.filter(ok));
    assert forall|tool: Seq<char>| #[trigger] cs.contains(tool) == (tools.contains_key(tool) && tools[tool].enabled
        && exists|k: int|
        0 <= k < tools[tool].detection_regex@.len() && regex_compiles((#[trigger] tools[tool].detection_regex@[k])@)) by {
        let ps = texts(tools[tool].detection_regex@);
        if cs.contains(tool) {
            names.lemma_filter_contains_rev(ok, tool);
            let i = choose|i: int| 0 <= i < cs.len() && cs[i] == tool;
            names.lemma_filter_pred(ok, i);
            assert(ok(tool));
            let k = choose|k: int| 0 <= k < ps.len() && regex_compiles(#[trigger] ps[k]);
            assert(regex_compiles(tools[tool].detection_regex@[k]@));
        }
        if tools.contains_key(tool) && tools[tool].enabled && exists|k: int|
            0 <= k < tools[tool].detection_regex@.len() && regex_compiles(
                (#[trigger] tools[tool].detection_regex@[k])@,
            ) {
            let k = choose|k: int|
                0 <= k < tools[tool].detection_regex@.len() && regex_compiles(
                    (#[trigger] tools[tool].detection_regex@[k])@,
                );
            assert(ps[k] == tools[tool].detection_regex@[k]@);
            assert(names.contains(tool));
            let i = choose|i: int| 0 <= i < names.len() && names[i] == tool;
            assert(ok(tool));
            names.lemma_filter_contains(ok, i);
        }
    }
    assert forall|i: int, j: int| 0 <= i < j < names.len() implies text_before(
        #[trigger] names[i],
        #[trigger] names[j],
    ) by {
        assert((text_leq())(names[i], names[j]));
    }
    lemma_filter_ascends(names, ok);
}

proof fn lemma_filter_ascends(s: Seq<Seq<char>>, ok: spec_fn(Seq<char>) -> bool)
    requires
        forall|i: int, j: int| 0 <= i < j < s.len() ==> text_before(#[trigger] s[i], #[trigger] s[j]),
    ensures
        forall|i: int, j: int|
            0 <= i < j < s.filter(ok).len() ==> text_before(
                #[trigger] s.filter(ok)[i],
                #[trigger] s.filter(ok)[j],
            ),
    decreases s.len(),
{
    reveal(Seq::filter);
    if s.len() > 0 {
        let t = s.drop_last();
        assert forall|i: int, j: int| 0 <= i < j < t.len() implies text_before(
            #[trigger] t[i],
            #[trigger] t[j],
        ) by {
            assert(text_before(s[i], s[j]));
        }
        lemma_filter_ascends(t, ok);
        let f = t.filter(ok);
        if ok(s.last()) {
            assert forall|i: int| 0 <= i < f.len() implies text_before(#[trigger] f[i], s.last()) by {
                assert(f.contains(f[i]));
                t.lemma_filter_contains_rev(ok, f[i]);
                let k = choose|k: int| 0 <= k < t.len() && t[k] == f[i];
                assert(text_before(s[k], s[s.len() - 1]));
            }
        }
    }
}

/// Of the tools that a line shows the first of `names` is detected.
pub proof fn law_first_shown_tool_is_detected(
    names: Seq<Seq<char>>,
    tools: Map<Seq<char>, CommandFilterConfig>,
    line: Seq<char>,
)
    ensures
        match first_detecting(names, tools, line) {
            Some(tool) => exists|k: int|
                0 <= k < names.len() && #[trigger] names[k] == tool && shows(tools[tool], line) && forall|j: int|
                    0 <= j < k ==> !shows(tools[#[trigger] names[j]], line),
            None => forall|j: int| 0 <= j < names.len() ==> !shows(tools[#[trigger] names[j]], line),
        },
    decreases names.len(),
{
    if names.len() > 0 {
        let front = names.drop_last();
        law_first_shown_tool_is_detected(front, tools, line);
        law_every_detection_pattern_is_tried(tools[names.last()], line);
        assert(forall|j: int| 0 <= j < front.len() ==> front[j] == #[trigger] names[j]);
        match first_detecting(front, tools, line) {
            Some(tool) => {
                let k = choose|k: int|
                    0 <= k < front.len() && #[trigger] front[k] == tool && shows(tools[tool], line) && forall|j: int|
                        0 <= j < k ==> !shows(tools[#[trigger] front[j]], line);
                assert(names[k] == tool);
                assert forall|j: int| 0 <= j < k implies !shows(tools[#[trigger] names[j]], line) by {
                    assert(front[j] == names[j]);
                }
            },
            None => {
                assert(names[names.len() - 1] == names.last());
                assert forall|j: int| 0 <= j < front.len() implies !shows(tools[#[trigger] names[j]], line) by {
                    assert(front[j] == names[j]);
                }
            },
        }
    }
}

} // verus!
