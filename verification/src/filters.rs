//! Filter profiles: what tells the tools apart, and which of their lines are warnings and
//! errors.
use crate::paths::{extension, extension_of, file_name, file_name_of};
use crate::strmap::{text_leq, StringMap};
use crate::text::{ascii_lower, chars_of, contains_part, has_part, lower, same, string_of, texts, trim, trimmed};
use vstd::prelude::*;

verus! {

/// How many error lines a result shows where nothing else is configured.
pub const DEFAULT_MAX_ERROR_LINES: usize = 5;

/// The patterns that tell the level of a line.
pub struct LevelPatterns {
    pub fatal: Vec<String>,
    pub error: Vec<String>,
    pub warning: Vec<String>,
    pub info: Vec<String>,
    pub trace: Vec<String>,
}

/// The profile of one tool.
pub struct CommandFilterConfig {
    pub enabled: bool,
    pub aliases: Vec<String>,
    pub warning_patterns: Vec<String>,
    pub error_patterns: Vec<String>,
    pub error_capture_patterns: Vec<String>,
    pub detection_regex: Vec<String>,
    pub level_patterns: LevelPatterns,
}

/// A profile file: the tool and its profile.
pub struct FilterProfileFile {
    pub tool: String,
    pub filter: CommandFilterConfig,
}

/// A configuration file; what it leaves out keeps its value.
pub struct CtConfigFile {
    pub max_error_lines: Option<usize>,
    pub auto_detect_log_type: Option<bool>,
    pub filters: StringMap<CommandFilterConfig>,
}

/// What the result shows.
pub struct OutputConfig {
    pub max_error_lines: usize,
}

/// The profiles by tool.
pub struct FiltersConfig {
    pub tools: StringMap<CommandFilterConfig>,
}

/// Whether the tool is guessed from the output.
pub struct HeuristicsConfig {
    pub auto_detect_log_type: bool,
}

/// The configuration of a run.
pub struct CtConfig {
    pub output: OutputConfig,
    pub filters: FiltersConfig,
    pub heuristics: HeuristicsConfig,
}

/// What log summaries need of the configuration.
pub struct LoadedProfiles {
    pub tools: StringMap<CommandFilterConfig>,
    pub auto_detect_log_type: bool,
}

// ---------------------------------------------------------------------------
// Defaults

/// The warning patterns of a profile that gives none.
pub open spec fn standard_warnings() -> Seq<Seq<char>> {
    seq!["warning:"@, "[warning]"@]
}

/// The error patterns of a profile that gives none.
pub open spec fn standard_errors() -> Seq<Seq<char>> {
    seq!["error:"@, "error["@, "[error]"@, "build failure"@]
}

/// The warning patterns of a profile that gives none.
pub fn default_warning_patterns() -> (r: Vec<String>)
    ensures
        texts(r@) == standard_warnings(),
{
    let r: Vec<String> = vec!["warning:".to_string(), "[warning]".to_string()];
    assert(texts(r@) == standard_warnings());
    r
}

/// The error patterns of a profile that gives none.
pub fn default_error_patterns() -> (r: Vec<String>)
    ensures
        texts(r@) == standard_errors(),
{
    let r: Vec<String> = vec![
        "error:".to_string(),
        "error[".to_string(),
        "[error]".to_string(),
        "build failure".to_string(),
    ];
    assert(texts(r@) == standard_errors());
    r
}

/// How many error lines a result shows where nothing else is configured.
pub fn default_max_error_lines() -> (r: usize)
    ensures
        r == DEFAULT_MAX_ERROR_LINES,
{
    DEFAULT_MAX_ERROR_LINES
}

/// Whether the tool is guessed from the output where nothing else is configured.
pub fn default_auto_detect_log_type() -> (r: bool)
    ensures
        r,
{
    true
}

/// The patterns of error lines worth showing, in a profile that gives none.
pub fn default_error_capture_patterns() -> (r: Vec<String>)
    ensures
        texts(r@) == standard_errors(),
{
    default_error_patterns()
}

impl LevelPatterns {
    /// No patterns at all.
    pub open spec fn is_none(&self) -> bool {
        &&& self.fatal@.len() == 0
        &&& self.error@.len() == 0
        &&& self.warning@.len() == 0
        &&& self.info@.len() == 0
        &&& self.trace@.len() == 0
    }
}

impl Default for LevelPatterns {
    fn default() -> (r: Self)
        ensures
            r.is_none(),
    {
        LevelPatterns {
            fatal: Vec::new(),
            error: Vec::new(),
            warning: Vec::new(),
            info: Vec::new(),
            trace: Vec::new(),
        }
    }
}

impl Default for CommandFilterConfig {
    fn default() -> (r: Self)
        ensures
            !r.enabled,
            r.aliases@.len() == 0,
            texts(r.warning_patterns@) == standard_warnings(),
            texts(r.error_patterns@) == standard_errors(),
            texts(r.error_capture_patterns@) == standard_errors(),
            r.detection_regex@.len() == 0,
            r.level_patterns.is_none(),
    {
        CommandFilterConfig {
            enabled: false,
            aliases: Vec::new(),
            warning_patterns: default_warning_patterns(),
            error_patterns: default_error_patterns(),
            error_capture_patterns: default_error_capture_patterns(),
            detection_regex: Vec::new(),
            level_patterns: LevelPatterns::default(),
        }
    }
}

impl Default for CtConfig {
    fn default() -> (r: Self)
        ensures
            r.wf(),
            r.output.max_error_lines == DEFAULT_MAX_ERROR_LINES,
            r.filters.tools@ == Map::<Seq<char>, CommandFilterConfig>::empty(),
            r.heuristics.auto_detect_log_type,
    {
        CtConfig {
            output: OutputConfig { max_error_lines: default_max_error_lines() },
            filters: FiltersConfig { tools: StringMap::new() },
            heuristics: HeuristicsConfig { auto_detect_log_type: default_auto_detect_log_type() },
        }
    }
}

impl CtConfig {
    /// The profiles are well ordered.
    pub open spec fn wf(&self) -> bool {
        self.filters.tools.wf()
    }
}

impl LoadedProfiles {
    /// The profiles are well ordered.
    pub open spec fn wf(&self) -> bool {
        self.tools.wf()
    }
}

// ---------------------------------------------------------------------------
// Loading

/// Whether a directory entry can hold a profile: its name ends in `.toml`.
pub open spec fn names_profile(path: Seq<char>) -> bool {
    match file_name_of(path) {
        Some(name) => extension_of(name) == Some("toml"@),
        None => false,
    }
}

/// Whether a directory entry can hold a profile.
pub fn is_profile_file(path: &str) -> (r: bool)
    ensures
        r == names_profile(path@),
{
    match file_name(path) {
        Some(name) => match extension(name.as_str()) {
            Some(ext) => same(ext.as_str(), "toml"),
            None => false,
        },
        None => false,
    }
}

/// The profiles by tool. The name of a tool is trimmed, one without a name is passed over,
/// and of two for one tool the later counts.
pub open spec fn profiles_of(files: Seq<FilterProfileFile>) -> Map<Seq<char>, CommandFilterConfig>
    decreases files.len(),
{
    if files.len() == 0 {
        Map::empty()
    } else {
        let m = profiles_of(files.drop_last());
        let tool = trim(files.last().tool@);
        if tool.len() == 0 {
            m
        } else {
            m.insert(tool, files.last().filter)
        }
    }
}

/// The profiles by tool.
pub fn load_filter_profiles(files: Vec<FilterProfileFile>) -> (r: StringMap<CommandFilterConfig>)
    ensures
        r.wf(),
        r@ == profiles_of(files@),
{
    let ghost all = files@;
    let mut rest: Vec<FilterProfileFile> = files;
    let mut out: StringMap<CommandFilterConfig> = StringMap::new();
    let ghost mut done: int = 0;
    assert(all.take(0) == Seq::<FilterProfileFile>::empty());
    while rest.len() > 0
        invariant
            0 <= done <= all.len(),
            rest@ == all.skip(done),
            out.wf(),
            out@ == profiles_of(all.take(done)),
        decreases rest@.len(),
    {
        let file: FilterProfileFile = rest.remove(0);
        let tool: String = trimmed(file.tool.as_str()).to_string();
        proof {
            assert(all.take(done + 1).drop_last() == all.take(done));
            assert(all.take(done + 1).last() == file);
            assert(rest@ == all.skip(done + 1));
            done = done + 1;
        }
        if !tool.as_str().is_empty() {
            out.insert(tool, file.filter);
        }
    }
    assert(all.take(done) == all);
    out
}

/// The profiles that apply: those built in, those of the user's directory in their place,
/// and those of the user's configuration in place of both.
pub open spec fn layered(
    embedded: Seq<FilterProfileFile>,
    dir: Seq<FilterProfileFile>,
    user: Option<CtConfigFile>,
) -> Map<Seq<char>, CommandFilterConfig> {
    let base = profiles_of(embedded).union_prefer_right(profiles_of(dir));
    match user {
        Some(file) => base.union_prefer_right(file.filters@),
        None => base,
    }
}

/// Whether the user's configuration is well ordered.
pub open spec fn user_wf(user: Option<CtConfigFile>) -> bool {
    user matches Some(file) ==> file.filters.wf()
}

/// The configuration of a run.
pub fn load_global_config(
    embedded: Vec<FilterProfileFile>,
    dir: Vec<FilterProfileFile>,
    user: Option<CtConfigFile>,
) -> (r: CtConfig)
    requires
        user_wf(user),
    ensures
        r.wf(),
        r.filters.tools@ == layered(embedded@, dir@, user),
        r.output.max_error_lines == match user {
            Some(file) => match file.max_error_lines {
                Some(n) => n,
                None => DEFAULT_MAX_ERROR_LINES,
            },
            None => DEFAULT_MAX_ERROR_LINES,
        },
        r.heuristics.auto_detect_log_type == match user {
            Some(file) => match file.auto_detect_log_type {
                Some(b) => b,
                None => true,
            },
            None => true,
        },
{
    let mut tools: StringMap<CommandFilterConfig> = load_filter_profiles(embedded);
    tools.absorb(load_filter_profiles(dir));
    let mut max_error_lines: usize = default_max_error_lines();
    let mut auto_detect_log_type: bool = default_auto_detect_log_type();
    if let Some(file) = user {
        if let Some(n) = file.max_error_lines {
            max_error_lines = n;
        }
        if let Some(b) = file.auto_detect_log_type {
            auto_detect_log_type = b;
        }
        tools.absorb(file.filters);
    }
    CtConfig {
        output: OutputConfig { max_error_lines },
        filters: FiltersConfig { tools },
        heuristics: HeuristicsConfig { auto_detect_log_type },
    }
}

/// What log summaries need of the configuration.
pub fn load_all_filter_profiles(
    embedded: Vec<FilterProfileFile>,
    dir: Vec<FilterProfileFile>,
    user: Option<CtConfigFile>,
) -> (r: LoadedProfiles)
    requires
        user_wf(user),
    ensures
        r.wf(),
        r.tools@ == layered(embedded@, dir@, user),
        r.auto_detect_log_type == match user {
            Some(file) => match file.auto_detect_log_type {
                Some(b) => b,
                None => true,
            },
            None => true,
        },
{
    let cfg: CtConfig = load_global_config(embedded, dir, user);
    LoadedProfiles {
        tools: cfg.filters.tools,
        auto_detect_log_type: cfg.heuristics.auto_detect_log_type,
    }
}

// ---------------------------------------------------------------------------
// Patterns

/// Whether a line, in lower case, holds one of the patterns. Patterns are trimmed and
/// compared without regard to ASCII case; an empty one matches nothing.
pub open spec fn holds_pattern(line: Seq<char>, patterns: Seq<Seq<char>>) -> bool {
    exists|i: int|
        0 <= i < patterns.len() && lower(trim(#[trigger] patterns[i])).len() > 0 && contains_part(
            line,
            lower(trim(patterns[i])),
        )
}

/// Whether a line, in lower case, holds one of the patterns.
pub fn contains_any_pattern(lower_line: &str, patterns: &Vec<String>) -> (r: bool)
    ensures
        r == holds_pattern(lower_line@, texts(patterns@)),
{
    let line: Vec<char> = chars_of(lower_line);
    let mut i: usize = 0;
    while i < patterns.len()
        invariant
            i <= patterns@.len(),
            line@ == lower_line@,
            forall|j: int|
                0 <= j < i ==> !(lower(trim(#[trigger] texts(patterns@)[j])).len() > 0 && contains_part(
                    line@,
                    lower(trim(texts(patterns@)[j])),
                )),
        decreases patterns@.len() - i,
    {
        let p: Vec<char> = ascii_lower(trimmed(patterns[i].as_str()));
        assert(texts(patterns@)[i as int] == patterns@[i as int]@);
        if p.len() > 0 && has_part(line.as_slice(), p.as_slice()) {
            return true;
        }
        i = i + 1;
    }
    false
}

/// A text in lower case.
pub fn lower_text(s: &str) -> (r: String)
    ensures
        r@ == lower(s@),
{
    let v: Vec<char> = ascii_lower(s);
    let n: usize = v.len();
    let r: String = string_of(v.as_slice(), 0, n);
    assert(r@ == v@);
    r
}

// ---------------------------------------------------------------------------
// Finding the profile of a command

/// Whether an enabled profile is that of the program `exec`: by the name of its tool or by
/// an alias.
pub open spec fn serves(tool: Seq<char>, filter: CommandFilterConfig, exec: Seq<char>) -> bool {
    filter.enabled && (tool == exec || texts(filter.aliases@).contains(exec))
}

/// The first of `names` whose profile is that of `exec`.
pub open spec fn first_serving(
    names: Seq<Seq<char>>,
    tools: Map<Seq<char>, CommandFilterConfig>,
    exec: Seq<char>,
) -> Option<Seq<char>>
    decreases names.len(),
{
    if names.len() == 0 {
        None
    } else {
        match first_serving(names.drop_last(), tools, exec) {
            Some(tool) => Some(tool),
            None => if serves(names.last(), tools[names.last()], exec) {
                Some(names.last())
            } else {
                None
            },
        }
    }
}

/// The tool whose profile is that of `exec`: the first by name, where there are several.
pub open spec fn tool_for(
    tools: Map<Seq<char>, CommandFilterConfig>,
    exec: Seq<char>,
) -> Option<Seq<char>> {
    first_serving(tools.dom().to_sorted_seq(text_leq()), tools, exec)
}

proof fn lemma_first_serving(
    names: Seq<Seq<char>>,
    tools: Map<Seq<char>, CommandFilterConfig>,
    exec: Seq<char>,
    k: int,
)
    requires
        0 <= k <= names.len(),
        first_serving(names.take(k), tools, exec) is Some,
    ensures
        first_serving(names, tools, exec) == first_serving(names.take(k), tools, exec),
    decreases names.len() - k,
{
    if k == names.len() {
        assert(names.take(k) == names);
    } else {
        assert(names.take(k + 1).drop_last() == names.take(k));
        lemma_first_serving(names, tools, exec, k + 1);
    }
}

/// Whether one of the texts is `s`.
pub fn holds_text(v: &Vec<String>, s: &str) -> (r: bool)
    ensures
        r == texts(v@).contains(s@),
{
    let mut i: usize = 0;
    while i < v.len()
        invariant
            i <= v@.len(),
            forall|j: int| 0 <= j < i ==> #[trigger] texts(v@)[j] != s@,
        decreases v@.len() - i,
    {
        assert(texts(v@)[i as int] == v@[i as int]@);
        if same(v[i].as_str(), s) {
            return true;
        }
        i = i + 1;
    }
    false
}

/// The tool whose profile is that of the program `exec`, by its position.
pub fn find_tool(tools: &StringMap<CommandFilterConfig>, exec: &str) -> (r: Option<usize>)
    requires
        tools.wf(),
    ensures
        match r {
            Some(i) => i < tools.keys().len() && tool_for(tools@, exec@) == Some(tools.keys()[i as int]),
            None => tool_for(tools@, exec@) is None,
        },
{
    let ghost names = tools.keys();
    proof {
        tools.lemma_sorted();
        assert(names.take(0) == Seq::<Seq<char>>::empty());
    }
    let n: usize = tools.len();
    let mut i: usize = 0;
    while i < n
        invariant
            i <= n,
            n == names.len(),
            names == tools.keys(),
            tools.wf(),
            names == tools@.dom().to_sorted_seq(text_leq()),
            first_serving(names.take(i as int), tools@, exec@) is None,
        decreases n - i,
    {
        let filter: &CommandFilterConfig = tools.value_at(i);
        proof {
            assert(names.take(i + 1).drop_last() == names.take(i as int));
            assert(names.take(i + 1).last() == names[i as int]);
        }
        if filter.enabled && (same(tools.key_at(i).as_str(), exec) || holds_text(&filter.aliases, exec)) {
            proof {
                lemma_first_serving(names, tools@, exec@, i + 1);
            }
            return Some(i);
        }
        i = i + 1;
    }
    assert(names.take(i as int) == names);
    None
}

/// The name of the program that a command runs.
pub open spec fn program_name(cmd: Seq<char>) -> Seq<char> {
    match file_name_of(cmd) {
        Some(name) => name,
        None => cmd,
    }
}

/// The tool that a command runs, and its profile.
pub fn command_filter_for<'a>(cmd: &str, cfg: &'a CtConfig) -> (r: Option<(&'a str, &'a CommandFilterConfig)>)
    requires
        cfg.wf(),
    ensures
        match r {
            Some((tool, filter)) => tool_for(cfg.filters.tools@, program_name(cmd@)) == Some(tool@)
                && cfg.filters.tools@.contains_key(tool@) && *filter == cfg.filters.tools@[tool@],
            None => tool_for(cfg.filters.tools@, program_name(cmd@)) is None,
        },
{
    let exec: String = match file_name(cmd) {
        Some(name) => name,
        None => cmd.to_string(),
    };
    match find_tool(&cfg.filters.tools, exec.as_str()) {
        Some(i) => {
            Some((cfg.filters.tools.key_at(i).as_str(), cfg.filters.tools.value_at(i)))
        },
        None => None,
    }
}

/// A profile that is found is enabled and is that of the program.
pub proof fn law_found_profile_serves(tools: Map<Seq<char>, CommandFilterConfig>, exec: Seq<char>)
    requires
        tools.dom().finite(),
    ensures
        match tool_for(tools, exec) {
            Some(tool) => tools.contains_key(tool) && serves(tool, tools[tool], exec),
            None => forall|tool: Seq<char>| #[trigger]
                tools.contains_key(tool) ==> !serves(tool, tools[tool], exec),
        },
{
    let names = tools.dom().to_sorted_seq(text_leq());
    crate::strmap::lemma_text_order();
    crate::order::lemma_listing(tools.dom(), text_leq());
    lemma_serving_names(names, tools, exec);
    if tool_for(tools, exec) is None {
        assert forall|tool: Seq<char>| #[trigger] tools.contains_key(tool) implies !serves(
            tool,
            tools[tool],
            exec,
        ) by {
            assert(names.contains(tool));
        }
    }
}

proof fn lemma_serving_names(
    names: Seq<Seq<char>>,
    tools: Map<Seq<char>, CommandFilterConfig>,
    exec: Seq<char>,
)
    ensures
        match first_serving(names, tools, exec) {
            Some(tool) => names.contains(tool) && serves(tool, tools[tool], exec),
            None => forall|tool: Seq<char>| #[trigger]
                names.contains(tool) ==> !serves(tool, tools[tool], exec),
        },
    decreases names.len(),
{
    if names.len() > 0 {
        let before = names.drop_last();
        lemma_serving_names(before, tools, exec);
        match first_serving(before, tools, exec) {
            Some(tool) => {
                let k = choose|k: int| 0 <= k < before.len() && before[k] == tool;
                assert(names[k] == tool);
            },
            None => {
                assert forall|tool: Seq<char>| #[trigger] names.contains(tool) && tool != names.last() implies !serves(
                    tool,
                    tools[tool],
                    exec,
                ) by {
                    let k = choose|k: int| 0 <= k < names.len() && names[k] == tool;
                    assert(before[k] == tool);
                    assert(before.contains(tool));
                }
                assert(names[names.len() - 1] == names.last());
            },
        }
    }
}

} // verus!
