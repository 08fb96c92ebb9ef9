//! How a command is run: what is decided before it starts and after it has ended.
use crate::capture::{CaptureContext, CaptureModel, CaptureState};
use crate::detect::{candidates_of, HeuristicDetector};
use crate::filters::{command_filter_for, lower_text, program_name, tool_for, CommandFilterConfig, CtConfig};
use crate::render::{compact_result, format_compact_header, format_elapsed, level_stats_line, render_header, result_text, running_text, spinner_at, spinner_frame, stats_line_text, CompactHeader};
use crate::strmap::StringMap;
use crate::tally::{no_lines, no_summary, SummaryCounts};
use crate::text::{lower, opt_str, opt_text, same, texts, trim, trimmed};
use vstd::prelude::*;

verus! {

/// After how many seconds a run that goes on becomes a compact one.
pub const ADAPTIVE_COMPACT_AFTER_SECS: u64 = 2;

// ---------------------------------------------------------------------------
// Before the start

/// Whether the environment lets long runs become compact ones; it does where nothing is
/// said.
pub open spec fn adaptive_allowed(value: Option<Seq<char>>) -> bool {
    match value {
        Some(v) => {
            let word = lower(trim(v));
            word != "0"@ && word != "false"@ && word != "no"@ && word != "off"@
        },
        None => true,
    }
}

/// Whether the environment lets long runs become compact ones.
pub fn adaptive_compact_enabled(value: Option<&str>) -> (r: bool)
    ensures
        r == adaptive_allowed(opt_str(value)),
{
    match value {
        Some(v) => {
            let word: String = lower_text(trimmed(v));
            !same(word.as_str(), "0") && !same(word.as_str(), "false") && !same(word.as_str(), "no") && !same(
                word.as_str(),
                "off",
            )
        },
        None => true,
    }
}

/// A run that is about to start. `tool` is the tool of its command; a run is compact from
/// the start, or may become so; while nothing is shown yet a spinner turns, and a compact
/// run shows a line.
pub struct PreparedRun<'a> {
    pub tool: Option<&'a str>,
    pub compact_mode: bool,
    pub adaptive: bool,
    pub spinner: bool,
    pub renderer: bool,
    pub state: CaptureState<'a>,
}

/// Whether a run is compact from the start: because that was asked for, or because there is
/// a profile for its command.
pub open spec fn starts_compact(force: bool, tool: Option<Seq<char>>) -> bool {
    force || tool is Some
}

/// What stays the same during the run of a command.
pub open spec fn run_context(cfg: CtConfig, cmd: Seq<char>, history: Map<Seq<char>, i64>) -> CaptureContext {
    let tools = cfg.filters.tools@;
    let tool = tool_for(tools, program_name(cmd));
    let guesses = tool is None && cfg.heuristics.auto_detect_log_type && candidates_of(tools).len() > 0;
    CaptureContext {
        filter: match tool {
            Some(t) => Some(tools[t]),
            None => None,
        },
        guesses,
        names: if guesses {
            candidates_of(tools)
        } else {
            Seq::empty()
        },
        tools: if guesses {
            tools
        } else {
            Map::empty()
        },
        max_error_lines: cfg.output.max_error_lines as int,
        history: if history == Map::<Seq<char>, i64>::empty() {
            None
        } else {
            Some(history)
        },
    }
}

/// A run that starts.
pub open spec fn fresh_run(compact: bool, adaptive: bool, sums_up: bool) -> CaptureModel {
    CaptureModel {
        running: true,
        had_output: false,
        passthrough: !compact && !adaptive,
        buffering: adaptive,
        compact,
        buffered: Seq::empty(),
        choice: None,
        tail: Seq::empty(),
        counts: no_lines(),
        summary: if sums_up {
            Some(no_summary())
        } else {
            None
        },
    }
}

/// Prepares the run of a command, on a terminal or not.
pub fn prepare_run<'a>(
    cfg: &'a CtConfig,
    cmd: &str,
    history: StringMap<i64>,
    force_compact: bool,
    interactive_tty: bool,
    adaptive_env: Option<&str>,
) -> (r: PreparedRun<'a>)
    requires
        cfg.wf(),
        history.wf(),
    ensures
        opt_str(r.tool) == tool_for(cfg.filters.tools@, program_name(cmd@)),
        r.compact_mode == starts_compact(force_compact, opt_str(r.tool)),
        r.adaptive == (interactive_tty && !r.compact_mode && adaptive_allowed(opt_str(adaptive_env))),
        r.spinner == (interactive_tty && !r.compact_mode),
        r.renderer == interactive_tty,
        r.state.wf(),
        r.state.context() == run_context(*cfg, cmd@, history@),
        r.state.model() == fresh_run(
            r.compact_mode,
            r.adaptive,
            r.tool is Some || run_context(*cfg, cmd@, history@).guesses,
        ),
{
    let active: Option<(&'a str, &'a CommandFilterConfig)> = command_filter_for(cmd, cfg);
    let (tool, filter): (Option<&'a str>, Option<&'a CommandFilterConfig>) = match active {
        Some((t, f)) => (Some(t), Some(f)),
        None => (None, None),
    };
    let detector: Option<HeuristicDetector<'a>> = if filter.is_none() {
        HeuristicDetector::from_config(cfg)
    } else {
        None
    };
    let ghost percents = history@;
    let known: Option<StringMap<i64>> = if history.is_empty() {
        None
    } else {
        Some(history)
    };
    let compact_mode: bool = force_compact || filter.is_some();
    let adaptive: bool = interactive_tty && !compact_mode && adaptive_compact_enabled(adaptive_env);
    let state: CaptureState<'a> = CaptureState::new(
        filter,
        detector,
        cfg.output.max_error_lines,
        known,
        compact_mode,
        adaptive,
    );
    PreparedRun {
        tool,
        compact_mode,
        adaptive,
        spinner: interactive_tty && !compact_mode,
        renderer: interactive_tty,
        state,
    }
}

// ---------------------------------------------------------------------------
// While it goes on

/// The line of a run that goes on, where it is a compact one. The spinner has turned
/// `turns` times, and the run has taken `secs` seconds.
pub fn running_line(state: &CaptureState, turns: u64, pid: u32, command: &str, secs: u64) -> (r: Option<String>)
    requires
        state.wf(),
    ensures
        opt_text(r) == if state.model().compact {
            Some(running_text(state.model().counts, turns as int, pid as int, command@, secs as int))
        } else {
            None
        },
{
    if !state.is_compact() {
        return None;
    }
    let elapsed: String = format_elapsed(secs);
    let header: CompactHeader = format_compact_header(
        spinner_frame(turns),
        pid,
        command,
        elapsed.as_str(),
        state.stats(),
    );
    Some(render_header(&header))
}

/// The line with the spinner, where the run goes on, is not a compact one, and has not
/// shown anything.
pub fn spinner_line(state: &CaptureState, turns: u64, label: &str) -> (r: Option<String>)
    requires
        state.wf(),
    ensures
        opt_text(r) == if state.model().running && !state.model().had_output && !state.model().compact {
            Some(seq![spinner_at(turns as int)] + " Running "@ + label@)
        } else {
            None
        },
{
    if !state.is_running() || state.has_output() || state.is_compact() {
        return None;
    }
    let mut out: String = String::new();
    out.push(spinner_frame(turns));
    out.append(" Running ");
    out.append(label);
    assert(out@ == seq![spinner_at(turns as int)] + " Running "@ + label@);
    Some(out)
}

// ---------------------------------------------------------------------------
// After the end

/// What is shown when a run has ended: the lines of the result of a compact run; or the
/// output that was kept back; and the counts, where they were asked for.
pub struct RunResult {
    pub lines: Vec<String>,
    pub replay: bool,
    pub stats_line: Option<String>,
}

/// What is shown when a run has ended.
pub fn finish_run(state: &CaptureState, code: i32, show_stats: bool) -> (r: RunResult)
    requires
        state.wf(),
    ensures
        texts(r.lines@) == if state.model().compact {
            result_text(code as int, state.model().summary, state.context().max_error_lines)
        } else {
            Seq::empty()
        },
        r.replay == (!state.model().compact && state.model().buffering),
        opt_text(r.stats_line) == if show_stats {
            Some(stats_line_text(state.model().counts))
        } else {
            None
        },
{
    let lines: Vec<String> = if state.is_compact() {
        compact_result(code, state.summary(), state.max_error_lines())
    } else {
        let none: Vec<String> = Vec::new();
        assert(texts(none@) == Seq::<Seq<char>>::empty());
        none
    };
    let stats_line: Option<String> = if show_stats {
        Some(level_stats_line(state.stats()))
    } else {
        None
    };
    RunResult { lines, replay: !state.is_compact() && state.keeps_back(), stats_line }
}

/// A result tells success exactly where the exit code is zero.
pub proof fn law_result_tells_success(code: int, summary: Option<SummaryCounts>, max: int)
    requires
        max >= 0,
    ensures
        result_text(code, summary, max).len() > 0,
        code != 0 ==> result_text(code, summary, max)[0] == "FAILED"@,
        code == 0 ==> result_text(code, summary, max).len() == 1,
        code == 0 ==> crate::text::starts_with(result_text(code, summary, max)[0], "SUCCESS"@),
        code != 0 ==> result_text(code, summary, max).len() <= max + 1,
{
    reveal_strlit("SUCCESS (");
    reveal_strlit("SUCCESS");
    let first = result_text(code, summary, max)[0];
    if code == 0 {
        match summary {
            Some(s) => if s.warnings > 0 {
                assert(first.take(7) == "SUCCESS"@);
            } else {
                assert("SUCCESS"@.take(7) == "SUCCESS"@);
            },
            None => {
                assert("SUCCESS"@.take(7) == "SUCCESS"@);
            },
        }
    }
}

// ---------------------------------------------------------------------------
// Exit codes and failures

/// The exit code of a process: its own, or 128 and the signal that ended it.
pub fn exit_code(code: Option<i32>, signal: Option<i32>) -> (r: i32)
    requires
        signal matches Some(s) ==> s <= i32::MAX - 128,
    ensures
        r == match (code, signal) {
            (Some(c), _) => c as int,
            (None, Some(s)) => 128 + s,
            (None, None) => 1,
        },
{
    match code {
        Some(c) => c,
        None => match signal {
            Some(s) => 128 + s,
            None => 1,
        },
    }
}

/// Why a command could not be started.
#[derive(Clone, Copy, PartialEq, Eq, Structural, Debug)]
pub enum SpawnFailure {
    NotFound,
    PermissionDenied,
    Other,
}

/// The exit code of a command that could not be started.
pub fn map_spawn_error_code(failure: SpawnFailure) -> (r: i32)
    ensures
        r == match failure {
            SpawnFailure::NotFound => 127int,
            SpawnFailure::PermissionDenied => 126int,
            SpawnFailure::Other => 1int,
        },
{
    match failure {
        SpawnFailure::NotFound => 127,
        SpawnFailure::PermissionDenied => 126,
        SpawnFailure::Other => 1,
    }
}

/// What is told of a command that could not be started; `detail` says why.
pub fn format_spawn_error(cmd: &str, failure: SpawnFailure, detail: &str) -> (r: String)
    ensures
        r@ == match failure {
            SpawnFailure::NotFound => cmd@ + ": command not found"@,
            SpawnFailure::PermissionDenied => cmd@ + ": permission denied"@,
            SpawnFailure::Other => "ct: failed to run '"@ + cmd@ + "': "@ + detail@,
        },
{
    match failure {
        SpawnFailure::NotFound => {
            let mut out: String = cmd.to_string();
            out.append(": command not found");
            out
        },
        SpawnFailure::PermissionDenied => {
            let mut out: String = cmd.to_string();
            out.append(": permission denied");
            out
        },
        SpawnFailure::Other => {
            let mut out: String = "ct: failed to run '".to_string();
            out.append(cmd);
            out.append("': ");
            out.append(detail);
            out
        },
    }
}

// ---------------------------------------------------------------------------
// Arguments

/// What the arguments ask for. The command of a run starts at `from`.
#[derive(Clone, Copy, PartialEq, Eq, Structural, Debug)]
pub enum CtAction {
    Usage,
    CompactUsage,
    StatsUsage,
    AsyncUsage,
    RunnerUsage,
    AsyncRunner,
    ShellBridge,
    Mcp,
    Cd,
    Async,
    Run { from: usize, compact: bool, stats: bool },
}

/// What the arguments ask for. After `--` comes a command, whatever its first word.
pub open spec fn action_of(args: Seq<Seq<char>>) -> CtAction {
    if args.len() == 0 {
        CtAction::Usage
    } else if args[0] == "--async-runner"@ {
        if args.len() < 3 {
            CtAction::RunnerUsage
        } else {
            CtAction::AsyncRunner
        }
    } else if args[0] == "--shell-bridge"@ {
        CtAction::ShellBridge
    } else if args[0] == "--compact"@ || args[0] == "-c"@ {
        if args.len() < 2 {
            CtAction::CompactUsage
        } else {
            CtAction::Run { from: 1, compact: true, stats: false }
        }
    } else if args[0] == "--stats"@ {
        if args.len() < 2 {
            CtAction::StatsUsage
        } else {
            CtAction::Run { from: 1, compact: false, stats: true }
        }
    } else if args[0] == "--"@ {
        if args.len() < 2 {
            CtAction::Usage
        } else {
            CtAction::Run { from: 1, compact: false, stats: false }
        }
    } else if args[0] == "--help"@ {
        CtAction::Usage
    } else if args[0] == "mcp"@ {
        CtAction::Mcp
    } else if args[0] == "cd"@ {
        CtAction::Cd
    } else if args[0] == "-a"@ {
        if args.len() < 2 {
            CtAction::AsyncUsage
        } else {
            CtAction::Async
        }
    } else {
        CtAction::Run { from: 0, compact: false, stats: false }
    }
}

/// What the arguments ask for.
pub fn parse_args(args: &[String]) -> (r: CtAction)
    ensures
        r == action_of(texts(args@)),
{
    assert(texts(args@).len() == args@.len());
    if args.len() == 0 {
        return CtAction::Usage;
    }
    assert(texts(args@)[0] == args@[0]@);
    let first: &str = args[0].as_str();
    if same(first, "--async-runner") {
        if args.len() < 3 {
            CtAction::RunnerUsage
        } else {
            CtAction::AsyncRunner
        }
    } else if same(first, "--shell-bridge") {
        CtAction::ShellBridge
    } else if same(first, "--compact") || same(first, "-c") {
        if args.len() < 2 {
            CtAction::CompactUsage
        } else {
            CtAction::Run { from: 1, compact: true, stats: false }
        }
    } else if same(first, "--stats") {
        if args.len() < 2 {
            CtAction::StatsUsage
        } else {
            CtAction::Run { from: 1, compact: false, stats: true }
        }
    } else if same(first, "--") {
        if args.len() < 2 {
            CtAction::Usage
        } else {
            CtAction::Run { from: 1, compact: false, stats: false }
        }
    } else if same(first, "--help") {
        CtAction::Usage
    } else if same(first, "mcp") {
        CtAction::Mcp
    } else if same(first, "cd") {
        CtAction::Cd
    } else if same(first, "-a") {
        if args.len() < 2 {
            CtAction::AsyncUsage
        } else {
            CtAction::Async
        }
    } else {
        CtAction::Run { from: 0, compact: false, stats: false }
    }
}

} // verus!
