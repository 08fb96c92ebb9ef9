use ct::capture::{plain_records, CaptureState, ChunkOutcome, TAIL_LINES};
use ct::detect::{any_match, compile_patterns, count_hits, first_largest, HeuristicDetector};
use ct::filters::{
    command_filter_for, contains_any_pattern, default_auto_detect_log_type, default_error_capture_patterns,
    default_error_patterns, default_max_error_lines, default_warning_patterns, is_profile_file, load_filter_profiles,
    load_global_config, CommandFilterConfig, CtConfig, CtConfigFile, FilterProfileFile, LevelPatterns,
};
use ct::hash::line_hash_for_stats;
use ct::levels::{
    classify_cleaned, classify_log_level, drop_bracket, normalize_log_line, split_bracket, strip_leading_timestamp,
    LineRules,
};
use ct::render::{
    compact_refresh_interval, compact_result, format_compact_header, format_elapsed, level_stats_line,
    render_header, spinner_frame, truncate,
};
use ct::run::{
    adaptive_compact_enabled, exit_code, finish_run, format_spawn_error, map_spawn_error_code, parse_args,
    prepare_run, running_line, spinner_line, CtAction, SpawnFailure,
};
use ct::strmap::StringMap;
use ct::tally::{
    advance_progress, count_line, push_bounded, push_cleaned, push_tail_line, summarize_cleaned,
    update_command_summary, update_progress_from_history, update_stats, CommandSummary, CompactStats,
};
use std::collections::VecDeque;

fn strings(items: &[&str]) -> Vec<String> {
    items.iter().map(|s| s.to_string()).collect()
}

fn maven() -> FilterProfileFile {
    let mut filter = CommandFilterConfig::default();
    filter.enabled = true;
    filter.aliases = strings(&["mvn"]);
    filter.detection_regex = strings(&["(", r"^\[INFO\] Scanning for projects", r"^\[ERROR\] "]);
    filter.level_patterns = LevelPatterns {
        fatal: strings(&["[FATAL]"]),
        error: strings(&["[ERROR]"]),
        warning: strings(&["[WARNING]"]),
        info: strings(&["[INFO]"]),
        trace: strings(&["[DEBUG]"]),
    };
    FilterProfileFile { tool: "maven".to_string(), filter }
}

fn npm() -> FilterProfileFile {
    let mut filter = CommandFilterConfig::default();
    filter.enabled = true;
    filter.detection_regex = strings(&[r"^npm "]);
    filter.warning_patterns = strings(&["npm warn"]);
    filter.error_patterns = strings(&["npm err!"]);
    filter.error_capture_patterns = strings(&["npm err! code"]);
    FilterProfileFile { tool: " npm ".to_string(), filter }
}

fn config() -> CtConfig {
    load_global_config(vec![maven(), npm()], Vec::new(), None)
}

fn rules() -> LineRules {
    LineRules::new().expect("both patterns compile")
}

#[test]
fn heuristic_detector_detects_maven_lines() {
    let cfg = config();
    let maven = cfg.filters.tools.get("maven").expect("maven filter missing");
    assert!(maven.enabled);
    assert!(!maven.detection_regex.is_empty());
    let mut detector = HeuristicDetector::from_config(&cfg).expect("heuristics should be enabled");
    let detected = detector
        .detect_line_if_needed(&rules(), "[INFO] Scanning for projects...")
        .expect("maven line should be detected");
    assert_eq!(detected.0, "maven");
}

#[test]
fn classify_log_level_uses_maven_level_patterns() {
    let cfg = config();
    let maven = cfg.filters.tools.get("maven").expect("maven filter missing");
    let rules = rules();

    assert_eq!(classify_log_level(&rules, "STDOUT", "[INFO] Building", Some(maven)), 'I');
    assert_eq!(
        classify_log_level(&rules, "STDOUT", "[WARNING] Deprecated API", Some(maven)),
        'W'
    );
    assert_eq!(
        classify_log_level(&rules, "STDOUT", "[ERROR] Build failure", Some(maven)),
        'E'
    );
}

#[test]
fn compact_header_hides_progress_without_historical_stats() {
    let stats = CompactStats::default();
    let header = format_compact_header('|', 123, "cargo test", "00:05", &stats);
    assert!(header.progress.is_empty());
}

#[test]
fn update_progress_from_history_sets_max_progress() {
    let mut stats = CompactStats::default();
    let mut history = StringMap::new();

    let hash_a = line_hash_for_stats("ALPHA").expect("hash for ALPHA");
    let hash_b = line_hash_for_stats("BETA").expect("hash for BETA");
    history.insert(hash_a, 22);
    history.insert(hash_b, 61);

    update_progress_from_history(&mut stats, "ALPHA", Some(&history));
    update_progress_from_history(&mut stats, "BETA", Some(&history));

    assert_eq!(stats.progress_percent, Some(61));
}

#[test]
fn progress_does_not_go_back() {
    let mut stats = CompactStats::default();
    advance_progress(&mut stats, None);
    assert_eq!(stats.progress_percent, None);
    advance_progress(&mut stats, Some(-4));
    assert_eq!(stats.progress_percent, Some(0));
    advance_progress(&mut stats, Some(400));
    assert_eq!(stats.progress_percent, Some(100));
    advance_progress(&mut stats, Some(50));
    assert_eq!(stats.progress_percent, Some(100));
    update_progress_from_history(&mut stats, "x", None);
    assert_eq!(stats.progress_percent, Some(100));
}

#[test]
fn lines_are_cleaned() {
    let rules = rules();
    assert_eq!(normalize_log_line(&rules, "\u{1b}[31;1mred\u{1b}[0m  "), "red");
    assert_eq!(normalize_log_line(&rules, "\u{1b}]0;title\u{7}text"), "text");
    assert_eq!(normalize_log_line(&rules, " [2026-04-13] done "), "done");
    assert_eq!(normalize_log_line(&rules, "[2026-04-13T10:15:22.184Z]  done"), "done");
    assert_eq!(normalize_log_line(&rules, "[ 10:15:22,184 ] [INFO] x"), "[INFO] x");
    assert_eq!(normalize_log_line(&rules, "[INFO] 10:15:22"), "[INFO] 10:15:22");
    assert_eq!(normalize_log_line(&rules, "[10:15:22"), "[10:15:22");
    assert_eq!(strip_leading_timestamp(&rules, "  [10:15:22]x"), "x");
    assert_eq!(split_bracket("[ a ]  b"), Some(("a", "b")));
    assert_eq!(split_bracket("a]"), None);
    assert_eq!(drop_bracket("[a] b", true), "b");
    assert_eq!(drop_bracket("[a] b", false), "[a] b");
    assert_eq!(drop_bracket("a] b", true), "a] b");
}

#[test]
fn levels_by_severity() {
    let maven = maven().filter;
    assert_eq!(classify_cleaned("", Some(&maven)), 'T');
    assert_eq!(classify_cleaned("[error] [FATAL]", Some(&maven)), 'F');
    assert_eq!(classify_cleaned("[warning] [info]", Some(&maven)), 'W');
    assert_eq!(classify_cleaned("[debug] x", Some(&maven)), 'T');
    assert_eq!(classify_cleaned("build failure", Some(&maven)), 'E');
    assert_eq!(classify_cleaned("a warning: b", Some(&maven)), 'W');
    assert_eq!(classify_cleaned("plain", Some(&maven)), 'U');
    assert_eq!(classify_cleaned("error: x", None), 'U');
}

#[test]
fn patterns_are_trimmed_and_caseless() {
    assert!(contains_any_pattern("a [warning] b", &strings(&["  [WARNING]\t"])));
    assert!(!contains_any_pattern("anything", &strings(&["", "  "])));
    assert!(!contains_any_pattern("anything", &Vec::new()));
}

#[test]
fn defaults() {
    assert_eq!(default_warning_patterns(), strings(&["warning:", "[warning]"]));
    assert_eq!(default_error_patterns(), strings(&["error:", "error[", "[error]", "build failure"]));
    assert_eq!(default_error_capture_patterns(), default_error_patterns());
    assert_eq!(default_max_error_lines(), 5);
    assert!(default_auto_detect_log_type());
    let cfg = CtConfig::default();
    assert_eq!(cfg.output.max_error_lines, 5);
    assert!(cfg.heuristics.auto_detect_log_type);
    assert!(cfg.filters.tools.is_empty());
    let filter = CommandFilterConfig::default();
    assert!(!filter.enabled && filter.aliases.is_empty() && filter.detection_regex.is_empty());
    assert!(filter.level_patterns.fatal.is_empty());
}

#[test]
fn later_profiles_win() {
    let mut other = maven();
    other.tool = " maven\n".to_string();
    other.filter.aliases = strings(&["other"]);
    let mut nameless = maven();
    nameless.tool = "  ".to_string();
    let tools = load_filter_profiles(vec![maven(), other, nameless, npm()]);
    assert_eq!(tools.len(), 2);
    assert_eq!(tools.get("maven").expect("maven").aliases, strings(&["other"]));
    assert!(tools.get("npm").is_some());

    let mut user = CtConfigFile {
        max_error_lines: Some(2),
        auto_detect_log_type: None,
        filters: StringMap::new(),
    };
    let mut own = CommandFilterConfig::default();
    own.aliases = strings(&["own"]);
    user.filters.insert("maven".to_string(), own);
    let cfg = load_global_config(vec![maven()], vec![npm()], Some(user));
    assert_eq!(cfg.output.max_error_lines, 2);
    assert!(cfg.heuristics.auto_detect_log_type);
    assert_eq!(cfg.filters.tools.get("maven").expect("maven").aliases, strings(&["own"]));
    assert!(cfg.filters.tools.get("npm").is_some());
}

#[test]
fn profile_files_end_in_toml() {
    assert!(is_profile_file("/x/filters.d/maven.toml"));
    assert!(is_profile_file("a.b.toml"));
    assert!(!is_profile_file("/x/.toml"));
    assert!(!is_profile_file("maven.toml.bak"));
    assert!(!is_profile_file("toml"));
    assert!(!is_profile_file("/"));
}

#[test]
fn profiles_by_command() {
    let cfg = config();
    assert_eq!(command_filter_for("/usr/bin/mvn", &cfg).expect("alias").0, "maven");
    assert_eq!(command_filter_for("npm", &cfg).expect("name").0, "npm");
    assert!(command_filter_for("ls", &cfg).is_none());
    assert!(command_filter_for("..", &cfg).is_none());
    let mut off = maven();
    off.filter.enabled = false;
    let cfg = load_global_config(vec![off], Vec::new(), None);
    assert!(command_filter_for("maven", &cfg).is_none());
}

#[test]
fn patterns_that_do_not_compile_are_passed_over() {
    let regexes = compile_patterns(&strings(&["(", "a+", "[", "^b"]));
    assert_eq!(regexes.len(), 2);
    assert!(any_match(&regexes, "xaa"));
    assert!(any_match(&regexes, "b"));
    assert!(!any_match(&regexes, "cb"));
    assert!(!any_match(&Vec::new(), "a"));
}

#[test]
fn hits_are_counted() {
    let maven = maven().filter;
    let lines = strings(&["[INFO] Scanning for projects...", "x", "[ERROR] y"]);
    assert_eq!(count_hits(&maven, &lines), 2);
    let mut off = CommandFilterConfig::default();
    off.detection_regex = strings(&["x"]);
    assert_eq!(count_hits(&off, &lines), 0);
    assert_eq!(first_largest(&vec![0, 3, 1, 3]), Some(1));
    assert_eq!(first_largest(&vec![0, 0]), None);
    assert_eq!(first_largest(&Vec::new()), None);
}

#[test]
fn detector_keeps_the_first_tool() {
    let cfg = config();
    let rules = rules();
    let mut detector = HeuristicDetector::from_config(&cfg).expect("candidates");
    assert!(detector.selected_filter().is_none());
    assert!(detector.detect_line_if_needed(&rules, "   ").is_none());
    assert!(detector.detect_line_if_needed(&rules, "hello").is_none());
    assert_eq!(detector.detect_line_if_needed(&rules, "[10:15:22] npm ERR! x").expect("npm").0, "npm");
    assert!(detector.detect_line_if_needed(&rules, "[ERROR] y").is_none());
    assert_eq!(detector.selected_filter().expect("npm").warning_patterns, strings(&["npm warn"]));

    let mut detector = HeuristicDetector::from_config(&cfg).expect("candidates");
    assert!(detector.select(None).is_none());
    assert_eq!(detector.select(Some(1)).expect("second").0, "npm");
    assert!(detector.select(Some(0)).is_none());
    assert!(detector.detect_cleaned("[ERROR] y").is_none());
}

#[test]
fn detector_needs_candidates() {
    let mut cfg = config();
    cfg.heuristics.auto_detect_log_type = false;
    assert!(HeuristicDetector::from_config(&cfg).is_none());
    assert!(HeuristicDetector::from_config(&CtConfig::default()).is_none());
    let mut bad = npm();
    bad.filter.detection_regex = strings(&["("]);
    let cfg = load_global_config(vec![bad], Vec::new(), None);
    assert!(HeuristicDetector::from_config(&cfg).is_none());
}

#[test]
fn counting_by_level() {
    let mut stats = CompactStats::default();
    for (level, line) in [('F', "f"), ('E', "e"), ('W', "w"), ('I', "i"), ('T', "t"), ('U', "u"), ('?', "q")] {
        count_line(&mut stats, level, line);
    }
    assert_eq!(stats.line_count, 7);
    assert_eq!((stats.fatal_count, stats.error_count, stats.warning_count), (1, 2, 1));
    assert_eq!((stats.info_count, stats.trace_count, stats.unknown_count), (1, 1, 2));
    assert_eq!(stats.last_error, "e");
    update_stats(&rules(), &mut stats, 'E', " \u{1b}[1mlast\u{1b}[0m ");
    assert_eq!(stats.last_error, "last");
    assert_eq!(
        level_stats_line(&stats),
        "STATS lines=8 fatal=1 error=3 warning=1 info=1 trace=1 unknown=2"
    );
}

#[test]
fn last_lines_are_kept() {
    let rules = rules();
    let mut tail: VecDeque<String> = VecDeque::new();
    for i in 0..4 {
        push_tail_line(&rules, &mut tail, "STDOUT", &format!(" line {i} "), 3);
    }
    push_tail_line(&rules, &mut tail, "STDERR", "bad", 3);
    push_tail_line(&rules, &mut tail, "STDERR", "   ", 3);
    assert_eq!(tail, strings(&["line 2", "line 3", "[err] bad"]));
    push_cleaned(&mut tail, "STDOUT", "x", 1);
    assert_eq!(tail, strings(&["x"]));
    push_bounded(&mut tail, "y".to_string(), 0);
    assert!(tail.is_empty());
}

#[test]
fn summaries_by_profile_and_by_level() {
    let rules = rules();
    let npm = npm().filter;
    let mut summary = CommandSummary::default();
    update_command_summary(&rules, &mut summary, "npm WARN a", 'U', Some(&npm), 2);
    update_command_summary(&rules, &mut summary, "npm ERR! code 1", 'U', Some(&npm), 2);
    update_command_summary(&rules, &mut summary, "npm ERR! path", 'U', Some(&npm), 2);
    update_command_summary(&rules, &mut summary, "", 'E', None, 2);
    assert_eq!((summary.warning_count, summary.error_count), (1, 2));
    assert_eq!(summary.error_lines, strings(&["npm ERR! code 1"]));
    for line in ["a", "b", "c"] {
        summarize_cleaned(&mut summary, line, 'E', None, 2);
    }
    summarize_cleaned(&mut summary, "w", 'W', None, 2);
    summarize_cleaned(&mut summary, "f", 'F', None, 0);
    assert_eq!((summary.warning_count, summary.error_count), (2, 6));
    assert_eq!(summary.error_lines, strings(&["b", "c"]));
}

#[test]
fn results() {
    let mut summary = CommandSummary::default();
    assert_eq!(compact_result(0, None, 5), strings(&["SUCCESS"]));
    assert_eq!(compact_result(0, Some(&summary), 5), strings(&["SUCCESS"]));
    summary.warning_count = 3;
    assert_eq!(compact_result(0, Some(&summary), 5), strings(&["SUCCESS (3 warnings)"]));
    summary.error_lines.push_back("e1".to_string());
    summary.error_lines.push_back("e2".to_string());
    assert_eq!(compact_result(2, Some(&summary), 5), strings(&["FAILED", "e1", "e2"]));
    assert_eq!(compact_result(2, Some(&summary), 1), strings(&["FAILED", "e1"]));
    assert_eq!(compact_result(-1, None, 5), strings(&["FAILED"]));
}

#[test]
fn header_of_a_running_command() {
    assert_eq!(format_elapsed(5), "00:05");
    assert_eq!(format_elapsed(3599), "59:59");
    assert_eq!(format_elapsed(3600 * 100 + 61), "100:01:01");
    assert_eq!(compact_refresh_interval(), 50);
    assert_eq!(truncate("żółw", 4), "żółw");
    assert_eq!(truncate("żółwie", 4), "żółw...");
    let frames: String = (0..5).map(spinner_frame).collect();
    assert_eq!(frames, "|/-\\|");
    let mut stats = CompactStats::default();
    stats.line_count = 12;
    stats.warning_count = 2;
    stats.error_count = 1;
    stats.progress_percent = Some(140);
    stats.last_error = "e".repeat(49);
    let header = format_compact_header('/', 77, &"c".repeat(40), "00:09", &stats);
    assert_eq!(
        render_header(&header),
        format!(
            "/ RUNNING pid:77 t:00:09 cmd:{}... lines:12 warn:2 err:1 pct:100% last:{}...",
            "c".repeat(36),
            "e".repeat(48)
        )
    );
    let header = format_compact_header('|', 1, "ls", "00:00", &CompactStats::default());
    assert_eq!(header.last_error, "-");
}

#[test]
fn lines_of_a_run_that_goes_on() {
    let cfg = CtConfig::default();
    let mut state = prepare_run(&cfg, "ls", StringMap::new(), false, true, None).state;
    assert_eq!(spinner_line(&state, 1, "ls -l").as_deref(), Some("/ Running ls -l"));
    assert_eq!(running_line(&state, 0, 7, "ls -l", 3), None);
    state.on_timeout();
    assert_eq!(spinner_line(&state, 2, "ls -l"), None);
    assert_eq!(
        running_line(&state, 2, 7, "ls -l", 63).as_deref(),
        Some("- RUNNING pid:7 t:01:03 cmd:ls -l lines:0 warn:0 err:0 last:-")
    );
    let mut state = prepare_run(&cfg, "ls", StringMap::new(), false, true, None).state;
    chunk(&mut state, "STDOUT", "x");
    assert_eq!(spinner_line(&state, 0, "ls"), None);
    let mut state = prepare_run(&cfg, "ls", StringMap::new(), false, true, None).state;
    state.stop();
    assert_eq!(spinner_line(&state, 0, "ls"), None);
}

fn chunk(state: &mut CaptureState, kind: &str, data: &str) -> ChunkOutcome {
    state.capture_chunk(&rules(), kind, data.as_bytes()).expect("counts fit")
}

#[test]
fn plain_run_passes_output_on() {
    let cfg = CtConfig::default();
    let run = prepare_run(&cfg, "ls", StringMap::new(), false, false, None);
    assert!(run.tool.is_none() && !run.compact_mode && !run.adaptive && !run.spinner && !run.renderer);
    let mut state = run.state;
    assert!(!state.has_output());
    let out = chunk(&mut state, "STDOUT", "fast\n\n");
    assert!(out.pass_on);
    assert_eq!(out.records.len(), 2);
    assert_eq!((out.records[0].level, out.records[0].kind.as_str(), out.records[0].text.as_str()), (
        'U', "STDOUT", "fast"
    ));
    assert_eq!((out.records[1].level, out.records[1].text.as_str()), ('T', ""));
    assert!(state.has_output() && state.kept_back().is_empty());
    state.stop();
    let result = finish_run(&state, 0, true);
    assert!(result.lines.is_empty() && !result.replay);
    assert_eq!(
        result.stats_line.as_deref(),
        Some("STATS lines=2 fatal=0 error=0 warning=0 info=0 trace=1 unknown=1")
    );
}

#[test]
fn quick_run_on_a_terminal_is_replayed() {
    let cfg = CtConfig::default();
    let run = prepare_run(&cfg, "ls", StringMap::new(), false, true, None);
    assert!(run.adaptive && run.spinner && run.renderer);
    let mut state = run.state;
    assert!(!chunk(&mut state, "STDOUT", "one\n").pass_on);
    assert!(!chunk(&mut state, "STDERR", "two\n").pass_on);
    assert!(!chunk(&mut state, "STDOUT", "three").pass_on);
    state.stop();
    state.on_timeout();
    let kept: Vec<(&str, &[u8])> =
        state.kept_back().iter().map(|c| (c.kind.as_str(), c.data.as_slice())).collect();
    assert_eq!(kept, vec![
        ("STDOUT", b"one\n".as_slice()),
        ("STDERR", b"two\n".as_slice()),
        ("STDOUT", b"three".as_slice())
    ]);
    let result = finish_run(&state, 0, false);
    assert!(result.lines.is_empty() && result.replay && result.stats_line.is_none());
}

#[test]
fn long_run_on_a_terminal_is_summed_up() {
    let cfg = CtConfig::default();
    let mut state = prepare_run(&cfg, "ls", StringMap::new(), false, true, Some("yes")).state;
    assert!(!chunk(&mut state, "STDOUT", "one\n").pass_on);
    state.on_timeout();
    assert!(state.is_compact() && state.kept_back().is_empty() && !state.keeps_back());
    assert!(!chunk(&mut state, "STDOUT", "two\n").pass_on);
    state.stop();
    let result = finish_run(&state, 0, false);
    assert_eq!(result.lines, strings(&["SUCCESS"]));
    assert!(!result.replay);
}

#[test]
fn forced_compact_run_is_summed_up() {
    let cfg = CtConfig::default();
    let run = prepare_run(&cfg, "ls", StringMap::new(), true, true, None);
    assert!(run.compact_mode && !run.adaptive && !run.spinner && run.renderer);
    let mut state = run.state;
    assert!(!chunk(&mut state, "STDOUT", "one\n").pass_on);
    assert_eq!(finish_run(&state, 0, false).lines, strings(&["SUCCESS"]));
    assert_eq!(finish_run(&state, 9, false).lines, strings(&["FAILED"]));
}

#[test]
fn run_with_a_profile_is_compact() {
    let cfg = config();
    let run = prepare_run(&cfg, "/opt/mvn", StringMap::new(), false, false, None);
    assert_eq!(run.tool, Some("maven"));
    assert!(run.compact_mode);
    let mut state = run.state;
    let out = chunk(&mut state, "STDOUT", "[INFO] a\n[ERROR] Build failure\n[WARNING] w\n");
    let levels: String = out.records.iter().map(|r| r.level).collect();
    assert_eq!(levels, "IEW");
    assert_eq!(finish_run(&state, 1, false).lines, strings(&["FAILED", "[ERROR] Build failure"]));
    assert_eq!(finish_run(&state, 0, false).lines, strings(&["SUCCESS (1 warnings)"]));
}

#[test]
fn telling_line_makes_the_run_compact() {
    let cfg = config();
    let mut state = prepare_run(&cfg, "sh", StringMap::new(), false, false, None).state;
    let out = chunk(&mut state, "STDOUT", "start\nnpm ERR! code 7\n");
    assert!(out.pass_on);
    let records: Vec<(char, &str, &str)> =
        out.records.iter().map(|r| (r.level, r.kind.as_str(), r.text.as_str())).collect();
    assert_eq!(records, vec![
        ('U', "STDOUT", "start"),
        ('U', "FILTER", "npm"),
        ('E', "STDOUT", "npm ERR! code 7")
    ]);
    assert!(state.is_compact());
    assert!(!chunk(&mut state, "STDERR", "npm WARN x\n").pass_on);
    assert_eq!(finish_run(&state, 1, false).lines, strings(&["FAILED", "npm ERR! code 7"]));
    assert_eq!(state.stats().warning_count, 1);
    assert_eq!(state.summary().expect("summary").warning_count, 1);
    assert_eq!(state.max_error_lines(), 5);
}

#[test]
fn telling_line_drops_what_was_kept_back() {
    let cfg = config();
    let mut state = prepare_run(&cfg, "sh", StringMap::new(), false, true, None).state;
    assert!(!chunk(&mut state, "STDOUT", "start\n").pass_on);
    assert_eq!(state.kept_back().len(), 1);
    assert!(!chunk(&mut state, "STDOUT", "[ERROR] x\n").pass_on);
    assert!(state.kept_back().is_empty());
    assert!(!finish_run(&state, 1, false).replay);
}

#[test]
fn progress_follows_the_history() {
    let cfg = CtConfig::default();
    let mut history = StringMap::new();
    history.insert(line_hash_for_stats("step").expect("hash"), 40);
    let mut state = prepare_run(&cfg, "ls", history, false, false, None).state;
    chunk(&mut state, "STDOUT", "step\nother\n");
    assert_eq!(state.stats().progress_percent, Some(40));
}

#[test]
fn bytes_that_are_not_text_are_replaced() {
    let cfg = CtConfig::default();
    let mut state = prepare_run(&cfg, "ls", StringMap::new(), false, true, None).state;
    let out = state.capture_chunk(&rules(), "STDOUT", b"a\xffb\n").expect("counts fit");
    assert_eq!(out.records[0].text, "a\u{fffd}b");
    assert_eq!(state.kept_back()[0].data, b"a\xffb\n".to_vec());
}

#[test]
fn background_records_have_no_profile() {
    let records = plain_records(&rules(), "STDERR", "x\n \nerror: y".as_bytes());
    let seen: Vec<(char, &str)> = records.iter().map(|r| (r.level, r.text.as_str())).collect();
    assert_eq!(seen, vec![('U', "x"), ('T', " "), ('U', "error: y")]);
    assert!(records.iter().all(|r| r.kind == "STDERR"));
    assert!(plain_records(&rules(), "STDOUT", b"").is_empty());
}

#[test]
fn tail_is_short() {
    assert_eq!(TAIL_LINES, 5);
}

#[test]
fn environment_switches_adaptive_runs_off() {
    for value in ["0", "false", " NO ", "Off"] {
        assert!(!adaptive_compact_enabled(Some(value)));
    }
    for value in ["", "1", "on", "nope"] {
        assert!(adaptive_compact_enabled(Some(value)));
    }
    assert!(adaptive_compact_enabled(None));
    let cfg = CtConfig::default();
    assert!(!prepare_run(&cfg, "ls", StringMap::new(), false, true, Some("off")).adaptive);
}

#[test]
fn exit_codes() {
    assert_eq!(exit_code(Some(3), Some(9)), 3);
    assert_eq!(exit_code(None, Some(9)), 137);
    assert_eq!(exit_code(None, None), 1);
    assert_eq!(map_spawn_error_code(SpawnFailure::NotFound), 127);
    assert_eq!(map_spawn_error_code(SpawnFailure::PermissionDenied), 126);
    assert_eq!(map_spawn_error_code(SpawnFailure::Other), 1);
    assert_eq!(format_spawn_error("x", SpawnFailure::NotFound, "d"), "x: command not found");
    assert_eq!(format_spawn_error("x", SpawnFailure::PermissionDenied, "d"), "x: permission denied");
    assert_eq!(format_spawn_error("x", SpawnFailure::Other, "d"), "ct: failed to run 'x': d");
}

#[test]
fn arguments() {
    let action = |args: &[&str]| parse_args(&strings(args));
    assert_eq!(action(&[]), CtAction::Usage);
    assert_eq!(action(&["ls", "-l"]), CtAction::Run { from: 0, compact: false, stats: false });
    assert_eq!(action(&["--compact", "ls"]), CtAction::Run { from: 1, compact: true, stats: false });
    assert_eq!(action(&["-c", "ls"]), CtAction::Run { from: 1, compact: true, stats: false });
    assert_eq!(action(&["-c"]), CtAction::CompactUsage);
    assert_eq!(action(&["--stats", "ls"]), CtAction::Run { from: 1, compact: false, stats: true });
    assert_eq!(action(&["--stats"]), CtAction::StatsUsage);
    assert_eq!(action(&["--", "--compact", "-x"]), CtAction::Run { from: 1, compact: false, stats: false });
    assert_eq!(action(&["--", "cd"]), CtAction::Run { from: 1, compact: false, stats: false });
    assert_eq!(action(&["--"]), CtAction::Usage);
    assert_eq!(action(&["--help"]), CtAction::Usage);
    assert_eq!(action(&["mcp"]), CtAction::Mcp);
    assert_eq!(action(&["cd", ".."]), CtAction::Cd);
    assert_eq!(action(&["-a"]), CtAction::AsyncUsage);
    assert_eq!(action(&["-a", "ls"]), CtAction::Async);
    assert_eq!(action(&["--async-runner", "log"]), CtAction::RunnerUsage);
    assert_eq!(action(&["--async-runner", "log", "ls"]), CtAction::AsyncRunner);
    assert_eq!(action(&["--shell-bridge"]), CtAction::ShellBridge);
}
