use ct::ctlog::{
    ct_home, detect_filter_by_log_contents, existing_log_path, extract_exec_name, finish_record, is_known_kind,
    is_level_code, latest_log_path, latest_pointer_path, log_hints, logs_dir, named_profile, now_ts, output_lines,
    parse_log_line, resolve_filter_for_log, split_log_line, summarize_lines, summarize_log, unquoted, LogError,
    LogSummary, RawLine,
};
use ct::filters::{
    load_all_filter_profiles, CommandFilterConfig, CtConfigFile, FilterProfileFile, LevelPatterns, LoadedProfiles,
};
use ct::strmap::StringMap;

const NPM_WARNING_LOG: &str =
    "npm WARN deprecated request@2.88.2: request has been deprecated\nadded 12 packages in 2s\n";
const NPM_ERROR_LOG: &str = "npm ERR! code 1\nnpm ERR! path /app/node_modules/node-sass\nnpm ERR! command failed\nnpm ERR! command sh -c node scripts/build.js\n";
const NPM_SUCCESS_LOG: &str = "up to date, audited 1 package in 1s\n\nfound 0 vulnerabilities\n";
const MAVEN_SUCCESS_LOG: &str = "[INFO] Scanning for projects...\n[INFO] BUILD SUCCESS\n";
const MAVEN_WARNING_LOG: &str =
    "[INFO] Scanning for projects...\n[WARNING] Failed to initialize environment variable resolver\n";
const MAVEN_ERROR_LOG: &str =
    "[INFO] BUILD FAILURE\n[ERROR] Failed to execute goal org.apache.maven.plugins:maven-compiler-plugin\n";
const CPP_WARNING_LOG: &str =
    "format-strings.c:91:13: warning: field precision should have type 'int', but argument has type 'char *'\n";
const CPP_ERROR_LOG: &str = "t.c:7:39: error: invalid operands to binary expression\nmain.cpp:(.text+0x5): undefined reference to `foo()'\ncollect2: error: ld returned 1 exit status\n";

fn strings(items: &[&str]) -> Vec<String> {
    items.iter().map(|s| s.to_string()).collect()
}

fn profile(
    tool: &str,
    aliases: &[&str],
    detection: &[&str],
    warning: &[&str],
    error: &[&str],
) -> FilterProfileFile {
    let mut filter = CommandFilterConfig::default();
    filter.enabled = true;
    filter.aliases = strings(aliases);
    filter.detection_regex = strings(detection);
    filter.warning_patterns = strings(warning);
    filter.error_patterns = strings(error);
    FilterProfileFile { tool: tool.to_string(), filter }
}

fn built_in() -> Vec<FilterProfileFile> {
    let mut maven = profile("maven", &["mvn", "mvnw"], &[r"^\[(INFO|WARNING|ERROR)\] "], &[], &[]);
    maven.filter.level_patterns = LevelPatterns {
        fatal: Vec::new(),
        error: strings(&["[ERROR]"]),
        warning: strings(&["[WARNING]"]),
        info: strings(&["[INFO]"]),
        trace: Vec::new(),
    };
    vec![
        profile("npm", &["npx"], &[r"^npm (WARN|ERR!)", r"^up to date, audited"], &["npm warn"], &["npm err!"]),
        maven,
        profile("cpp", &["g++"], &[r": (warning|error): ", r"undefined reference to"], &[": warning:"], &[
            ": error:",
            "undefined reference to",
        ]),
    ]
}

fn loaded() -> LoadedProfiles {
    load_all_filter_profiles(built_in(), Vec::new(), None)
}

fn encode_ct_line(kind: &str, payload: &str) -> String {
    format!(
        "2026-01-01T00:00:00.000000Z {kind} {}",
        serde_json::to_string(payload).expect("encode payload")
    )
}

fn build_stdout_only_log(raw_log: &str) -> String {
    format!("{}\n", encode_ct_line("STDOUT", raw_log))
}

#[test]
fn parse_log_line_supports_new_cmd_header_format() {
    let parsed = parse_log_line("1712345678901 mvn clean install")
        .expect("new command header should parse");
    assert_eq!(parsed.0, "CMD");
    assert_eq!(parsed.1, "mvn clean install");
}

#[test]
fn parse_log_line_supports_level_and_kind_format() {
    let parsed = parse_log_line("42 E STDOUT \"[ERROR] build failed\"")
        .expect("level+kind format should parse");
    assert_eq!(parsed.0, "STDOUT");
    assert_eq!(parsed.1, "[ERROR] build failed");
}

#[test]
fn heuristic_detects_npm_warning_patterns_without_cmd() {
    let summary = summarize_log(&build_stdout_only_log(NPM_WARNING_LOG), &loaded());
    assert!(!summary.warnings.is_empty());
    assert!(summary.warnings.iter().any(|line| line.contains("npm WARN deprecated")));
}

#[test]
fn heuristic_detects_npm_error_extractor_patterns() {
    let summary = summarize_log(&build_stdout_only_log(NPM_ERROR_LOG), &loaded());
    assert!(!summary.errors.is_empty());
    assert!(summary.errors.iter().any(|line| line.contains("command failed")));
}

#[test]
fn heuristic_detects_cpp_linker_error_pattern() {
    let summary = summarize_log(&build_stdout_only_log(CPP_ERROR_LOG), &loaded());
    assert!(!summary.errors.is_empty());
    assert!(summary.errors.iter().any(|line| line.contains("undefined reference to")));
}

#[test]
fn cpp_warning_patterns_extract_warning_line() {
    let summary = summarize_log(&build_stdout_only_log(CPP_WARNING_LOG), &loaded());
    assert!(summary.warnings.iter().any(|line| line.contains(": warning:")));
}

#[test]
fn maven_success_log_has_no_extracted_errors_or_warnings() {
    let summary = summarize_log(&build_stdout_only_log(MAVEN_SUCCESS_LOG), &loaded());
    assert!(summary.errors.is_empty());
    assert!(summary.warnings.is_empty());
}

#[test]
fn npm_success_log_has_no_extracted_errors_or_warnings() {
    let summary = summarize_log(&build_stdout_only_log(NPM_SUCCESS_LOG), &loaded());
    assert!(summary.errors.is_empty());
    assert!(summary.warnings.is_empty());
}

#[test]
fn maven_warning_patterns_extract_warning_line() {
    let summary = summarize_log(&build_stdout_only_log(MAVEN_WARNING_LOG), &loaded());
    assert!(summary.warnings.iter().any(|line| line.contains("[WARNING]")));
}

#[test]
fn filter_marker_takes_priority_over_cmd_and_heuristics() {
    let mut ct_log = String::new();
    ct_log.push_str(&encode_ct_line("FILTER", "maven"));
    ct_log.push('\n');
    ct_log.push_str(&encode_ct_line("CMD", "npm install"));
    ct_log.push('\n');
    ct_log.push_str(&encode_ct_line("STDOUT", NPM_WARNING_LOG));
    ct_log.push('\n');

    let summary = summarize_log(&ct_log, &loaded());
    assert!(summary.warnings.is_empty());
    assert!(summary.errors.is_empty());
}

#[test]
fn cmd_alias_resolution_precedes_heuristics() {
    let mut ct_log = String::new();
    ct_log.push_str(&encode_ct_line("CMD", "mvn test"));
    ct_log.push('\n');
    ct_log.push_str(&encode_ct_line("STDOUT", NPM_WARNING_LOG));
    ct_log.push('\n');

    let summary = summarize_log(&ct_log, &loaded());
    assert!(summary.warnings.is_empty());
}

#[test]
fn heuristics_can_be_disabled_by_user_config() {
    let user = CtConfigFile {
        max_error_lines: None,
        auto_detect_log_type: Some(false),
        filters: StringMap::new(),
    };
    let profiles = load_all_filter_profiles(built_in(), Vec::new(), Some(user));
    let summary = summarize_log(&build_stdout_only_log(NPM_WARNING_LOG), &profiles);
    assert!(summary.warnings.is_empty());
    assert!(summary.errors.is_empty());
}

#[test]
fn maven_error_patterns_extract_failed_goal_line() {
    let summary = summarize_log(&build_stdout_only_log(MAVEN_ERROR_LOG), &loaded());
    assert!(summary.errors.iter().any(|line| line.contains("Failed to execute goal")));
}

#[test]
fn log_line_forms() {
    assert!(matches!(split_log_line("5 ls -l"), Some(RawLine::Command(c)) if c == "ls -l"));
    assert!(matches!(split_log_line("5 ls"), Some(RawLine::Command(c)) if c == "ls"));
    assert!(matches!(split_log_line("5 U PID  77 "), Some(RawLine::Record(k, p)) if k == "PID" && p == "77"));
    assert!(matches!(split_log_line("5 EXIT 3"), Some(RawLine::Record(k, p)) if k == "EXIT" && p == "3"));
    assert!(matches!(split_log_line("then EXIT 3"), Some(RawLine::Record(k, p)) if k == "EXIT" && p == "3"));
    assert!(split_log_line("5").is_none());
    assert!(split_log_line("5 E STDOUT").is_none());
    assert!(split_log_line("then EXIT").is_none());
}

#[test]
fn log_line_payloads_are_decoded() {
    assert_eq!(
        parse_log_line("2026-04-13T10:15:22.184392Z CMD \"printf \\\"a\\\\nb\\\\n\\\"\""),
        Some(("CMD".to_string(), "printf \"a\\nb\\n\"".to_string()))
    );
    assert_eq!(
        parse_log_line("2026-04-13T10:15:22.184901Z STDOUT \"a\\nb\\n\""),
        Some(("STDOUT".to_string(), "a\nb\n".to_string()))
    );
    assert_eq!(
        parse_log_line("2026-04-13T10:15:22.185200Z EXIT 2"),
        Some(("EXIT".to_string(), "2".to_string()))
    );
    assert_eq!(parse_log_line("2026-04-13T10:15:22.184901Z STDOUT not-json"), None);
    assert_eq!(parse_log_line("7 W OTHER free text"), Some(("OTHER".to_string(), "free text".to_string())));
    // a command whose first word is that of a record is taken for one
    assert_eq!(parse_log_line("7 E make all"), Some(("make".to_string(), "all".to_string())));
}

#[test]
fn decoded_payload_is_taken_only_where_one_is_due() {
    let decoded = Some("text".to_string());
    assert_eq!(
        finish_record(RawLine::Record("STDERR".to_string(), "raw".to_string()), decoded.clone()),
        Some(("STDERR".to_string(), "text".to_string()))
    );
    assert_eq!(finish_record(RawLine::Record("STDERR".to_string(), "raw".to_string()), None), None);
    assert_eq!(
        finish_record(RawLine::Record("PID".to_string(), "9".to_string()), decoded.clone()),
        Some(("PID".to_string(), "9".to_string()))
    );
    assert_eq!(
        finish_record(RawLine::Command("ls".to_string()), decoded),
        Some(("CMD".to_string(), "ls".to_string()))
    );
}

#[test]
fn level_codes_and_kinds() {
    for token in ["F", "E", "W", "I", "T", "U"] {
        assert!(is_level_code(token));
        assert!(!is_known_kind(token));
    }
    for token in ["CMD", "STDOUT", "STDERR", "FILTER", "MODE", "EXIT", "PID", "ASYNC"] {
        assert!(is_known_kind(token));
        assert!(!is_level_code(token));
    }
    for token in ["", "f", "EE", "stdout"] {
        assert!(!is_level_code(token) && !is_known_kind(token));
    }
}

#[test]
fn stamped_lines_are_records() {
    let stamp = now_ts();
    assert!(stamp.ends_with('Z'));
    assert!(!stamp.contains(' '));
    let form = "dddd-dd-ddTdd:dd:dd.ddddddZ";
    assert_eq!(stamp.len(), form.len());
    for (c, f) in stamp.chars().zip(form.chars()) {
        assert!(if f == 'd' { c.is_ascii_digit() } else { c == f }, "{stamp}");
    }
    assert!(&stamp[..4] >= "2024");
    assert!(("01"..="12").contains(&&stamp[5..7]));
    assert!(("01"..="31").contains(&&stamp[8..10]));
    assert!(&stamp[11..13] <= "23" && &stamp[14..16] <= "59" && &stamp[17..19] <= "59");
    assert_eq!(
        parse_log_line(&format!("{stamp} STDOUT \"x\"")),
        Some(("STDOUT".to_string(), "x".to_string()))
    );
}

#[test]
fn exec_names() {
    assert_eq!(extract_exec_name("/usr/bin/mvn clean"), Some("mvn".to_string()));
    assert_eq!(extract_exec_name("  'npm' install"), Some("npm".to_string()));
    assert_eq!(extract_exec_name("\"./gradlew\""), Some("gradlew".to_string()));
    assert_eq!(extract_exec_name(".."), None);
    assert_eq!(extract_exec_name("   "), None);
    assert_eq!(extract_exec_name("''"), None);
    assert_eq!(unquoted("'\"a'b\"'"), "a'b");
}

#[test]
fn hints_stop_at_the_marker() {
    let log = format!(
        "{}\n{}\n{}\n{}\n",
        encode_ct_line("CMD", "''"),
        encode_ct_line("CMD", "/bin/npm ci"),
        encode_ct_line("FILTER", "maven"),
        encode_ct_line("FILTER", "npm")
    );
    assert_eq!(log_hints(&log), (Some("maven".to_string()), Some("npm".to_string())));
    let log = format!("{}\n{}\n", encode_ct_line("FILTER", "maven"), encode_ct_line("CMD", "npm ci"));
    assert_eq!(log_hints(&log), (Some("maven".to_string()), None));
    assert_eq!(log_hints("no log\n"), (None, None));
}

#[test]
fn named_profiles() {
    let profiles = loaded();
    let found = named_profile(&profiles.tools, Some("maven"), Some("npm")).expect("by marker");
    assert_eq!(found.aliases, strings(&["mvn", "mvnw"]));
    let found = named_profile(&profiles.tools, Some("nothing"), Some("npx")).expect("by alias");
    assert_eq!(found.aliases, strings(&["npx"]));
    assert!(named_profile(&profiles.tools, None, Some("cargo")).is_none());
    assert!(named_profile(&profiles.tools, None, None).is_none());
}

#[test]
fn disabled_profiles_do_not_apply() {
    let mut files = built_in();
    files[1].filter.enabled = false;
    let profiles = load_all_filter_profiles(files, Vec::new(), None);
    assert!(named_profile(&profiles.tools, Some("maven"), Some("mvn")).is_none());
    let log = format!("{}\n{}\n", encode_ct_line("FILTER", "maven"), encode_ct_line("STDOUT", MAVEN_ERROR_LOG));
    assert!(resolve_filter_for_log(&log, &profiles).is_none());
}

#[test]
fn most_telling_lines_win() {
    let profiles = loaded();
    let log = format!(
        "{}\n{}\n",
        encode_ct_line("STDOUT", "npm WARN a\n[INFO] one\n[INFO] two\n"),
        encode_ct_line("EXIT", "0")
    );
    let found = detect_filter_by_log_contents(&log, &profiles.tools).expect("maven leads");
    assert_eq!(found.aliases, strings(&["mvn", "mvnw"]));
    // among equals the first by name
    let log = build_stdout_only_log("npm WARN a\n[INFO] one\n");
    let found = detect_filter_by_log_contents(&log, &profiles.tools).expect("maven comes before npm");
    assert_eq!(found.aliases, strings(&["mvn", "mvnw"]));
    assert!(detect_filter_by_log_contents(&build_stdout_only_log("hello\n"), &profiles.tools).is_none());
}

#[test]
fn output_of_both_streams_is_looked_at() {
    let log = format!(
        "{}\n{}\n{}\n7 U PID 12\n",
        encode_ct_line("STDOUT", "a\nb"),
        encode_ct_line("CMD", "x\ny"),
        encode_ct_line("STDERR", "c\r\n\nd\n")
    );
    assert_eq!(output_lines(&log), strings(&["a", "b", "c", "", "d"]));
}

#[test]
fn level_patterns_replace_the_others() {
    let mut filter = CommandFilterConfig::default();
    let lines = strings(&["Warning: w", "ERROR: e", "[note] n"]);
    let summary = summarize_lines(&lines, Some(&filter));
    assert_eq!(summary.warnings, strings(&["Warning: w"]));
    assert_eq!(summary.errors, strings(&["ERROR: e"]));
    filter.level_patterns.warning = strings(&[" [NOTE] "]);
    let summary = summarize_lines(&lines, Some(&filter));
    assert_eq!(summary.warnings, strings(&["[note] n"]));
    assert!(summary.errors.is_empty());
    let summary: LogSummary = summarize_lines(&lines, None);
    assert!(summary.warnings.is_empty() && summary.errors.is_empty());
}

#[test]
fn log_paths() {
    assert_eq!(ct_home(Some("/home/me")), Ok("/home/me/.ct".to_string()));
    assert_eq!(ct_home(None), Err(LogError::HomeNotSet));
    assert_eq!(logs_dir(Some("/home/me/")), Ok("/home/me/.ct/logs".to_string()));
    assert_eq!(logs_dir(None), Err(LogError::HomeNotSet));
    assert_eq!(latest_pointer_path(Some("/h")), Ok("/h/.ct/logs/.latest".to_string()));
    assert_eq!(latest_log_path(Some("/h"), Some(" a-1.log\n")), Ok("/h/.ct/logs/a-1.log".to_string()));
    assert_eq!(latest_log_path(Some("/h"), Some("/abs.log")), Ok("/abs.log".to_string()));
    assert_eq!(latest_log_path(Some("/h"), Some(" \n")), Err(LogError::EmptyPointer));
    assert_eq!(latest_log_path(Some("/h"), None), Err(LogError::NoPreviousLog));
    assert_eq!(latest_log_path(None, None), Err(LogError::HomeNotSet));
    assert_eq!(existing_log_path("p".to_string(), true), Ok("p".to_string()));
    assert_eq!(existing_log_path("p".to_string(), false), Err(LogError::MissingLog));
    assert_eq!(LogError::HomeNotSet.message(), "HOME is not set");
    assert_eq!(LogError::NoPreviousLog.message(), "no previous execution log found");
    assert_eq!(LogError::EmptyPointer.message(), "latest log pointer is empty");
    assert_eq!(LogError::MissingLog.message(), "latest log file not found");
}
