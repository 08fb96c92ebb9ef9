use ct::ctl::{
    extract_exit_code, extract_last_pid, kill_signal, killed_text, matches_report, not_running_text, parse_ctl_args,
    parse_i32_record, parse_kill_args, parse_logs_args, parse_u32_record, plan_kill, status_report, CtlAction,
    KillStep, LogsView, WatchState,
};
use ct::ctlog::LogSummary;
use ct::install::{backup_path, ct_block, needs_backup, normalize_newlines, upsert_block};
use ct::runlog::RunLogger;
use ct::shell::{format_command, shell_bridge, shell_escape, BridgeError};

fn strings(items: &[&str]) -> Vec<String> {
    items.iter().map(|s| s.to_string()).collect()
}

#[test]
fn words_are_escaped() {
    assert_eq!(shell_escape(""), "''");
    assert_eq!(shell_escape("a-Z_0.9/:="), "a-Z_0.9/:=");
    assert_eq!(shell_escape("a b"), "'a b'");
    assert_eq!(shell_escape("it's"), "'it'\\''s'");
    assert_eq!(shell_escape("ż"), "'ż'");
    assert_eq!(format_command("echo", &strings(&["a b", "", "c"])), "echo 'a b' '' c");
    assert_eq!(format_command("my cmd", &[]), "'my cmd'");
}

#[test]
fn bridge_passes_cd_to_the_shell() {
    assert_eq!(shell_bridge(&strings(&["cd"])), Ok("__CT_BUILTIN__ cd".to_string()));
    assert_eq!(shell_bridge(&strings(&["cd", "~", "-"])), Ok("__CT_BUILTIN__ cd '~' -".to_string()));
    assert_eq!(shell_bridge(&[]), Err(BridgeError::MissingCommand));
    assert_eq!(shell_bridge(&strings(&["ls"])), Err(BridgeError::OnlyCd));
    assert_eq!(BridgeError::MissingCommand.message(), "ct --shell-bridge: missing command");
    assert_eq!(BridgeError::OnlyCd.message(), "ct --shell-bridge: only 'cd' is supported in MVP");
}

const BLOCK: &str = r#"# >>> ct >>>
ct() {
  if [ "$1" = "cd" ]; then
    local __ct_out
    __ct_out="$(command ct --shell-bridge "$@")"
    local __ct_rc=$?

    if [ $__ct_rc -ne 0 ]; then
      [ -n "$__ct_out" ] && printf '%s\n' "$__ct_out" >&2
      return $__ct_rc
    fi

    case "$__ct_out" in
      __CT_BUILTIN__\ *)
        eval "${__ct_out#__CT_BUILTIN__ }"
        return $?
        ;;
      *)
        [ -n "$__ct_out" ] && printf '%s\n' "$__ct_out"
        return 0
        ;;
    esac
  fi

  command ct "$@"
}
# <<< ct <<<"#;

#[test]
fn block_in_full() {
    assert_eq!(ct_block(), BLOCK);
}

#[test]
fn block_is_appended() {
    assert_eq!(upsert_block("", BLOCK), format!("{BLOCK}\n"));
    assert_eq!(upsert_block("alias x=y", BLOCK), format!("alias x=y\n\n{BLOCK}\n"));
    assert_eq!(upsert_block("alias x=y\r\n", BLOCK), format!("alias x=y\n\n{BLOCK}\n"));
    // a start without an end is not a block
    assert_eq!(upsert_block("# >>> ct >>>\n", BLOCK), format!("# >>> ct >>>\n\n{BLOCK}\n"));
}

#[test]
fn block_is_replaced_in_place() {
    assert_eq!(
        upsert_block("a\n# >>> ct >>>\nold\n# <<< ct <<<\nb\n", BLOCK),
        format!("a\n{BLOCK}\nb\n")
    );
    assert_eq!(upsert_block("a# >>> ct >>># <<< ct <<<b", BLOCK), format!("a\n{BLOCK}\nb"));
    assert_eq!(upsert_block("# >>> ct >>># <<< ct <<<", BLOCK), BLOCK);
}

#[test]
fn placing_the_block_twice_changes_nothing() {
    for text in [
        "",
        "\n",
        "alias x=y",
        "alias x=y\n",
        "a\r\nb\r\n",
        "a\n# >>> ct >>>\nold\n# <<< ct <<<\nb\n",
        "a# >>> ct >>># <<< ct <<<b",
        "a\n# >>> ct >>>\r\nold\r\n# <<< ct <<<\r\nb",
        "# <<< ct <<<\n",
    ] {
        let once = upsert_block(text, BLOCK);
        assert_eq!(upsert_block(&once, BLOCK), once);
        assert_eq!(once.matches("# >>> ct >>>").count(), 1);
    }
}

#[test]
fn start_marker_without_an_end_is_kept() {
    let once = upsert_block("# >>> ct >>>\nx", BLOCK);
    assert_eq!(once, format!("# >>> ct >>>\nx\n\n{BLOCK}\n"));
    assert_eq!(upsert_block(&once, BLOCK), once);
    let old = "a\n# >>> ct >>>\nx\n# >>> ct >>>\nold\n# <<< ct <<<\nb\n# <<< ct <<<\n";
    let new = upsert_block(old, BLOCK);
    assert_eq!(new, format!("a\n# >>> ct >>>\nx\n{BLOCK}\nb\n# <<< ct <<<\n"));
    assert_eq!(upsert_block(&new, BLOCK), new);
    // of two blocks the first is replaced
    assert_eq!(
        upsert_block("# >>> ct >>>\n# <<< ct <<<\n# >>> ct >>>\n# <<< ct <<<\n", BLOCK),
        format!("{BLOCK}\n# >>> ct >>>\n# <<< ct <<<\n")
    );
}

#[test]
fn file_is_copied_once() {
    assert!(needs_backup(true, false));
    assert!(!needs_backup(true, true));
    assert!(!needs_backup(false, false));
    assert!(!needs_backup(false, true));
}

#[test]
fn line_ends_and_backups() {
    assert_eq!(normalize_newlines("a\r\nb\rc\r\r\n\n\r"), "a\nb\rc\r\n\n\r");
    assert_eq!(normalize_newlines("a\r\nb\rc\r\r\n\n\r"), "a\r\nb\rc\r\r\n\n\r".replace("\r\n", "\n"));
    assert_eq!(backup_path("/home/me/.bashrc"), "/home/me/.bashrc.ct.bak");
}

#[test]
fn control_arguments() {
    let action = |args: &[&str]| parse_ctl_args(&strings(args));
    assert_eq!(action(&[]), CtlAction::Usage);
    assert_eq!(action(&["warnings"]), CtlAction::Warnings);
    assert_eq!(action(&["errors"]), CtlAction::Errors);
    assert_eq!(action(&["logs", "x"]), CtlAction::Logs);
    assert_eq!(action(&["status"]), CtlAction::Status);
    assert_eq!(action(&["kill"]), CtlAction::Kill);
    assert_eq!(action(&["watch"]), CtlAction::Watch);
    assert_eq!(action(&["else"]), CtlAction::Unknown);
    let view = |args: &[&str]| parse_logs_args(&strings(args));
    assert_eq!(view(&[]), Some(LogsView::Everything));
    assert_eq!(view(&["--filter", "warning"]), Some(LogsView::Warnings));
    assert_eq!(view(&["--filter", "error"]), Some(LogsView::Errors));
    assert_eq!(view(&["--filter", "x"]), Some(LogsView::UnknownFilter));
    assert_eq!(view(&["--filter"]), None);
    assert_eq!(view(&["error", "--filter"]), None);
    let force = |args: &[&str]| parse_kill_args(&strings(args));
    assert_eq!(force(&[]), Some(false));
    assert_eq!(force(&["--force"]), Some(true));
    assert_eq!(force(&["-9"]), None);
    assert_eq!(force(&["--force", "x"]), None);
}

#[test]
fn numbers_of_a_log() {
    assert_eq!(parse_u32_record("then PID  12 ", "PID"), Some(12));
    assert_eq!(parse_u32_record("then PID -1", "PID"), None);
    assert_eq!(parse_u32_record("then PID", "PID"), None);
    assert_eq!(parse_u32_record("7 U PID 12", "PID"), Some(12));
    assert_eq!(parse_u32_record("7 PID 12", "PID"), Some(12));
    assert_eq!(parse_u32_record("7 U PID 12", "EXIT"), None);
    assert_eq!(parse_u32_record("7 U PID 12", "U"), None);
    assert_eq!(parse_u32_record("7 OTHER 12", "OTHER"), Some(12));
    assert_eq!(parse_i32_record("3 I EXIT 0", "EXIT"), Some(0));
    assert_eq!(parse_i32_record("3 E EXIT -7 ", "EXIT"), Some(-7));
    assert_eq!(parse_i32_record("then EXIT -1", "EXIT"), Some(-1));
    assert_eq!(parse_i32_record("then EXITS 1", "EXIT"), None);
    let log = "t ASYNC 5\nt PID 6\nt PID 7\nt PID x\nt EXIT 1\nt EXIT 2\nt STDOUT \"x\"\n";
    assert_eq!(extract_last_pid(log), Some(7));
    assert_eq!(extract_exit_code(log), Some(2));
    assert_eq!(extract_last_pid("t ASYNC 5\nt ASYNC 9\n"), Some(9));
    assert_eq!(extract_last_pid(""), None);
    assert_eq!(extract_exit_code("t PID 1\n"), None);
    assert_eq!(extract_exit_code("1712345678901 true\n3 I EXIT 0\n"), Some(0));
}

#[test]
fn numbers_of_a_log_as_it_is_written() {
    let mut logger = RunLogger::new(1_712_345_678_901);
    let mut log = logger.log_command("sleep 1");
    log.push_str(&logger.log_raw(1_712_345_678_902, "ASYNC", "40").line);
    assert_eq!(extract_last_pid(&log), Some(40));
    log.push_str(&logger.log_raw(1_712_345_678_903, "PID", "41").line);
    assert_eq!(extract_last_pid(&log), Some(41));
    let output = logger.log_json(1_712_345_678_904, "STDOUT", "9 U PID 12\n3 E EXIT 4\n").unwrap();
    log.push_str(&output.line);
    assert_eq!(extract_last_pid(&log), Some(41));
    assert_eq!(extract_exit_code(&log), None);
    log.push_str(&logger.log_exit(1_712_345_678_905, -3).unwrap().line);
    assert!(log.ends_with("\n4 E EXIT -3\n"));
    assert_eq!(extract_last_pid(&log), Some(41));
    assert_eq!(extract_exit_code(&log), Some(-3));
}

#[test]
fn states() {
    assert_eq!(status_report(Some(4), Some(2), false), ("STATUS=EXITED pid=4 exit=2".to_string(), 0));
    assert_eq!(status_report(Some(4), None, true), ("STATUS=RUNNING pid=4".to_string(), 0));
    assert_eq!(status_report(Some(4), None, false), ("STATUS=UNKNOWN pid=4".to_string(), 1));
    assert_eq!(status_report(None, Some(-2), true), ("STATUS=EXITED exit=-2".to_string(), 0));
    assert_eq!(status_report(None, None, true), ("STATUS=UNKNOWN".to_string(), 1));
    assert_eq!(plan_kill(None, true), KillStep::NoProcess);
    assert_eq!(plan_kill(Some(4), false), KillStep::NotRunning(4));
    assert_eq!(plan_kill(Some(4), true), KillStep::Signal(4));
    assert_eq!(kill_signal(true), "-KILL");
    assert_eq!(kill_signal(false), "-TERM");
    assert_eq!(not_running_text(4), "NOT_RUNNING pid=4");
    assert_eq!(killed_text(4, true), "KILLED pid=4 signal=KILL");
    assert_eq!(killed_text(4, false), "KILLED pid=4 signal=TERM");
}

#[test]
fn totals() {
    let summary = LogSummary { errors: strings(&["e"]), warnings: strings(&["w1", "w2"]) };
    assert_eq!(matches_report(&summary, true), strings(&["w1", "w2", "TOTAL_WARNINGS=2"]));
    assert_eq!(matches_report(&summary, false), strings(&["e", "TOTAL_ERRORS=1"]));
}

#[test]
fn watching() {
    let first = "100 ls\n1 U PID 42\n2 U STDOUT \"a\\nb\\n \\n\"\n";
    let more = "3 U STDERR \"c\"\n4 U STDOUT \"d\\ne\\nf\"\n5 I EXIT 0\n";
    let mut stepwise = WatchState::new();
    assert_eq!(stepwise.render(), strings(&[
        "ct-ctl watch | pid=? | status=RUNNING",
        "(Ctrl+C to close watcher without killing process)",
    ]));
    stepwise.update(first);
    assert!(!stepwise.finished());
    assert_eq!(stepwise.render(), strings(&[
        "ct-ctl watch | pid=42 | status=RUNNING",
        "a",
        "b",
        "(Ctrl+C to close watcher without killing process)",
    ]));
    let whole = format!("{first}{more}");
    stepwise.update(&whole);
    assert!(stepwise.finished());
    let mut at_once = WatchState::new();
    at_once.update(&whole);
    assert_eq!(stepwise.render(), at_once.render());
    assert_eq!(at_once.render(), strings(&[
        "ct-ctl watch | pid=42 | status=EXITED(0)",
        "b",
        "[err] c",
        "d",
        "e",
        "f",
        "(process finished, watcher exits)",
    ]));
    at_once.update("short\n");
    assert_eq!(stepwise.render(), at_once.render());
}
