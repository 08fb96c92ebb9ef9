use ct::hash::{drop_digits, hash_text, hex_of, line_hash_for_stats, payload_hash};
use ct::runlog::{
    command_hash_prefix, command_stats_file, elapsed_ms, read_start, run_files, stats_file_name, LogWrite, RunLogger,
};
use ct::stats::{merge_stats_content, parse_exec_header, parse_stats_hash_line, parse_stats_percent_map};
use ct::strmap::StringMap;

fn run_of(pairs: &[(&str, &[(i64, i64)])]) -> StringMap<Vec<(i64, i64)>> {
    let mut map = StringMap::new();
    for (hash, entries) in pairs {
        map.insert(hash.to_string(), entries.to_vec());
    }
    map
}

#[test]
fn stats_file_name_is_per_command_hash() {
    assert_eq!(stats_file_name("/tmp/c5792326-1776109764924.log"), "c5792326.stats");
}

#[test]
fn merge_stats_accumulates_hash_history_across_runs() {
    let hash = "00e85f9db78e94b8d9b5d64b07d15534";
    let existing = format!("EXEC 1000 111\nEXEC-END\n{} 0 1000:10\n", hash);

    let current = run_of(&[(hash, &[(2000, 20)])]);

    let merged = merge_stats_content(&existing, 2000, 222, &current);
    assert_eq!(merged.matches("EXEC ").count(), 2);
    assert_eq!(merged.matches("EXEC-END").count(), 2);

    let hash_line = merged
        .lines()
        .find(|l| l.starts_with(hash))
        .expect("hash line missing");
    let tokens: Vec<&str> = hash_line.split_whitespace().collect();
    assert_eq!(tokens[0], hash);
    assert_eq!(tokens[1], "9");
    assert_eq!(tokens[2], "15");
    assert_eq!(&tokens[3..], &["1000:10", "2000:20"]);
}

#[test]
fn merge_stats_deduplicates_identical_timestamps() {
    let existing = "EXEC 1000 111\nEXEC-END\nabc 0 1000:5 1000:5\n";

    let current = run_of(&[("abc", &[(1000, 5), (1000, 5)])]);

    let merged = merge_stats_content(existing, 1000, 111, &current);
    let hash_line = merged
        .lines()
        .find(|l| l.starts_with("abc "))
        .expect("abc line missing");
    let tokens: Vec<&str> = hash_line.split_whitespace().collect();
    assert_eq!(tokens, vec!["abc", "4", "5", "1000:5"]);
}

#[test]
fn merge_stats_keeps_only_last_10_runs() {
    let mut existing = String::new();
    existing.push_str("abc 0");
    for i in 1..=12 {
        let ts = i * 1000;
        existing.push_str(&format!(" {}:{}", ts, i));
    }
    existing.push('\n');
    for i in 1..=12 {
        let ts = i * 1000;
        existing.push_str(&format!("EXEC {} {}\nEXEC-END\n", ts, i));
    }

    let current = run_of(&[]);
    let merged = merge_stats_content(&existing, 12000, 12, &current);

    assert_eq!(merged.matches("EXEC ").count(), 10);
    assert_eq!(merged.matches("EXEC-END").count(), 10);

    let hash_line = merged
        .lines()
        .find(|l| l.starts_with("abc "))
        .expect("abc line missing");
    let tokens: Vec<&str> = hash_line.split_whitespace().collect();
    assert_eq!(tokens[0], "abc");
    assert_eq!(tokens[1], "100");
    assert_eq!(tokens[2], "7");
    assert_eq!(tokens.len(), 13);
    assert_eq!(tokens[3], "3000:3");
    assert_eq!(tokens[12], "12000:12");
}

#[test]
fn merge_stats_reads_previous_format_without_average_field() {
    let existing = "EXEC 1000 111\nEXEC-END\nabc 0 1000:10 2000:20\n";
    let current = run_of(&[]);

    let merged = merge_stats_content(existing, 2000, 222, &current);
    let hash_line = merged
        .lines()
        .find(|l| l.starts_with("abc "))
        .expect("abc line missing");
    let tokens: Vec<&str> = hash_line.split_whitespace().collect();
    assert_eq!(tokens[0], "abc");
    assert_eq!(tokens[1], "9");
    assert_eq!(tokens[2], "15");
    assert_eq!(&tokens[3..], &["1000:10", "2000:20"]);
}

#[test]
fn merge_stats_computes_percent_from_relative_position() {
    let existing =
        "EXEC 1000 111\nEXEC-END\nEXEC 2000 222\nEXEC-END\nabc 0 1000:10\ndef 0 1000:20 2000:30\n";
    let current = run_of(&[]);

    let merged = merge_stats_content(existing, 2000, 222, &current);
    let abc_line = merged
        .lines()
        .find(|l| l.starts_with("abc "))
        .expect("abc line missing");
    let abc_tokens: Vec<&str> = abc_line.split_whitespace().collect();
    assert_eq!(abc_tokens, vec!["abc", "9", "10", "1000:10"]);

    let def_line = merged
        .lines()
        .find(|l| l.starts_with("def "))
        .expect("def line missing");
    let def_tokens: Vec<&str> = def_line.split_whitespace().collect();
    assert_eq!(def_tokens, vec!["def", "15", "25", "1000:20", "2000:30"]);
}

#[test]
fn parse_stats_percent_map_reads_hash_percent_pairs() {
    let content = "EXEC 1000 111\nEXEC-END\nabc 35 120 1000:120\ndef 90 200 1000:200\n";
    let map = parse_stats_percent_map(content);

    assert_eq!(map.get("abc"), Some(&35));
    assert_eq!(map.get("def"), Some(&90));
}

#[test]
fn percent_map_clamps_and_skips() {
    let map = parse_stats_percent_map("a -5\nb 900 1\nc x\nd\n\nEXEC 7 8\nEXEC-END\na 3\n");
    assert_eq!(map.get("a"), Some(&3));
    assert_eq!(map.get("b"), Some(&100));
    assert_eq!(map.get("c"), None);
    assert_eq!(map.get("d"), None);
    assert_eq!(map.get("EXEC"), None);
    assert_eq!(map.len(), 2);
}

#[test]
fn exec_headers() {
    assert_eq!(parse_exec_header("EXEC 5 -7 rest"), Some((5, -7)));
    assert_eq!(parse_exec_header("EXEC 5"), None);
    assert_eq!(parse_exec_header("EXEC x 7"), None);
    assert_eq!(parse_exec_header(" EXEC 5 7"), None);
}

#[test]
fn hash_lines() {
    assert_eq!(parse_stats_hash_line("h 3 4 1:2 x 3:4:5"), Some(("h".to_string(), vec![(1, 2), (3, 4)])));
    assert_eq!(parse_stats_hash_line("h 3 4"), None);
    assert_eq!(parse_stats_hash_line("h x 1:2"), None);
    assert_eq!(parse_stats_hash_line("h 3 1:b"), None);
    assert_eq!(parse_stats_hash_line("h 3 :2"), None);
}

#[test]
fn merged_file_in_full() {
    let current = run_of(&[("bb", &[(30, 5)]), ("aa", &[(30, 9), (7, 1)])]);
    let merged = merge_stats_content("EXEC 10 0\nEXEC-END\naa 0 0 10:-3\nzz 1 1 99:1\n", 30, 10, &current);
    assert_eq!(
        merged,
        "EXEC 10 0\nEXEC-END\nEXEC 30 10\nEXEC-END\naa 90 3 10:-3 30:9\nbb 50 5 30:5\n"
    );
}

#[test]
fn merging_twice_is_merging_once() {
    let current = run_of(&[("aa", &[(30, 9)]), ("bb", &[(30, 5)])]);
    let once = merge_stats_content("EXEC 10 4\nEXEC-END\naa 0 0 10:3\n", 30, 10, &current);
    assert_eq!(merge_stats_content(&once, 30, 10, &current), once);
}

#[test]
fn written_percentages_read_back() {
    let current = run_of(&[("aa", &[(30, 9)]), ("bb", &[(30, 5)])]);
    let text = merge_stats_content("", 30, 10, &current);
    let map = parse_stats_percent_map(&text);
    assert_eq!(map.get("aa"), Some(&90));
    assert_eq!(map.get("bb"), Some(&50));
}

#[test]
fn newest_run_comes_last() {
    let current = run_of(&[("aa", &[(30, 9)])]);
    let text = merge_stats_content("EXEC 20 1\nEXEC-END\naa 0 0 20:1\n", 30, 10, &current);
    assert!(text.contains("EXEC 20 1\nEXEC-END\nEXEC 30 10\nEXEC-END\n"));
    assert!(text.trim_end().ends_with("30:9"));
}

#[test]
fn large_times_do_not_overflow() {
    let current = run_of(&[("aa", &[(1, i64::MAX), (1, i64::MIN)])]);
    let text = merge_stats_content("", 1, 1, &current);
    assert_eq!(
        text,
        format!("EXEC 1 1\nEXEC-END\naa 50 0 1:{} 1:{}\n", i64::MIN, i64::MAX)
    );
}

#[test]
fn hashes_are_those_of_md5() {
    assert_eq!(hash_text("abcdefghijklmnopqrstuvwxyz"), "c3fcd3d76192e4007dfb496cca67e13b");
    assert_eq!(hash_text(""), "d41d8cd98f00b204e9800998ecf8427e");
    assert_eq!(payload_hash("a1b2c3"), hash_text("abc"));
    assert_eq!(payload_hash("line 12"), payload_hash("line 3"));
    assert_eq!(drop_digits("x9y٣z0"), "xy٣z");
    assert_eq!(hex_of(&[0x00, 0xff, 0x5a]), "00ff5a");
    assert_eq!(line_hash_for_stats("say \"1\"\t"), Some(hash_text("\"say \\\"\\\"\\t\"")));
    assert_eq!(line_hash_for_stats("step 1 of 9"), line_hash_for_stats("step 2 of 9"));
}

#[test]
fn names_of_files() {
    let prefix = command_hash_prefix("cargo test");
    assert_eq!(prefix, hash_text("cargo test")[..8].to_string());
    let files = run_files("cargo test", 1776109764924);
    assert_eq!(files.log, format!("{prefix}-1776109764924.log"));
    assert_eq!(files.hashes, format!("{prefix}-1776109764924.logsh"));
    let stats = command_stats_file("cargo test");
    assert_eq!(stats, format!("{prefix}.stats"));
    for dir in ["", "/", "/a/b", "a/"] {
        assert_eq!(stats_file_name(&format!("{dir}/{}", files.log)), stats);
    }
    assert_eq!(stats_file_name("/"), "unknown.stats");
    assert_eq!(stats_file_name("plain"), "plain.stats");
    assert_eq!(stats_file_name("-x.log"), ".stats");
}

fn parts(w: Option<LogWrite>) -> (String, Option<String>) {
    let w = w.expect("a record");
    (w.line, w.hash_line)
}

#[test]
fn records_of_a_run() {
    let mut log = RunLogger::new(1000);
    assert_eq!(log.start_ts_ms(), 1000);
    assert_eq!(log.log_command("ls -l"), "1000 ls -l\n");
    let (line, hash_line) = parts(log.log_json_with_level(1042, 'E', "STDOUT", "say \"x\"\n"));
    assert_eq!(line, "42 E STDOUT \"say \\\"x\\\"\\n\"\n");
    assert_eq!(hash_line, Some(format!("42 {}\n", payload_hash("\"say \\\"x\\\"\\n\""))));
    let (line, hash_line) = parts(log.log_json(1043, "STDOUT", "say \"x\"\n"));
    assert_eq!(line, "43 U STDOUT \"say \\\"x\\\"\\n\"\n");
    assert_eq!(hash_line, None);
    let w = log.log_raw(1050, "MODE", "\"async\"");
    assert_eq!(w.line, "50 U MODE \"async\"\n");
    assert!(w.hash_line.is_some());
    let (line, _) = parts(log.log_exit(1060, 3));
    assert_eq!(line, "60 E EXIT 3\n");
    assert!(log.log_exit(1061, 0).is_none());
    let stats = log.write_stats("", 1100);
    assert!(stats.starts_with("EXEC 1000 100\nEXEC-END\n"));
    assert!(stats.contains(&format!("{} 42 42 1000:42\n", payload_hash("\"say \\\"x\\\"\\n\""))));
}

#[test]
fn stats_are_written_once() {
    let mut log = RunLogger::new(1000);
    let _ = log.log_json_with_level(1020, 'I', "STDOUT", "hello");
    let _ = log.log_json_with_level(1030, 'I', "STDOUT", "other");
    let once = log.write_stats("EXEC 500 10\nEXEC-END\nabc 0 0 500:4\n", 1100);
    assert_eq!(log.write_stats(&once, 1100), once);
    assert_eq!(once.lines().count(), 7);
}

#[test]
fn logged_text_reads_back() {
    let mut log = RunLogger::new(0);
    for text in ["", "plain", "a\nb\r\n", "tab\there", "\u{1}\u{1f}\u{7f}", "quote \" back \\", "żółw 🐢"] {
        let (line, _) = parts(log.log_json_with_level(5, 'W', "STDERR", text));
        assert_eq!(line.lines().count(), 1);
        assert_eq!(
            ct::ctlog::parse_log_line(line.trim_end_matches('\n')),
            Some(("STDERR".to_string(), text.to_string()))
        );
    }
    assert_eq!(
        ct::ctlog::parse_log_line(log.log_command("make -j 4").trim_end_matches('\n')),
        Some(("CMD".to_string(), "make -j 4".to_string()))
    );
}

#[test]
fn successful_exit_is_information() {
    let mut log = RunLogger::new(-5);
    let (line, _) = parts(log.log_exit(0, 0));
    assert_eq!(line, "5 I EXIT 0\n");
}

#[test]
fn start_is_read_from_the_log() {
    assert_eq!(read_start("1712 ls\n"), Some(1712));
    assert_eq!(read_start("  -4\n"), Some(-4));
    assert_eq!(read_start("x 1\n"), None);
    assert_eq!(read_start(""), None);
    assert_eq!(RunLogger::from_log(Some("1712 ls\n"), 9).start_ts_ms(), 1712);
    assert_eq!(RunLogger::from_log(Some("bad\n"), 9).start_ts_ms(), 9);
    assert_eq!(RunLogger::from_log(None, 9).start_ts_ms(), 9);
}

#[test]
fn elapsed_time_stays_in_range() {
    assert_eq!(elapsed_ms(10, 4), -6);
    assert_eq!(elapsed_ms(i64::MIN, i64::MAX), i64::MAX);
    assert_eq!(elapsed_ms(i64::MAX, i64::MIN), i64::MIN);
}
