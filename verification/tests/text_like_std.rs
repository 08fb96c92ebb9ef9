use ct::number::{parse_i32, parse_i64, parse_u32, push_i64, push_u64};
use ct::paths::{extension, file_name, file_stem, join_path};
use ct::strmap::StringMap;
use ct::text::{
    ascii_lower, chars_of, find_from, has_char, has_part, same, split_at_char, split_lines, split_once_at,
    split_words, start_trimmed, trimmed, whitespace, without_prefix,
};
use std::path::Path;

const SAMPLES: [&str; 16] = [
    "",
    " ",
    "a",
    " a b  c ",
    "\ta\u{a0}\u{2003}b\n",
    "line one\nline two\r\n\r\nlast\r",
    "a\n\n",
    "\n",
    "\r\n",
    "a:b:c",
    "::",
    "żółw 🐢 zażółć",
    "EXEC 1 2",
    "'quoted'",
    "\u{85}x\u{3000}",
    "abcabcabd",
];

#[test]
fn whitespace_is_that_of_char() {
    for code in 0..=0x10ffff_u32 {
        if let Some(c) = char::from_u32(code) {
            assert_eq!(whitespace(c), c.is_whitespace());
        }
    }
}

#[test]
fn texts_split_as_str_does() {
    for s in SAMPLES {
        assert_eq!(split_lines(s), s.lines().collect::<Vec<_>>());
        assert_eq!(split_words(s), s.split_whitespace().collect::<Vec<_>>());
        assert_eq!(trimmed(s), s.trim());
        assert_eq!(start_trimmed(s), s.trim_start());
        assert_eq!(chars_of(s), s.chars().collect::<Vec<_>>());
        assert_eq!(ascii_lower(s).iter().collect::<String>(), s.to_ascii_lowercase());
        for c in [' ', ':', '\n', 'a', 'ó'] {
            assert_eq!(split_at_char(s, c), s.split(c).collect::<Vec<_>>());
            assert_eq!(split_once_at(s, c), s.split_once(c));
            assert_eq!(has_char(s, c), s.contains(c));
        }
        for p in ["", "a", "abd", "EXEC ", " b", "żó"] {
            assert_eq!(without_prefix(s, p), s.strip_prefix(p));
            let (sv, pv) = (chars_of(s), chars_of(p));
            assert_eq!(has_part(&sv, &pv), s.contains(p));
            let found = s.find(p).map(|i| s[..i].chars().count());
            assert_eq!(find_from(&sv, &pv, 0), found);
        }
        for t in SAMPLES {
            assert_eq!(same(s, t), s == t);
        }
    }
    assert_eq!(ascii_lower("ÀBC[Z]").iter().collect::<String>(), "Àbc[z]");
}

#[test]
fn numbers_read_as_std_reads_them() {
    for s in [
        "", "0", "-0", "+0", "+", "-", "007", "12", "-12", "+12", "--1", "1 ", " 1", "1_0", "٣", "4294967295",
        "4294967296", "2147483647", "2147483648", "-2147483648", "-2147483649", "9223372036854775807",
        "9223372036854775808", "-9223372036854775808", "-9223372036854775809",
        "00000000000000000000000000000000000000000000001", "99999999999999999999999999999999999999999999999",
    ] {
        assert_eq!(parse_i64(s), s.parse::<i64>().ok());
        assert_eq!(parse_i32(s), s.parse::<i32>().ok());
        assert_eq!(parse_u32(s), s.parse::<u32>().ok());
    }
}

#[test]
fn numbers_are_written_as_std_writes_them() {
    for n in [0, 1, 9, 10, 99, 100, 12345, i64::MAX, -1, -10, i64::MIN] {
        let mut out = "x".to_string();
        push_i64(&mut out, n);
        assert_eq!(out, format!("x{n}"));
        assert_eq!(parse_i64(&out[1..]), Some(n));
    }
    for n in [0, 7, 10, u64::MAX] {
        let mut out = String::new();
        push_u64(&mut out, n);
        assert_eq!(out, n.to_string());
    }
}

#[test]
fn paths_are_read_as_std_reads_them() {
    for p in [
        "", "/", ".", "..", "a", "/a", "a/", "a/b", "a//b", "a/.", "a/./", "a/..", "./a", "../a", ".a", ".a.b", "a.",
        "a.b", "a.b.c", "/x/y.toml", "//", "/.", "a/b/", "...",
    ] {
        let path = Path::new(p);
        assert_eq!(file_name(p).as_deref(), path.file_name().and_then(|s| s.to_str()));
        if let Some(name) = file_name(p) {
            assert_eq!(Some(file_stem(&name).as_str()), path.file_stem().and_then(|s| s.to_str()));
            assert_eq!(extension(&name).as_deref(), path.extension().and_then(|s| s.to_str()));
        }
        for tail in ["", "x", "/x", "x/y", "./x"] {
            assert_eq!(join_path(p, tail), path.join(tail).to_str().unwrap());
        }
    }
}

#[test]
fn maps_keep_their_keys_in_order() {
    let mut map: StringMap<u32> = StringMap::new();
    assert!(map.is_empty());
    for (i, key) in ["b", "", "ż", "ab", "a", "z", "b"].iter().enumerate() {
        map.insert(key.to_string(), i as u32);
    }
    let keys: Vec<&str> = (0..map.len()).map(|i| map.key_at(i).as_str()).collect();
    let mut sorted = keys.clone();
    sorted.sort();
    assert_eq!(keys, sorted);
    assert_eq!(keys, vec!["", "a", "ab", "b", "z", "ż"]);
    assert_eq!(map.get("b"), Some(&6));
    assert_eq!(*map.value_at(0), 1);
    assert_eq!(map.get("c"), None);
    assert_eq!(map.remove("ab"), Some(3));
    assert_eq!(map.remove("ab"), None);
    assert_eq!(map.len(), 5);
    let mut other: StringMap<u32> = StringMap::new();
    other.insert("a".to_string(), 50);
    other.insert("n".to_string(), 51);
    map.absorb(other);
    assert_eq!(map.get("a"), Some(&50));
    assert_eq!(map.get("n"), Some(&51));
    assert_eq!(map.len(), 6);
    assert_eq!(map.pop_last().map(|(k, _)| k), Some("ż".to_string()));
}
