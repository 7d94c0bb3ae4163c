use nuci::error::ConfigError;
use nuci::helpers::{
    escape_single_quotes, extract_package_name, push_escaped_single_quotes, shell_quote,
};
use nuci::uci_key::{
    anonymous_option_key, anonymous_section_key, is_named_section_key, named_option_key,
    named_section_key,
};
use nuci::utils::order::{precedes, sort_texts};
use nuci::utils::path::{file_name, parent_dir};
use nuci::utils::split::{
    decimal_text, has_prefix, has_text, joined, replaced, split_by, split_lines, split_parts,
    split_words, without_prefix, without_suffix,
};
use nuci::utils::text::{count_char, split_at_char, trimmed, trimmed_end};
use nuci::utils::text_map::TextMap;
use std::borrow::Cow;
use std::path::Path;

#[test]
fn escape_single_quotes_zero_copy() {
    let plain = "hello";
    assert!(matches!(escape_single_quotes(plain), Cow::Borrowed(_)));

    let escaped = "it's";
    assert_eq!(escape_single_quotes(escaped).as_ref(), "it'\\''s");
}

#[test]
fn push_escaped_single_quotes_no_alloc() {
    let mut out = String::new();
    push_escaped_single_quotes(&mut out, "hello");
    assert_eq!(out, "hello");

    out.clear();
    push_escaped_single_quotes(&mut out, "it's");
    assert_eq!(out, "it'\\''s");
}

#[test]
fn extract_package_name_from_file() {
    for (input, expected) in [
        ("luci-app-nlbwmon_0.3-1_all.ipk", "luci-app-nlbwmon"),
        ("luci-app-nlbwmon_0.3-1_all.apk", "luci-app-nlbwmon"),
        ("luci.ipk", "luci"),
        ("luci-app_1.0", "luci-app"),
        ("zlib-1.3.1-r1.apk", "zlib"),
        (
            "luci-theme-proton2025-1.2.9-r1.apk",
            "luci-theme-proton2025",
        ),
        ("3proxy-0.9.3-r1.apk", "3proxy"),
        ("foo-bar.apk", "foo-bar"),
        ("foo.apk", "foo"),
    ] {
        assert_eq!(extract_package_name(input), expected);
    }
}

#[test]
fn package_names_at_the_edges() {
    assert_eq!(extract_package_name(""), "");
    assert_eq!(extract_package_name(".ipk"), "");
    assert_eq!(extract_package_name("-1.0.apk"), "");
    assert_eq!(extract_package_name("a--1.apk"), "a-");
    assert_eq!(extract_package_name("x.ipk.apk"), "x.ipk");
}

#[test]
fn shell_words() {
    assert_eq!(shell_quote(""), "''");
    assert_eq!(shell_quote("a b"), "'a b'");
    assert_eq!(shell_quote("'"), "''\\'''");
    assert_eq!(shell_quote("it's"), "'it'\\''s'");
}

#[test]
fn uci_key_builds_named_and_anonymous_keys() {
    assert_eq!(named_section_key("network", "lan"), "network.lan");
    assert_eq!(
        anonymous_section_key("system", "system", 0),
        "system.@system[0]"
    );
    assert_eq!(
        named_option_key("network", "lan", "proto"),
        "network.lan.proto"
    );
    assert_eq!(
        anonymous_option_key("system", "system", 0, "hostname"),
        "system.@system[0].hostname"
    );
}

#[test]
fn uci_key_classifies_named_vs_anonymous() {
    assert!(is_named_section_key("network.lan"));
    assert!(is_named_section_key("wireless.default_radio0"));
    assert!(!is_named_section_key("system.@system[0]"));
    assert!(!is_named_section_key("config.@type[2]"));
    // two dots: an option's key
    assert!(!is_named_section_key("network.lan.proto"));
    assert!(!is_named_section_key("network.lan.foo"));
}

#[test]
fn anonymous_keys_count_in_decimal() {
    assert_eq!(anonymous_section_key("a", "b", 10), "a.@b[10]");
    assert_eq!(anonymous_section_key("a", "b", 205), "a.@b[205]");
}

#[test]
fn paths_agree_with_std() {
    for p in [
        "",
        "/",
        "//",
        ".",
        "..",
        "./",
        "../",
        "/.",
        "/..",
        "a",
        "a/",
        "a//",
        "a/.",
        "a/./",
        "a/..",
        "/a",
        "/a/",
        "//a",
        "/a//b",
        "/a/./b",
        "/a/b/../c",
        "./a",
        "././a",
        ".//a",
        "a/b",
        "a//b/",
        ".a",
        ".a/b",
        "..a",
        "./packages/test_1.0_all.ipk",
        "/etc/custom/config.txt",
        "/etc/rc.local",
        "\u{e4}/\u{f6}",
    ] {
        let path = Path::new(p);
        let name = path.file_name().map(|n| n.to_str().unwrap().to_string());
        assert_eq!(file_name(p), name, "file name of {p:?}");
        let parent = path.parent().map(|d| d.to_str().unwrap().to_string());
        assert_eq!(parent_dir(p), parent, "parent of {p:?}");
    }
}

#[test]
fn texts_agree_with_std() {
    for s in [
        "",
        " ",
        "a",
        "  a b\t c \u{a0}",
        "a\nb\r\nc",
        "a\n",
        "\n\n",
        "a\r",
        "\r\n",
        "x\u{2003}y",
        "\u{85}z\u{3000}",
        "\u{200b}w",
    ] {
        let words: Vec<String> = s.split_whitespace().map(String::from).collect();
        assert_eq!(split_words(s), words, "words of {s:?}");
        let lines: Vec<String> = s.lines().map(String::from).collect();
        assert_eq!(split_lines(s), lines, "lines of {s:?}");
        assert_eq!(trimmed(s), s.trim());
        assert_eq!(trimmed_end(s), s.trim_end());
        assert_eq!(count_char(s, 'a'), s.matches('a').count());
        let halves = s
            .split_once('b')
            .map(|(a, b)| (a.to_string(), b.to_string()));
        assert_eq!(split_at_char(s, 'b'), halves);
    }
    for (s, p) in [
        ("aaaa", "aa"),
        ("abcabc", "bc"),
        ("", "x"),
        ("x", "x"),
        ("a--b--", "--"),
        ("--", "---"),
    ] {
        let pieces: Vec<String> = s.split(p).map(String::from).collect();
        assert_eq!(split_by(s, p), pieces);
        assert_eq!(replaced(s, p, "+"), s.replace(p, "+"));
        assert_eq!(has_text(s, p), s.contains(p));
        assert_eq!(has_prefix(s, p), s.starts_with(p));
        assert_eq!(without_prefix(s, p), s.strip_prefix(p).map(String::from));
        assert_eq!(without_suffix(s, p), s.strip_suffix(p).map(String::from));
        let mut parts = s.splitn(2, p);
        let first = parts.next().unwrap_or("").to_string();
        let second = parts.next().unwrap_or("").to_string();
        assert_eq!(split_parts(s, p), (first, second));
    }
    let list = vec!["a".to_string(), String::new(), "b".to_string()];
    assert_eq!(joined(&list, ", "), list.join(", "));
    assert_eq!(joined(&Vec::new(), ", "), "");
    for n in [0, 7, 10, 99, 100, 12345, u64::MAX] {
        assert_eq!(decimal_text(n), n.to_string());
    }
}

#[test]
fn order_agrees_with_std() {
    let all = ["", "a", "aa", "ab", "b", "B", "\u{e4}", "\u{1f600}", "\u{ffff}"];
    for a in all {
        for b in all {
            assert_eq!(precedes(a, b), a < b, "{a:?} and {b:?}");
        }
    }
    let mut list: Vec<String> = ["b", "a", "\u{e4}", "a", ""]
        .iter()
        .map(|s| s.to_string())
        .collect();
    let sorted = sort_texts(&list);
    list.sort();
    assert_eq!(sorted, list);
}

#[test]
fn maps_keep_the_last_value_and_order_their_keys() {
    let mut m: TextMap<String> = TextMap::new();
    assert!(m.is_empty());
    for (k, v) in [("b", "1"), ("a", "2"), ("c", "3"), ("b", "4")] {
        m.insert(k.to_string(), v.to_string());
    }
    assert_eq!(m.keys(), ["a", "b", "c"]);
    assert_eq!(m.get("b"), Some(&"4".to_string()));
    assert_eq!(m.get("d"), None);
    assert!(m.contains_key("c") && !m.contains_key(""));
    assert!(!m.is_empty());

    let mut other: TextMap<String> = TextMap::new();
    other.insert("c".into(), "5".into());
    other.insert("d".into(), "6".into());
    assert!(!m.same(&other));
    m.extend(&other);
    assert_eq!(m.keys(), ["a", "b", "c", "d"]);
    assert_eq!(m.get("c"), Some(&"5".to_string()));
    assert!(m.same(&m));
    let mut shorter: TextMap<String> = TextMap::new();
    shorter.insert("c".into(), "5".into());
    shorter.insert("d".into(), "7".into());
    assert!(!other.same(&shorter));
}

#[test]
fn errors_say_what_went_wrong() {
    assert_eq!(
        ConfigError::Json("x".into()).message(),
        "Failed to parse JSON: x"
    );
    assert_eq!(ConfigError::Validation("v".into()).message(), "v");
    assert_eq!(ConfigError::Sops("s".into()).message(), "s");
    assert_eq!(ConfigError::Deploy("d".into()).message(), "d");
}

#[test]
fn white_space_is_the_unicode_property() {
    // the characters that the contracts name
    let named = |c: char| {
        matches!(
            c,
            '\u{9}'..='\u{d}'
                | '\u{20}'
                | '\u{85}'
                | '\u{a0}'
                | '\u{1680}'
                | '\u{2000}'..='\u{200a}'
                | '\u{2028}'
                | '\u{2029}'
                | '\u{202f}'
                | '\u{205f}'
                | '\u{3000}'
        )
    };
    for c in '\0'..=char::MAX {
        assert_eq!(c.is_whitespace(), named(c), "{c:?}");
    }
    assert_eq!(trimmed("\u{3000}a\u{1680}"), "a");
}
