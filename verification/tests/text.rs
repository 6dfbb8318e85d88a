use cargo_fuzz_core::json::json_escape;
use cargo_fuzz_core::ordered::SortedMap;
use cargo_fuzz_core::paths::{
    ends_with, file_name, is_absolute, join, paths_equal, starts_with, strip_prefix, with_extension,
};
use cargo_fuzz_core::pieces::{split_patterns, trim};
use cargo_fuzz_core::text::{
    contains, decimal_text, hexadecimal_text, text_eq, text_less, zero_pad,
};
use cargo_fuzz_core::tree::{parse_json, parse_toml};
use cargo_fuzz_core::versions::version_from_dependency_req;

#[test]
fn order_is_by_code_point() {
    assert!(text_less("a", "b"));
    assert!(text_less("", "a"));
    assert!(text_less("a", "aa"));
    assert!(!text_less("b", "a"));
    assert!(!text_less("a", "a"));
    assert!(text_less("Z", "a"));
    assert!(text_less("z", "é"));
    assert!(text_less("\u{ffff}", "\u{10000}"));
}

#[test]
fn texts_are_compared_and_searched() {
    assert!(text_eq("abc", "abc"));
    assert!(!text_eq("abc", "abd"));
    assert!(!text_eq("abc", "ab"));
    assert!(contains("abcabd", "abd"));
    assert!(contains("abc", ""));
    assert!(!contains("abc", "abcd"));
    assert!(cargo_fuzz_core::text::starts_with("fuzz/x", "fuzz/"));
    assert!(cargo_fuzz_core::text::ends_with("a::main", "::main"));
    assert!(!cargo_fuzz_core::text::ends_with("main", "::main"));
}

#[test]
fn numbers_are_written_out() {
    assert_eq!(decimal_text(0), "0");
    assert_eq!(decimal_text(18446744073709551615), "18446744073709551615");
    assert_eq!(hexadecimal_text(0), "0");
    assert_eq!(hexadecimal_text(0xdeadbeef), "deadbeef");
    assert_eq!(zero_pad("7", 5), "00007");
    assert_eq!(zero_pad("123456", 5), "123456");
}

#[test]
fn written_numbers_read_back() {
    for n in [0u64, 9, 10, 4096, u64::MAX] {
        assert_eq!(decimal_text(n).parse::<u64>(), Ok(n));
        assert_eq!(u64::from_str_radix(&hexadecimal_text(n), 16), Ok(n));
    }
}

#[test]
fn pushed_characters_stand_at_the_end() {
    assert_eq!(json_escape("aé\u{1f600}"), "aé\u{1f600}");
}

#[test]
fn patterns_are_split_and_trimmed() {
    assert_eq!(split_patterns("a, b ,c"), vec!["a", "b", "c"]);
    assert_eq!(split_patterns(""), vec![""]);
    assert_eq!(split_patterns("a,,b,"), vec!["a", "", "b", ""]);
    assert_eq!(trim("\u{3000}\u{85} x y \n\t"), "x y");
    assert_eq!(trim(" \u{200b} "), "\u{200b}");
    assert_eq!(trim("  "), "");
}

#[test]
fn trimming_is_that_of_the_standard_library() {
    for n in 0u32..0x3100 {
        if let Some(c) = char::from_u32(n) {
            let text = format!("{c}x{c}");
            assert_eq!(trim(&text), text.trim());
        }
    }
}

#[test]
fn pieces_make_the_text_again() {
    for text in ["a,b", ",", "abc", "a,,c"] {
        assert_eq!(split_patterns(text).join(","), text);
    }
}

#[test]
fn texts_are_escaped_for_json() {
    assert_eq!(json_escape("a\"b\\c"), "a\\\"b\\\\c");
    assert_eq!(json_escape("\n\r\t"), "\\n\\r\\t");
    assert_eq!(json_escape("\u{1}\u{7f}\u{9f}"), "\\u0001\\u007f\\u009f");
    assert_eq!(json_escape("plain"), "plain");
}

#[test]
fn escaped_texts_read_back() {
    for text in ["", "a\"b\\c", "\n\r\t\u{0}\u{1b}", "é\u{85}\u{1f600}"] {
        let document = format!("{{\"key\":\"{}\"}}", json_escape(text));
        let tree = parse_json(document.as_bytes()).unwrap();
        assert_eq!(tree.text_at("key"), Some(text));
    }
}

#[test]
fn json_documents_are_read() {
    let tree = parse_json(
        br#"{"n": 7, "t": "x", "b": true, "l": [1, "a", null], "f": 1.5, "neg": -1}"#,
    )
    .unwrap();
    assert_eq!(tree.number_at("n"), Some(7));
    assert_eq!(tree.text_at("n"), None);
    assert_eq!(tree.text_at("t"), Some("x"));
    assert_eq!(tree.get("b").and_then(|b| b.as_bool()), Some(true));
    assert_eq!(tree.number_at("f"), None);
    assert_eq!(tree.number_at("neg"), None);
    let items = tree.items_at("l").unwrap();
    assert_eq!(items.len(), 3);
    assert_eq!(items[0].as_u64(), Some(1));
    assert_eq!(items[1].as_str(), Some("a"));
    assert!(items[2].as_str().is_none() && items[2].as_list().is_none());
    assert!(tree.get("missing").is_none());
    assert!(parse_json(b"{").is_none());
    assert!(parse_json(b"\"x\"").unwrap().get("x").is_none());
}

#[test]
fn toml_documents_are_read() {
    let tree = parse_toml(b"[package]\nname = \"x\"\nn = 3\nyes = true\n[[bin]]\nname = \"b\"\n").unwrap();
    let package = tree.get("package").unwrap();
    assert_eq!(package.text_at("name"), Some("x"));
    assert_eq!(package.get("yes").and_then(|b| b.as_bool()), Some(true));
    assert_eq!(tree.items_at("bin").unwrap()[0].text_at("name"), Some("b"));
    assert!(parse_toml(b"= 1").is_none());
    assert!(parse_toml(b"\xff").is_none());
}

#[test]
fn paths_are_joined() {
    assert_eq!(join("a", "b"), "a/b");
    assert_eq!(join("a/", "b"), "a/b");
    assert_eq!(join("", "b"), "b");
    assert_eq!(join("a", "/b"), "/b");
    assert_eq!(join("a", ""), "a/");
}

#[test]
fn paths_are_those_of_the_standard_library() {
    let paths = [
        "", "/", "a", "/a", "a/", "a/b", "./a", "a/./b", "//a//b", "..", "a/..", "/a/b/c", "a.rs",
        ".hidden", "a.b.c", "a/b.tar", "fuzz", "x/fuzz", "x/fuzz/",
    ];
    for a in paths {
        let p = std::path::Path::new(a);
        assert_eq!(is_absolute(a), p.is_absolute(), "{a:?}");
        assert_eq!(
            file_name(a).as_deref(),
            p.file_name().and_then(|n| n.to_str()),
            "{a:?}"
        );
        assert_eq!(with_extension(a, "rs"), p.with_extension("rs").to_str().unwrap(), "{a:?}");
        for b in paths {
            let q = std::path::Path::new(b);
            assert_eq!(join(a, b), p.join(q).to_str().unwrap(), "{a:?} {b:?}");
            assert_eq!(starts_with(a, b), p.starts_with(q), "{a:?} {b:?}");
            assert_eq!(ends_with(a, b), p.ends_with(q), "{a:?} {b:?}");
            assert_eq!(paths_equal(a, b), p == q, "{a:?} {b:?}");
            assert_eq!(
                strip_prefix(a, b).as_deref(),
                p.strip_prefix(q).ok().and_then(|r| r.to_str()),
                "{a:?} {b:?}"
            );
        }
    }
}

#[test]
fn derives_concrete_version_from_dependency_req() {
    assert_eq!(
        version_from_dependency_req("^0.4").as_deref(),
        Some("0.4.0")
    );
    assert_eq!(
        version_from_dependency_req(">=0.4.12, <0.5").as_deref(),
        Some("0.4.12")
    );
    assert_eq!(
        version_from_dependency_req("0.15.3").as_deref(),
        Some("0.15.3")
    );
}

#[test]
fn odd_requirements_give_a_version_or_none() {
    assert_eq!(version_from_dependency_req("*"), None);
    assert_eq!(version_from_dependency_req("1").as_deref(), Some("1.0.0"));
    assert_eq!(version_from_dependency_req("01.2.3.4").as_deref(), Some("1.2.3"));
    assert_eq!(version_from_dependency_req("18446744073709551616"), None);
    assert_eq!(version_from_dependency_req("1.2.18446744073709551616"), None);
    assert_eq!(
        version_from_dependency_req("1.2.3, 18446744073709551616").as_deref(),
        Some("1.2.3")
    );
}

#[test]
fn maps_are_sorted_and_hold_the_last_value() {
    let mut map: SortedMap<String, u64> = SortedMap::new();
    map.insert("b".to_string(), 1);
    map.insert("a".to_string(), 2);
    map.insert("b".to_string(), 3);
    assert_eq!(map.len(), 2);
    assert_eq!(map.key_at(0), "a");
    assert_eq!(*map.value_at(1), 3);
    assert_eq!(map.get(&"b".to_string()), Some(&3));
    assert_eq!(map.get(&"c".to_string()), None);
    assert_eq!(map.index_of(&"b".to_string()), Some(1));
    assert!(map.contains(&"a".to_string()));
    assert!(!map.is_empty());
}
