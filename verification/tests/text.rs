//! Texts, names, keys and rounded numbers.

use renamer::clusters::{all_distinct, classes, labels_of_keys, repeated};
use renamer::order::{key_less, least_of, rearrange, sorted_order, SortKey};
use renamer::pathname::{
    components_of, ext_of_name, extension_of_path, file_name_of, file_stem_of, join,
    parent_name_of, stem_of_name, with_name,
};
use renamer::single::{round_to, to_signed_single, to_single, DOUBLE, ONE};
use renamer::text::{
    byte_len, chars_of, decimal_of, ends_with, find_char, is_listed, occurs, parse_unsigned,
    push_signed, rfind_char, split_of, starts_with, trim, trim_end_of, trim_of, trim_start_of,
};

fn key(first: i128, words: &[&str]) -> SortKey {
    SortKey {
        lead: Vec::new(),
        first,
        second: 0,
        third: 0,
        fourth: 0,
        words: words.iter().map(|w| w.chars().collect()).collect(),
    }
}

#[test]
fn texts_are_searched_and_trimmed() {
    let v = chars_of("a/b/ß");
    assert_eq!(find_char(&v, '/'), Some(1));
    assert_eq!(rfind_char(&v, '/'), Some(3));
    assert_eq!(find_char(&v, 'x'), None);
    assert_eq!(byte_len("a/b/ß"), 6);
    let parts: Vec<String> = split_of(&v, '/').iter().map(|p| p.iter().collect()).collect();
    assert_eq!(parts, vec!["a", "b", "ß"]);
    assert!(occurs(&chars_of("b/"), &v) && !occurs(&chars_of("ba"), &v));
    assert!(starts_with("a/b", &chars_of("a/")) && !starts_with("a", &chars_of("a/")));
    assert!(ends_with(&v, &chars_of("/ß")) && !ends_with(&v, &chars_of("/b")));
    assert_eq!(trim("\u{2003} a b \t\n"), "a b");
    assert_eq!(trim_of("//a//", '/'), "a");
    assert_eq!(trim_start_of("007", '0'), "7");
    assert_eq!(trim_end_of("a//", '/'), "a");
    assert!(is_listed(&["x", "y"], "y") && !is_listed(&["x", "y"], "z"));
}

#[test]
fn numbers_are_written_and_read() {
    assert_eq!(decimal_of(0), "0");
    assert_eq!(decimal_of(u64::MAX), "18446744073709551615");
    let mut out = String::from("n=");
    push_signed(&mut out, i64::MIN);
    assert_eq!(out, "n=-9223372036854775808");
    assert_eq!(parse_unsigned("042", 100), Some(42));
    assert_eq!(parse_unsigned("+7", 100), "+7".parse::<u64>().ok());
    assert_eq!(parse_unsigned("101", 100), None);
    assert_eq!(parse_unsigned("", 100), None);
    assert_eq!(parse_unsigned("-1", 100), None);
    assert_eq!(parse_unsigned("99999999999999999999", u64::MAX), None);
}

#[test]
fn names_are_taken_from_paths_as_std_does() {
    for path in [
        "/a/b.tar.gz", "a", "/", "", ".", "..", "/a/..", "a/.hidden", "a//b/", "x.", ".x.y",
        "./a/./b.c",
    ] {
        let p = std::path::Path::new(path);
        let owned = |s: Option<&str>| s.map(|s| s.to_string());
        let name = p.file_name().and_then(|s| s.to_str());
        assert_eq!(file_name_of(path), owned(name), "{path}");
        let stem = p.file_stem().and_then(|s| s.to_str());
        assert_eq!(file_stem_of(path), owned(stem), "{path}");
        let ext = p.extension().and_then(|s| s.to_str());
        assert_eq!(extension_of_path(path), owned(ext), "{path}");
        let parent = p.parent().and_then(|d| d.file_name()).and_then(|s| s.to_str());
        assert_eq!(parent_name_of(path), owned(parent), "{path}");
    }
    assert_eq!(stem_of_name("a.b.c"), "a.b");
    assert_eq!(ext_of_name("a.b.c"), Some("c".to_string()));
    assert_eq!(ext_of_name(".bashrc"), None);
    for (base, path) in [("/a", "b"), ("/a/", "b"), ("/a", "/b"), ("", "b"), ("/a", "")] {
        let want = std::path::Path::new(base).join(path);
        assert_eq!(join(base, path), want.to_str().unwrap());
    }
}

#[test]
fn paths_are_ordered_as_std_does() {
    let paths = ["/a/b", "/a b/c", "/a", "a", "/a.b", "/a/b/c", "/b", ""];
    let keys: Vec<SortKey> = paths
        .iter()
        .map(|p| SortKey { words: components_of(p), ..key(0, &[]) })
        .collect();
    let sorted: Vec<&str> = sorted_order(&keys).iter().map(|&i| paths[i]).collect();
    let mut want: Vec<&std::path::Path> = paths.iter().map(std::path::Path::new).collect();
    want.sort();
    let want: Vec<&str> = want.iter().map(|p| p.to_str().unwrap()).collect();
    assert_eq!(sorted, want);
}

#[test]
fn sorting_is_stable_and_keeps_every_item() {
    let keys = [key(2, &[]), key(1, &["b"]), key(2, &[]), key(1, &["a"])];
    assert_eq!(sorted_order(&keys), vec![3, 1, 0, 2]);
    assert_eq!(rearrange(&[10, 11, 12, 13], &keys), vec![13, 11, 10, 12]);
    assert_eq!(least_of(&keys), 3);
    assert!(key_less(&keys[3], &keys[1]) && !key_less(&keys[0], &keys[2]));
}

#[test]
fn equal_keys_are_found() {
    let keys = [key(1, &["a"]), key(2, &[]), key(1, &["a"])];
    assert_eq!(labels_of_keys(&keys), vec![0, 1, 0]);
    assert_eq!(repeated(&keys), vec![true, false, true]);
    assert!(!all_distinct(&keys) && all_distinct(&keys[..2]));
    assert_eq!(
        classes(&[Some(1), None, Some(1)]),
        vec![Vec::<usize>::new(), vec![0, 2], Vec::new()]
    );
}

#[test]
fn quotients_round_as_the_machine_does() {
    for (p, q) in [(1u32, 3u32), (2, 3), (254, 255), (1, 255), (16_777_217, 1), (7, 1000)] {
        // Quotients are in units of which `ONE` makes a whole.
        let got = to_single(p as u128 * ONE, q as u128) as f64 / ONE as f64;
        assert_eq!(got, (p as f32 / q as f32) as f64, "{p}/{q}");
        let minus = to_signed_single(-(p as i128 * ONE as i128), q as u128) as f64 / ONE as f64;
        assert_eq!(minus, -((p as f32 / q as f32) as f64), "-{p}/{q}");
    }
    for n in [1u64, (1 << 53) + 1, (1 << 53) + 3, u64::MAX] {
        assert_eq!(round_to(n as u128, 1, DOUBLE), n as f64 as u128);
    }
}

#[test]
fn all_white_space_is_trimmed() {
    let white = "\u{9}\u{a}\u{b}\u{c}\u{d} \u{85}\u{a0}\u{1680}\u{2000}\u{2001}\u{2002}\u{2003}\u{2004}\
                 \u{2005}\u{2006}\u{2007}\u{2008}\u{2009}\u{200a}\u{2028}\u{2029}\u{202f}\u{205f}\u{3000}";
    assert_eq!(white.chars().count(), 25);
    assert_eq!(trim(&format!("{white}a{white}")), "a");
    // A zero-width space and a byte order mark are not white.
    assert_eq!(trim("\u{200b}a\u{feff}"), "\u{200b}a\u{feff}");
}

#[test]
fn names_are_replaced_in_paths() {
    for (path, name, expected) in [
        ("/q/b/", "c", "/q/c"),
        ("/b", "c", "/c"),
        ("b", "c", "c"),
        ("a//b", "c", "a/c"),
        ("a/./b/.", "c", "a/c"),
        ("./b", "c", "./c"),
        ("/", "c", "/c"),
        ("..", "c", "../c"),
        ("", "c", "c"),
    ] {
        assert_eq!(with_name(path, name), expected, "{path}");
        assert_eq!(
            with_name(path, name),
            std::path::Path::new(path).with_file_name(name).to_str().unwrap(),
            "{path}"
        );
    }
}

#[test]
fn rounding_never_swaps_two_numbers() {
    let numbers: Vec<u128> = (0..60).map(|k| (1u128 << k) + (1 << (k / 2)) - 1).collect();
    for pair in numbers.windows(2) {
        assert!(to_single(pair[0], 3) <= to_single(pair[1], 3));
    }
}
