use grass::naming::slugify;
use grass::order::{less, sort_stable};
use grass::paths::{file_name, join, safe_file_path, UnsafeName};
use grass::strmap::StrMap;
use grass::text::{
    align_right, decimal_of, is_control, join_from, parse_u64, same, split_lines, split_on,
    take_chars, text_of, trim, CharClass, WhiteSpace,
};
use std::ops::Range;

#[test]
fn white_space_is_that_of_unicode() {
    for c in '\0'..=char::MAX {
        assert_eq!(WhiteSpace.contains(c), c.is_whitespace(), "{c:?}");
    }
}

#[test]
fn control_characters_are_those_of_unicode() {
    for c in '\0'..=char::MAX {
        assert_eq!(is_control(c), c.is_control(), "{c:?}");
    }
}

#[test]
fn slug_characters_are_ascii_alphanumerics() {
    for c in '\0'..=char::MAX {
        let expected = if c.is_ascii_alphanumeric() {
            c.to_ascii_lowercase().to_string()
        } else {
            String::new()
        };
        assert_eq!(slugify(&c.to_string()), expected);
    }
}

#[test]
fn trimming_is_that_of_strings() {
    for s in ["", " ", "a", "  a b \n", "\u{3000}x\u{a0}", "\u{200b}x"] {
        assert_eq!(trim(s), s.trim());
    }
}

#[test]
fn decimal_numbers_are_written_and_read() {
    for n in [0, 7, 10, 99, 100, 12345, u64::MAX / 10, u64::MAX - 1, u64::MAX] {
        assert_eq!(decimal_of(n), n.to_string());
        let chars: Vec<char> = n.to_string().chars().collect();
        assert_eq!(parse_u64(&chars, 0, chars.len()), Some(n));
    }
    for s in [
        "",
        "+",
        "+5",
        "-5",
        "++5",
        "007",
        "5x",
        " 5",
        "٣",
        "18446744073709551615",
        "18446744073709551616",
        "99999999999999999999999",
        "+18446744073709551615",
    ] {
        let chars: Vec<char> = s.chars().collect();
        assert_eq!(parse_u64(&chars, 0, chars.len()), s.parse().ok(), "{s}");
    }
}

#[test]
fn strings_are_ordered_as_in_std() {
    let words = ["", "a", "aa", "ab", "b", "B", "é", "z", "\u{10000}", "\u{ffff}", "a\0"];
    for a in words {
        for b in words {
            assert_eq!(less(a, b), a < b);
            assert_eq!(same(a, b), a == b);
        }
    }
}

#[test]
fn map_is_walked_in_the_order_of_its_keys() {
    let mut map = StrMap::new();
    for (k, v) in [("b", 1), ("a", 2), ("c", 3), ("b", 4)] {
        map.insert(k.to_string(), v);
    }
    assert_eq!(map.len(), 3);
    assert_eq!(map.entry(0), ("a", &2));
    assert_eq!(map.entry(1), ("b", &4));
    assert_eq!(map.entry(2), ("c", &3));
    assert_eq!(map.get("b"), Some(&4));
    assert_eq!(map.get("d"), None);
    assert_eq!(map.clone(), map);
    assert_eq!(map.remove("a"), Some(2));
    assert_eq!(map.remove("a"), None);
    assert!(!map.is_empty());
    assert_eq!(
        map.into_entries(),
        vec![("b".to_string(), 4), ("c".to_string(), 3)]
    );
}

#[test]
fn sorting_is_stable() {
    let ranges: Vec<Range<usize>> = sort_stable(vec![5..6, 1..9, 0..1, 1..2, 5..5]);
    assert_eq!(ranges, vec![0..1, 1..9, 1..2, 5..6, 5..5]);
    let none: Vec<Range<usize>> = sort_stable(vec![]);
    assert!(none.is_empty());
}

#[test]
fn splitting_and_joining() {
    assert_eq!(split_on("a/b//c", '/'), ["a", "b", "", "c"]);
    assert_eq!(split_on("", '/'), [""]);
    let parts = split_on("x-y-z", '-');
    assert_eq!(join_from(&parts, 0, ", "), "x, y, z");
    assert_eq!(join_from(&parts, 2, ", "), "z");
    assert_eq!(join_from(&parts, 3, ", "), "");
    let lines: Vec<&[u8]> = split_lines(b"a\nb\n");
    assert_eq!(lines, vec![b"a".as_slice(), b"b".as_slice(), b"".as_slice()]);
}

#[test]
fn taking_and_aligning() {
    assert_eq!(take_chars("héllo", 2), "hé");
    assert_eq!(take_chars("hé", 5), "hé");
    assert_eq!(align_right("é", 3), "  é");
    assert_eq!(align_right("abc", 2), "abc");
}

#[test]
fn paths_are_joined_as_in_std() {
    for dir in ["", ".", "a", "a/", "/", "a/b", "./gists"] {
        for name in ["", "x", "/x", "x/y", ".grass-state.json"] {
            let expected = std::path::Path::new(dir).join(name);
            assert_eq!(join(dir, name), expected.to_str().unwrap());
        }
    }
}

#[test]
fn file_names_are_those_of_std() {
    for path in [
        "", ".", "..", "/", "a", "a/b", "a/b/", "a/.", "a/./", "a/..", "../a", "./..", "./.", "//",
        "a//b", "...", ".a", "a/../b", "/..", "..a/",
    ] {
        let expected = std::path::Path::new(path)
            .file_name()
            .map(|n| n.to_str().unwrap().to_string());
        assert_eq!(file_name(path), expected, "{path}");
    }
}

#[test]
fn safe_paths_stay_in_the_directory() {
    assert_eq!(safe_file_path("dir", "a.txt"), Ok("dir/a.txt".to_string()));
    assert_eq!(
        safe_file_path("dir", "../../etc/passwd"),
        Ok("dir/passwd".to_string())
    );
    assert_eq!(
        safe_file_path("dir", "/etc/passwd"),
        Ok("dir/passwd".to_string())
    );
    for bad in ["", ".", "..", "/", "a/.."] {
        assert_eq!(
            safe_file_path("dir", bad),
            Err(UnsafeName { filename: bad.to_string() })
        );
    }
}

#[test]
fn bytes_are_read_as_text() {
    assert_eq!(text_of("café …".as_bytes()), "café …");
    assert_eq!(text_of(b""), "");
    assert_eq!(text_of(b"caf\xe9 ok"), "caf\u{fffd} ok");
}
