//! Paths and text against the standard library, over many inputs.

use std::path::Path;
use zellij_tab_namer::cwd::Cwd;
use zellij_tab_namer::parts::same_path;
use zellij_tab_namer::paths::{ancestors, basename};
use zellij_tab_namer::text::{
    chars_of, decimal, has_part_at, parse_usize, replace_all, same_text, trim, white_space,
};

/// Every text of up to `max` characters of the alphabet.
fn all_texts(alphabet: &[char], max: usize) -> Vec<String> {
    let mut all = vec![String::new()];
    let mut from: usize = 0;
    for _ in 0..max {
        let to = all.len();
        for i in from..to {
            for c in alphabet {
                let mut longer = all[i].clone();
                longer.push(*c);
                all.push(longer);
            }
        }
        from = to;
    }
    all
}

#[test]
fn basename_is_the_final_component_of_a_path() {
    assert_eq!(basename("/proj/api"), "api");
    assert_eq!(basename("/proj/api/"), "api");
    assert_eq!(basename("/proj/./api/."), "api");
    assert_eq!(basename("api"), "api");
    assert_eq!(basename("/"), "/");
    assert_eq!(basename(""), "/");
    assert_eq!(basename("/proj/.."), "/");
    assert_eq!(basename("/tmp/\u{e9}t\u{e9}"), "\u{e9}t\u{e9}");
    for path in all_texts(&['/', '.', 'a'], 8) {
        let expected = Path::new(&path).file_name().and_then(|n| n.to_str()).unwrap_or("/");
        assert_eq!(basename(&path), expected, "{path:?}");
    }
}

#[test]
fn ancestors_are_the_parents_of_a_path() {
    assert_eq!(ancestors("/a/b"), vec!["/a/b", "/a", "/"]);
    assert_eq!(ancestors("a//b/"), vec!["a//b/", "a", ""]);
    assert_eq!(ancestors("./a"), vec!["./a", ".", ""]);
    for path in all_texts(&['/', '.', 'a'], 8) {
        let expected: Vec<&str> = Path::new(&path).ancestors().filter_map(Path::to_str).collect();
        assert_eq!(ancestors(&path), expected, "{path:?}");
    }
}

#[test]
fn directories_are_equal_by_their_components() {
    let cwd = |path: &[u8]| Cwd::new(path.to_vec());
    assert_eq!(cwd(b"/a/b"), cwd(b"/a//b/./"));
    assert_eq!(cwd(b"a"), cwd(b"a/"));
    assert_ne!(cwd(b"/a"), cwd(b"a"));
    assert_ne!(cwd(b"./a"), cwd(b"a"));
    assert_ne!(cwd(b"a/.."), cwd(b""));
    // bytes that look the same as text are told apart
    assert_eq!(cwd(b"/\xfe").text(), cwd(b"/\xff").text());
    assert_ne!(cwd(b"/\xfe"), cwd(b"/\xff"));
    // an equal directory keeps its own bytes
    assert_eq!(cwd(b"/a/").raw(), b"/a/");
    let all = all_texts(&['/', '.', 'a'], 5);
    for one in &all {
        for other in &all {
            assert_eq!(
                same_path(&one.as_bytes().to_vec(), &other.as_bytes().to_vec()),
                Path::new(one) == Path::new(other),
                "{one:?} {other:?}"
            );
        }
    }
}

#[test]
fn white_space_is_that_of_unicode() {
    for code in 0..=0x10ffff {
        if let Some(c) = char::from_u32(code) {
            assert_eq!(white_space(c), c.is_whitespace(), "{c:?}");
        }
    }
}

#[test]
fn trim_takes_white_space_off_both_ends() {
    assert_eq!(trim("/repo\n"), "/repo");
    assert_eq!(trim(" \t a b \r\n"), "a b");
    for text in all_texts(&[' ', '\n', 'x', '\u{2003}'], 6) {
        assert_eq!(trim(&text), text.trim(), "{text:?}");
    }
}

#[test]
fn replace_all_goes_left_to_right() {
    assert_eq!(replace_all(" ({pane_count})", "{pane_count}", "12"), " (12)");
    assert_eq!(replace_all("{pane_count}{pane_count}", "{pane_count}", "3"), "33");
    assert_eq!(replace_all("{{pane_count}", "{pane_count}", "3"), "{3");
    for text in all_texts(&['a', 'b'], 9) {
        for from in ["a", "ab", "aa", "aba"] {
            assert_eq!(replace_all(&text, from, "ba"), text.replace(from, "ba"), "{text:?}");
        }
    }
}

#[test]
fn numbers_are_read_and_written_in_decimal() {
    for n in [0, 1, 9, 10, 11, 99, 100, 4096, usize::MAX - 1, usize::MAX] {
        assert_eq!(decimal(n), n.to_string());
        assert_eq!(parse_usize(&decimal(n)), Some(n));
        assert_eq!(parse_usize(&format!("+{n}")), Some(n));
        assert_eq!(parse_usize(&format!("00{n}")), Some(n));
    }
    for text in all_texts(&['+', '-', '0', '7', ' ', 'x'], 5) {
        assert_eq!(parse_usize(&text), text.parse::<usize>().ok(), "{text:?}");
    }
    for text in ["18446744073709551616", "99999999999999999999999", "18446744073709551615"] {
        assert_eq!(parse_usize(text), text.parse::<usize>().ok());
    }
}

#[test]
fn texts_are_compared_by_their_characters() {
    for a in all_texts(&['a', 'b'], 4) {
        assert_eq!(chars_of(&a), a.chars().collect::<Vec<char>>());
        for b in all_texts(&['a', 'b'], 4) {
            assert_eq!(same_text(&a, &b), a == b);
            let (x, y) = (chars_of(&a), chars_of(&b));
            for at in 0..=x.len() {
                assert_eq!(has_part_at(&x, &y, at), a[at..].starts_with(&b));
            }
        }
    }
}
