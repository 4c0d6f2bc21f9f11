use depgraph::text::{chars_of, equal, position, replace_all, strip_prefix, strip_suffix, Position};

#[test]
fn chars_of_lists_every_character() {
    assert_eq!(chars_of("a\u{e9}z"), vec!['a', '\u{e9}', 'z']);
    assert_eq!(chars_of(""), Vec::<char>::new());
}

#[test]
fn replace_all_replaces_every_occurrence() {
    assert_eq!(replace_all("a.git/b.git", ".git", ""), "a/b");
    assert_eq!(replace_all("github.github", "github", "raw.githubusercontent"),
        "raw.githubusercontent.raw.githubusercontent");
}

#[test]
fn replace_all_does_not_rescan_what_it_wrote() {
    assert_eq!(replace_all("aaa", "aa", "a"), "aa");
    assert_eq!(replace_all("abab", "ab", "abab"), "abababab");
}

#[test]
fn replace_all_leaves_text_without_match() {
    assert_eq!(replace_all("hello", "xyz", "!"), "hello");
    assert_eq!(replace_all("ab", "abc", "!"), "ab");
    assert_eq!(replace_all("", "abc", "!"), "");
}

#[test]
fn replace_all_with_empty_pattern_matches_between_characters() {
    assert_eq!(replace_all("abc", "", "-"), "-a-b-c-");
    assert_eq!(replace_all("", "", "-"), "-");
    assert_eq!(replace_all("abc", "", "-"), "abc".replace("", "-"));
}

#[test]
fn replace_all_agrees_with_the_standard_library() {
    let samples = ["", "a", ".git", "x.gitx.git.gi", "https://github.com/org/repo.git", "\u{e9}.git\u{e9}"];
    for s in samples {
        assert_eq!(replace_all(s, ".git", ""), s.replace(".git", ""));
        assert_eq!(replace_all(s, "git", "\u{e9}\u{e9}"), s.replace("git", "\u{e9}\u{e9}"));
    }
}

#[test]
fn position_orders_by_code_point() {
    assert_eq!(position("a", "b"), Position::Before);
    assert_eq!(position("b", "a"), Position::After);
    assert_eq!(position("abc", "abc"), Position::Same);
    assert_eq!(position("ab", "abc"), Position::Before);
    assert_eq!(position("abc", "ab"), Position::After);
    assert_eq!(position("", ""), Position::Same);
    assert_eq!(position("", "a"), Position::Before);
    assert_eq!(position("Z", "a"), Position::Before);
}

#[test]
fn position_agrees_with_the_order_of_strings() {
    let samples = ["", "a", "ab", "b", "\u{e9}", "z\u{10000}", "z\u{ffff}", "https://github.com/a", "https://github.com/B"];
    for a in samples {
        for b in samples {
            let expected = if a < b {
                Position::Before
            } else if a == b {
                Position::Same
            } else {
                Position::After
            };
            assert_eq!(position(a, b), expected);
        }
    }
}

#[test]
fn equal_compares_characters() {
    assert!(equal("type", "type"));
    assert!(!equal("type", "typ"));
    assert!(!equal("", "x"));
}

#[test]
fn strip_prefix_takes_a_leading_prefix_off_once() {
    assert_eq!(strip_prefix("abcabc", "abc"), "abc");
    assert_eq!(strip_prefix("xabc", "abc"), "xabc");
    assert_eq!(strip_prefix("ab", "abc"), "ab");
    assert_eq!(strip_prefix("abc", "abc"), "");
    assert_eq!(strip_prefix("abc", ""), "abc");
    assert_eq!(strip_prefix("\u{e9}t\u{e9}", "\u{e9}"), "t\u{e9}");
}

#[test]
fn strip_suffix_takes_a_trailing_suffix_off_once() {
    assert_eq!(strip_suffix("r.git.git", ".git"), "r.git");
    assert_eq!(strip_suffix("r.gitx", ".git"), "r.gitx");
    assert_eq!(strip_suffix("git", ".git"), "git");
    assert_eq!(strip_suffix(".git", ".git"), "");
    assert_eq!(strip_suffix("abc", ""), "abc");
    assert_eq!(strip_suffix("\u{e9}t\u{e9}", "\u{e9}"), "\u{e9}t");
}
