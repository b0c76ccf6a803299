use maxgrep::matching::{slice_contains, text_contains};

#[test]
fn the_empty_text_is_contained_in_every_text() {
    assert!(text_contains("", ""));
    assert!(text_contains("abc", ""));
    assert!(slice_contains(&[], &[]));
    assert!(slice_contains(&[1, 2], &[]));
}

#[test]
fn nothing_but_the_empty_text_is_contained_in_the_empty_text() {
    assert!(!text_contains("", "a"));
    assert!(!slice_contains(&[], &[0]));
}

#[test]
fn a_text_contains_itself_its_beginnings_and_its_ends() {
    assert!(text_contains("abcd", "abcd"));
    assert!(text_contains("abcd", "a"));
    assert!(text_contains("abcd", "ab"));
    assert!(text_contains("abcd", "cd"));
    assert!(text_contains("abcd", "d"));
    assert!(text_contains("abcd", "bc"));
}

#[test]
fn a_longer_text_is_not_contained() {
    assert!(!text_contains("abc", "abcd"));
    assert!(!text_contains("abc", "zabc"));
}

#[test]
fn containment_needs_one_contiguous_run() {
    assert!(!text_contains("abc", "ac"));
    assert!(!text_contains("abc", "cb"));
    assert!(!text_contains("aab", "aba"));
    assert!(text_contains("aaab", "aab"));
    assert!(text_contains("abababc", "ababc"));
}

#[test]
fn containment_tells_upper_from_lower_case() {
    assert!(!text_contains("foobar", "Foo"));
    assert!(text_contains("Foobar", "Foo"));
}

#[test]
fn a_query_is_no_pattern() {
    assert!(!text_contains("abc", "a.c"));
    assert!(text_contains("a.c", "a.c"));
    assert!(!text_contains("aaa", "a*"));
    assert!(text_contains("[x]", "[x]"));
}

#[test]
fn characters_of_several_bytes_are_compared_whole() {
    assert!(text_contains("grüße", "üß"));
    assert!(text_contains("日本語", "本"));
    assert!(!text_contains("日本語", "語本"));
    assert!(text_contains("a😀b", "😀"));
    // "é" is C3 A9 and "©" is C2 A9: they share a byte and are different characters.
    assert!(!text_contains("é", "©"));
    assert!(!text_contains("é", "\u{00E8}"));
}

#[test]
fn bytes_are_found_at_every_offset() {
    let hay = [1u8, 2, 3, 4, 5];
    for from in 0..=hay.len() {
        for to in from..=hay.len() {
            assert!(slice_contains(&hay, &hay[from..to]));
        }
    }
    assert!(!slice_contains(&hay, &[2, 4]));
    assert!(!slice_contains(&hay, &[5, 1]));
    assert!(!slice_contains(&hay, &[1, 2, 3, 4, 5, 6]));
}

#[test]
fn containment_is_that_of_the_standard_library() {
    let pieces = ["", "a", "b", "ab", "ba", "é", "©", "日", " "];
    let mut checked = 0;
    for a in pieces {
        for b in pieces {
            for c in pieces {
                let hay = format!("{}{}{}", a, b, c);
                for d in pieces {
                    for e in pieces {
                        let needle = format!("{}{}", d, e);
                        assert_eq!(
                            text_contains(&hay, &needle),
                            hay.contains(needle.as_str()),
                            "{:?} in {:?}",
                            needle,
                            hay
                        );
                        checked += 1;
                    }
                }
            }
        }
    }
    assert_eq!(checked, 9 * 9 * 9 * 9 * 9);
}
