use maxgrep::split_first_line;

fn all_lines(text: &str) -> Vec<&str> {
    let mut lines = Vec::new();
    let mut rest = text;
    while let Some((line, tail)) = split_first_line(rest) {
        assert!(tail.len() < rest.len());
        lines.push(line);
        rest = tail;
    }
    assert_eq!(rest, "");
    lines
}

#[test]
fn the_empty_text_has_no_line() {
    assert_eq!(split_first_line(""), None);
    assert_eq!(all_lines(""), Vec::<&str>::new());
}

#[test]
fn a_text_without_line_feed_is_one_line() {
    assert_eq!(split_first_line("abc"), Some(("abc", "")));
    assert_eq!(all_lines("abc"), vec!["abc"]);
}

#[test]
fn a_line_feed_ends_a_line() {
    assert_eq!(split_first_line("a\nb\na"), Some(("a", "b\na")));
    assert_eq!(all_lines("a\nb\na"), vec!["a", "b", "a"]);
}

#[test]
fn a_final_line_feed_gives_no_empty_line() {
    assert_eq!(split_first_line("abc\n"), Some(("abc", "")));
    assert_eq!(all_lines("abc\n"), vec!["abc"]);
    assert_eq!(all_lines("a\nb\n"), vec!["a", "b"]);
}

#[test]
fn empty_lines_are_kept() {
    assert_eq!(all_lines("\n"), vec![""]);
    assert_eq!(all_lines("\n\n"), vec!["", ""]);
    assert_eq!(all_lines("a\n\nb"), vec!["a", "", "b"]);
    assert_eq!(all_lines("\na"), vec!["", "a"]);
}

#[test]
fn a_carriage_return_before_a_line_feed_belongs_to_the_line_ending() {
    assert_eq!(split_first_line("a\r\nb"), Some(("a", "b")));
    assert_eq!(all_lines("a\r\nb\r\n"), vec!["a", "b"]);
    assert_eq!(all_lines("\r\n"), vec![""]);
    assert_eq!(all_lines("\r\n\r\n"), vec!["", ""]);
}

#[test]
fn only_one_carriage_return_is_taken() {
    assert_eq!(all_lines("a\r\r\nb"), vec!["a\r", "b"]);
}

#[test]
fn a_bare_carriage_return_stays_in_the_line() {
    assert_eq!(all_lines("a\rb"), vec!["a\rb"]);
    assert_eq!(all_lines("a\rb\nc"), vec!["a\rb", "c"]);
    assert_eq!(all_lines("a\r"), vec!["a\r"]);
    assert_eq!(all_lines("a\n\r"), vec!["a", "\r"]);
    assert_eq!(all_lines("\r"), vec!["\r"]);
}

#[test]
fn characters_of_several_bytes_are_not_cut() {
    assert_eq!(all_lines("é\nü\r\n日本語\n😀"), vec!["é", "ü", "日本語", "😀"]);
    assert_eq!(split_first_line("äöü"), Some(("äöü", "")));
    assert_eq!(split_first_line("ä\r\n"), Some(("ä", "")));
    // U+010A and U+0A0A hold the line feed's value in their code points, not in their bytes.
    assert_eq!(all_lines("\u{010A}\u{0A0A}\n\u{010D}\r\n"), vec!["\u{010A}\u{0A0A}", "\u{010D}"]);
}

#[test]
fn lines_are_slices_of_the_text() {
    let text = String::from("one\r\ntwo\nthree");
    let start = text.as_ptr() as usize;
    let mut offsets = Vec::new();
    for line in all_lines(&text) {
        offsets.push((line.as_ptr() as usize - start, line.len()));
    }
    assert_eq!(offsets, vec![(0, 3), (5, 3), (9, 5)]);
}

#[test]
fn the_lines_are_those_of_the_standard_library() {
    let pieces = ["", "a", "ab", "\n", "\r", "\r\n", "é", "\u{2028}", " ", "x\ry", "\n\n", "\r\r"];
    let mut checked = 0;
    for a in pieces {
        for b in pieces {
            for c in pieces {
                for d in pieces {
                    let text = format!("{}{}{}{}", a, b, c, d);
                    let want: Vec<&str> = text.lines().collect();
                    assert_eq!(all_lines(&text), want, "text {:?}", text);
                    checked += 1;
                }
            }
        }
    }
    assert_eq!(checked, 12 * 12 * 12 * 12);
}
