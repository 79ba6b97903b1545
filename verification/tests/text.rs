use qop::text::{ends_with_newline, join_lines, split_lines, string_from, to_chars};

fn strings(items: &[&str]) -> Vec<String> {
    items.iter().map(|s| s.to_string()).collect()
}

#[test]
fn split_lines_cuts_at_newlines() {
    assert_eq!(split_lines("one\ntwo\nthree"), strings(&["one", "two", "three"]));
}

#[test]
fn split_lines_final_newline_starts_no_line() {
    assert_eq!(split_lines("one\ntwo\n"), strings(&["one", "two"]));
}

#[test]
fn split_lines_of_empty_text_is_empty() {
    assert_eq!(split_lines(""), Vec::<String>::new());
}

#[test]
fn split_lines_keeps_empty_lines() {
    assert_eq!(split_lines("\n"), strings(&[""]));
    assert_eq!(split_lines("a\n\nb"), strings(&["a", "", "b"]));
    assert_eq!(split_lines("a\n\n"), strings(&["a", ""]));
}

#[test]
fn split_lines_keeps_carriage_returns() {
    assert_eq!(split_lines("a\r\nb\r"), strings(&["a\r", "b\r"]));
}

#[test]
fn split_lines_keeps_characters_outside_ascii() {
    assert_eq!(split_lines("päivää\nこんにちは\n"), strings(&["päivää", "こんにちは"]));
}

#[test]
fn ends_with_newline_tells_the_last_character() {
    assert!(ends_with_newline("a\n"));
    assert!(ends_with_newline("\n"));
    assert!(!ends_with_newline("a"));
    assert!(!ends_with_newline(""));
    assert!(!ends_with_newline("a\nb"));
}

#[test]
fn join_lines_puts_newlines_between() {
    assert_eq!(join_lines(&strings(&["one", "two", "three"]), false), "one\ntwo\nthree");
    assert_eq!(join_lines(&strings(&["one", "two", "three"]), true), "one\ntwo\nthree\n");
}

#[test]
fn join_lines_of_one_and_of_no_line() {
    assert_eq!(join_lines(&strings(&["one"]), false), "one");
    assert_eq!(join_lines(&strings(&[]), false), "");
    assert_eq!(join_lines(&strings(&[]), true), "\n");
}

#[test]
fn join_undoes_split() {
    for text in ["", "\n", "a", "a\n", "a\nb", "a\n\nb\n", "\n\n", "x\r\ny\n"] {
        let lines = split_lines(text);
        assert_eq!(join_lines(&lines, ends_with_newline(text)), text);
    }
}

#[test]
fn to_chars_and_string_from_agree() {
    let chars = to_chars("héllo");
    assert_eq!(chars, vec!['h', 'é', 'l', 'l', 'o']);
    assert_eq!(string_from(&chars, 1, 4), "éll");
    assert_eq!(string_from(&chars, 2, 2), "");
}
