use serde_pygen::text::{decimal, split_lines, str_eq, substring};

#[test]
fn lines_end_at_line_feeds() {
    assert_eq!(split_lines("a\nb\nc"), vec!["a", "b", "c"]);
}

#[test]
fn a_final_line_ending_adds_no_line() {
    assert_eq!(split_lines("a\nb\n"), vec!["a", "b"]);
    assert_eq!(split_lines("\n"), vec![""]);
}

#[test]
fn an_empty_text_has_no_lines() {
    assert_eq!(split_lines(""), Vec::<String>::new());
}

#[test]
fn a_carriage_return_before_a_line_feed_belongs_to_the_line_ending() {
    assert_eq!(split_lines("a\r\nb\r\n"), vec!["a", "b"]);
    assert_eq!(split_lines("a\r\r\nb"), vec!["a\r", "b"]);
}

#[test]
fn a_lone_carriage_return_stays_in_its_line() {
    assert_eq!(split_lines("a\rb\nc\r"), vec!["a\rb", "c\r"]);
}

#[test]
fn empty_lines_are_kept() {
    assert_eq!(split_lines("a\n\nb"), vec!["a", "", "b"]);
}

#[test]
fn lines_agree_with_the_standard_library() {
    let samples = ["", "\n", "a", "a\n", "a\r\n", "\r\n\r\n", "é\nü\r\nß", "x\r", "\r", "\n\r\n\r"];
    for s in samples {
        let expected: Vec<String> = s.lines().map(|l| l.to_string()).collect();
        assert_eq!(split_lines(s), expected, "lines of {:?}", s);
    }
}

#[test]
fn decimal_digits() {
    assert_eq!(decimal(0), "0");
    assert_eq!(decimal(7), "7");
    assert_eq!(decimal(9), "9");
    assert_eq!(decimal(10), "10");
    assert_eq!(decimal(42), "42");
    assert_eq!(decimal(1203), "1203");
    assert_eq!(decimal(usize::MAX), usize::MAX.to_string());
}

#[test]
fn strings_are_compared_by_their_characters() {
    assert!(str_eq("", ""));
    assert!(str_eq("serde", "serde"));
    assert!(!str_eq("serde", "serd"));
    assert!(!str_eq("serde", "serdE"));
    assert!(str_eq("héllo", "héllo"));
    assert!(!str_eq("héllo", "hallo"));
}

#[test]
fn substrings_by_byte_offsets() {
    assert_eq!(substring("struct A", 0, 6), "struct");
    assert_eq!(substring("struct A", 7, 8), "A");
    assert_eq!(substring("struct A", 3, 3), "");
    assert_eq!(substring("\"né\"", 1, 4), "né");
}
