use numloc::lines::loc;

#[test]
fn counts_only_non_blank_lines() {
    assert_eq!(loc("a\n\n  \nb\n"), 2);
}

#[test]
fn empty_content_has_no_lines() {
    assert_eq!(loc(""), 0);
}

#[test]
fn last_line_without_newline_counts() {
    assert_eq!(loc("a\nb"), 2);
}

#[test]
fn whitespace_only_content_is_blank() {
    assert_eq!(loc("   "), 0);
    assert_eq!(loc("\t \t"), 0);
    assert_eq!(loc("\n\n\n"), 0);
}

#[test]
fn single_word_is_one_line() {
    assert_eq!(loc("x"), 1);
}

#[test]
fn unicode_whitespace_is_blank() {
    assert_eq!(loc("\u{2003}\u{00A0}\n"), 0);
}

#[test]
fn mixed_blank_and_full_lines() {
    assert_eq!(loc("first\n \nsecond\n\t\nthird"), 3);
}
