use no_incode_comments::lines::{chars_of, join_lines, split_lines, trim, trim_end};

fn cv(s: &str) -> Vec<char> {
    s.chars().collect()
}

#[test]
fn split_terminating_newline_adds_no_line() {
    assert_eq!(split_lines(&cv("a\n")), vec![cv("a")]);
    assert_eq!(split_lines(&cv("a\nb")), vec![cv("a"), cv("b")]);
    assert_eq!(split_lines(&cv("")), Vec::<Vec<char>>::new());
    assert_eq!(split_lines(&cv("\n")), vec![cv("")]);
    assert_eq!(split_lines(&cv("a\n\nb\n")), vec![cv("a"), cv(""), cv("b")]);
}

#[test]
fn join_places_newlines_between_lines() {
    assert_eq!(join_lines(&vec![cv("a"), cv(""), cv("b")]), cv("a\n\nb"));
    assert_eq!(join_lines(&vec![cv("only")]), cv("only"));
    assert_eq!(join_lines(&Vec::new()), cv(""));
}

#[test]
fn split_of_join_reproduces_lines() {
    let lines = vec![cv("alpha"), cv(""), cv("beta mid"), cv("gamma")];
    assert_eq!(split_lines(&join_lines(&lines)), lines);
}

#[test]
fn split_of_join_drops_a_trailing_empty_line() {
    let lines = vec![cv("alpha"), cv("")];
    assert_eq!(split_lines(&join_lines(&lines)), vec![cv("alpha")]);
}

#[test]
fn trim_end_strips_trailing_whitespace_only() {
    assert_eq!(trim_end(&cv("  word \t\r ")), cv("  word"));
    assert_eq!(trim_end(&cv(" \t ")), cv(""));
    assert_eq!(trim_end(&cv("word")), cv("word"));
    assert_eq!(trim_end(&cv("")), cv(""));
}

#[test]
fn trim_strips_both_ends() {
    assert_eq!(trim(&cv("  word  ")), cv("word"));
    assert_eq!(trim(&cv("a  b")), cv("a  b"));
    assert_eq!(trim(&cv(" \t ")), cv(""));
    assert_eq!(trim(&cv("")), cv(""));
}

#[test]
fn chars_of_reads_every_character() {
    assert_eq!(chars_of("héllo"), "héllo".chars().collect::<Vec<char>>());
    assert_eq!(chars_of(""), Vec::<char>::new());
}
