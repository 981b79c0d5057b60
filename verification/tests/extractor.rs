use no_incode_comments::sections::extract_sections;

fn cv(s: &str) -> Vec<char> {
    s.chars().collect()
}

#[test]
fn two_sections_scenario() {
    let t = extract_sections("# A\nline1\nline2\n# B\nline3\n");
    assert_eq!(t.get(&cv("A")), Some(&cv("line1\nline2")));
    assert_eq!(t.get(&cv("B")), Some(&cv("line3")));
    assert_eq!(t.get(&cv("C")), None);
    assert!(!t.is_empty());
}

#[test]
fn two_sections_without_trailing_newline() {
    let t = extract_sections("# A\nline1\nline2\n# B\nline3");
    assert_eq!(t.get(&cv("A")), Some(&cv("line1\nline2")));
    assert_eq!(t.get(&cv("B")), Some(&cv("line3")));
}

#[test]
fn empty_document_yields_empty_table() {
    let t = extract_sections("");
    assert!(t.is_empty());
    assert_eq!(t.get(&cv("anything")), None);
}

#[test]
fn pre_header_text_only_yields_empty_table() {
    let t = extract_sections("intro\nmore\n");
    assert!(t.is_empty());
    assert_eq!(t.get(&cv("intro")), None);
}

#[test]
fn pre_header_text_is_discarded() {
    let t = extract_sections("intro\nmore\n# A\nbody\n");
    assert_eq!(t.get(&cv("A")), Some(&cv("body")));
    assert_eq!(t.get(&cv("intro")), None);
}

#[test]
fn duplicate_titles_keep_last_body() {
    let t = extract_sections("# A\nfirst\n# B\nmiddle\n# A\nsecond\n");
    assert_eq!(t.get(&cv("A")), Some(&cv("second")));
    assert_eq!(t.get(&cv("B")), Some(&cv("middle")));
}

#[test]
fn titles_are_trimmed() {
    let t = extract_sections("#   Spaced Title  \nbody\n");
    assert_eq!(t.get(&cv("Spaced Title")), Some(&cv("body")));
    assert_eq!(t.get(&cv("  Spaced Title  ")), None);
}

#[test]
fn body_lines_are_right_trimmed_only() {
    let t = extract_sections("# A\nline1   \n\tline2\t\r\n");
    assert_eq!(t.get(&cv("A")), Some(&cv("line1\n\tline2")));
}

#[test]
fn deeper_markers_and_near_misses_are_body_text() {
    let t = extract_sections("# A\n## sub\n#X\nrest\n");
    assert_eq!(t.get(&cv("A")), Some(&cv("## sub\n#X\nrest")));
    assert_eq!(t.get(&cv("# sub")), None);
    assert_eq!(t.get(&cv("sub")), None);
}

#[test]
fn header_with_no_body_stores_empty_body() {
    let t = extract_sections("# OnlyHeader");
    assert_eq!(t.get(&cv("OnlyHeader")), Some(&cv("")));
}

#[test]
fn header_at_end_of_document() {
    let t = extract_sections("text before\n# A");
    assert_eq!(t.get(&cv("A")), Some(&cv("")));
}

#[test]
fn lookup_is_case_sensitive() {
    let t = extract_sections("# Function\nbody\n");
    assert_eq!(t.get(&cv("Function")), Some(&cv("body")));
    assert_eq!(t.get(&cv("function")), None);
}

#[test]
fn blank_lines_inside_body_are_kept() {
    let t = extract_sections("# A\nfirst\n\nlast\n# B\nb\n");
    assert_eq!(t.get(&cv("A")), Some(&cv("first\n\nlast")));
}
