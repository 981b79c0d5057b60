use no_incode_comments::inject::{doc_lines, lookup, resolve_docs};
use no_incode_comments::sections::extract_sections;
use no_incode_comments::MyStruct;

fn cv(s: &str) -> Vec<char> {
    s.chars().collect()
}

const FALLBACK: &str = "No documentation found for item.";

#[test]
fn lookup_present_key_returns_stored_body() {
    let t = extract_sections("# Function\nThis is documentation.\nSecond line.\n");
    assert_eq!(lookup(&t, "Function"), cv("This is documentation.\nSecond line."));
}

#[test]
fn lookup_absent_key_returns_fallback() {
    let t = extract_sections("# Function\nbody\n");
    assert_eq!(lookup(&t, "Another Section"), cv(FALLBACK));
}

#[test]
fn lookup_on_empty_table_returns_fallback() {
    let t = extract_sections("");
    assert_eq!(lookup(&t, "any key"), cv(FALLBACK));
}

#[test]
fn doc_lines_follow_body_in_order() {
    let t = extract_sections("# F\nl1\nl2\nl3\n");
    assert_eq!(doc_lines(&t, "F"), vec![cv("l1"), cv("l2"), cv("l3")]);
}

#[test]
fn doc_lines_on_miss_are_the_single_fallback_line() {
    let t = extract_sections("# F\nl1\n");
    assert_eq!(doc_lines(&t, "G"), vec![cv(FALLBACK)]);
}

#[test]
fn resolve_docs_end_to_end() {
    let md = "# Function\nThis is documentation for my_function.\nIt will be used as the documentation for the function.\n\n# Another Section\nThis section would not be pulled in by the above example.\n";
    // The stored body ends in a blank line; the re-split reads the final
    // newline as a terminator, so that blank line is not a doc line.
    assert_eq!(
        resolve_docs(md, "Function"),
        vec![
            cv("This is documentation for my_function."),
            cv("It will be used as the documentation for the function."),
        ]
    );
    assert_eq!(
        lookup(&extract_sections(md), "Function"),
        cv("This is documentation for my_function.\nIt will be used as the documentation for the function.\n")
    );
    assert_eq!(
        resolve_docs(md, "Another Section"),
        vec![cv("This section would not be pulled in by the above example.")]
    );
    assert_eq!(resolve_docs(md, "Missing"), vec![cv(FALLBACK)]);
}

#[test]
fn decorated_struct_passes_through_unchanged() {
    let s = MyStruct { name: String::from("Ada"), age: 36 };
    assert_eq!(s.name, "Ada");
    assert_eq!(s.age, 36);
}
