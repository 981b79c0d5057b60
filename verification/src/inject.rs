//! The doc injector: resolving a requested section title against a section
//! table into the documentation lines to attach to a declaration.
//!
//! Lookup is exact-match and case-sensitive. A present title yields the
//! stored body, split back into its lines; an absent title silently yields a
//! single fixed fallback line, never an error.

use vstd::prelude::*;

use crate::lines::{chars_of, line_split, split_lines, views};
use crate::sections::{extract_sections, sections_of, SectionTable};

verus! {

/// The fixed notice attached when a requested title is absent.
pub open spec fn fallback_line() -> Seq<char> {
    "No documentation found for item."@
}

/// The body stored for a title, or the fallback notice when it is absent.
pub open spec fn lookup_spec(table: Map<Seq<char>, Seq<char>>, key: Seq<char>) -> Seq<char> {
    if table.contains_key(key) {
        table[key]
    } else {
        fallback_line()
    }
}

/// The documentation lines for a requested title: the lines of the stored
/// body on a hit, the single fallback line on a miss.
pub open spec fn doc_lines_spec(table: Map<Seq<char>, Seq<char>>, key: Seq<char>) -> Seq<
    Seq<char>,
> {
    if table.contains_key(key) {
        line_split(table[key])
    } else {
        seq![fallback_line()]
    }
}

/// Looks a title up in the table: the exact stored body when the title is
/// present, the fallback notice when it is not.
pub fn lookup(table: &SectionTable, key: &str) -> (r: Vec<char>)
    requires
        table.wf(),
    ensures
        r@ == lookup_spec(table@, key@),
{
    let kv = chars_of(key);
    match table.get(kv.as_slice()) {
        Some(body) => vstd::slice::slice_to_vec(body.as_slice()),
        None => chars_of("No documentation found for item."),
    }
}

/// The documentation lines to attach for a requested title.
pub fn doc_lines(table: &SectionTable, key: &str) -> (r: Vec<Vec<char>>)
    requires
        table.wf(),
    ensures
        views(r@) == doc_lines_spec(table@, key@),
{
    let kv = chars_of(key);
    match table.get(kv.as_slice()) {
        Some(body) => split_lines(body.as_slice()),
        None => {
            let fb = chars_of("No documentation found for item.");
            let mut r: Vec<Vec<char>> = Vec::new();
            r.push(fb);
            proof {
                assert(views(r@) =~~= seq![fallback_line()]);
            }
            r
        },
    }
}

/// Resolves one splice request: partitions the document into sections and
/// returns the documentation lines for the requested title.
pub fn resolve_docs(doc: &str, key: &str) -> (r: Vec<Vec<char>>)
    ensures
        views(r@) == doc_lines_spec(sections_of(doc@), key@),
{
    let table = extract_sections(doc);
    doc_lines(&table, key)
}

} // verus!
