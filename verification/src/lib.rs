//! Documentation injection from external markdown files.
//!
//! A markdown document is split into named sections, each introduced by a
//! top-level header line (`# title`). The section table maps each title to
//! the section's body (its lines, right-trimmed and joined with newlines).
//! A lookup step retrieves the body for a requested title, falling back to a
//! fixed notice line when the title is absent, and yields the documentation
//! lines to attach to a decorated declaration.

use vstd::prelude::*;

pub mod inject;
pub mod lines;
pub mod sections;

verus! {

/// A sample declaration of the kind that documentation gets attached to.
pub struct MyStruct {
    pub name: String,
    pub age: u32,
}

} // verus!
