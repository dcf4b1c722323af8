//! Inspection of JSON-shaped text: a printer that renders a parsed value in a
//! canonical, indented form with object keys in ascending byte order, and a
//! line-by-line search over text, by regular expression or by literal text
//! without regard to case, that reports each match as a byte range of its
//! line.

use vstd::prelude::*;

pub mod laws;
pub mod printer;
pub mod search;
pub mod state;
pub mod text;

verus! {

} // verus!
