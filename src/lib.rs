//! Typed, zero-copy views over the import and export records that a module-syntax
//! scanner reports for a source text, and the decoder for escapes in string-literal
//! specifiers.
use vstd::prelude::*;

pub mod laws;
pub mod record;
pub mod text;
pub mod unescape;

pub use record::{Export, Import, ImportKind, LexResult, ResultIter};
pub use text::Text;
pub use unescape::unescape;

verus! {

} // verus!
