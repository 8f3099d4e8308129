//! What stands around the parser: sources, the handling of their
//! results, and diagnostics.

pub mod diagnostic;
pub mod source;
pub mod test_utils;
