//! Differences between two values: minimal edit scripts over sequences,
//! hunks with bounded context, the unified-diff text form, and structural
//! change lists over nested trees, each with a way to apply them back.

pub mod myers;
pub mod patch;
pub mod recursive;
pub mod serialization;
mod text;

pub use myers::{diff_lines, Edit, Element};
pub use recursive::{apply, diff};
