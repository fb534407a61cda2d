//! Applying schemas to a filesystem: walking from a root to a target path, then constructing
//! everything the schema describes there.
pub mod eval;
pub mod pattern;
pub mod plan;
pub mod stack;
pub mod walk;

pub use self::stack::{StackFrame, Value, VariableSource};
pub use self::walk::traverse;
