//! Interactive viewer core for traces of captured program states.
//!
//! A trace is an ordered sequence of snapshots, each a named set of nested
//! values.  The core computes a structural diff between consecutive
//! snapshots, keeps the set of expanded tree paths, and flattens the current
//! snapshot into displayable lines.  Terminal I/O and painting live outside
//! the library.

pub mod value;
pub mod diff;
pub mod expand;
pub mod tree;
pub mod session;

pub use value::{PathSeg, SegModel, Value, Snapshot, Trace};
pub use diff::{compute_diff, DiffKind, DiffResult};
pub use expand::ExpansionState;
pub use tree::{render_value, SemStyle, StyledSpan, TreeLine};
pub use session::{App, Command, apply_command, build_tree_lines, compute_diff_for_state, auto_expand_changes};
