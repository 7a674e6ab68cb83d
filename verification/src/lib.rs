//! Verified core of a small shell-scripting toolkit: line splitting and
//! joining, directory-walk bookkeeping, filesystem-entry filters, glob
//! expansion, and the decision logic behind filesystem watching.

pub mod debounce;
pub mod entry;
pub mod error;
pub mod globbing;
pub mod lines;
pub mod ops;
pub mod paths;
pub mod temp;
pub mod text;
pub mod watch;
