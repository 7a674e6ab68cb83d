//! The toolkit's error type.
use vstd::prelude::*;

verus! {

/// `std::io::Error`, carried through opaquely.
#[verifier::external_type_specification]
#[verifier::external_body]
pub struct ExIoError(std::io::Error);

/// What went wrong.
#[derive(Debug)]
pub enum Error {
    /// An input/output operation failed.
    Io(std::io::Error),
    /// A glob pattern could not be compiled; `pos` is the approximate
    /// character index of the problem.
    Pattern { pos: usize, message: String },
    /// A path matched a glob pattern so far, but could not be read further.
    Glob { path: String, message: String },
    /// The filesystem watcher reported a failure.
    Watch { message: String },
    /// A path is not valid Unicode; `lossy` shows it with the invalid parts
    /// replaced.
    NonUtf8Path { lossy: String },
    /// An entry to be copied does not lie below the root it is copied from,
    /// or its place below the destination would lie outside the destination.
    OutsideRoot { path: String },
}

/// A `Result` whose error is the toolkit's.
pub type Result<T> = std::result::Result<T, Error>;

} // verus!
