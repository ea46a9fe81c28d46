use vstd::prelude::*;

verus! {

/// The kind of I/O failure the storage layer itself can detect:
/// a write-ahead log whose trailing record is incomplete.
#[derive(Clone, Copy, Debug, PartialEq, Eq, Structural)]
pub enum IoErrorKind {
    Truncated,
}

/// Errors surfaced on the synchronous call path of the engine.
#[derive(Clone, Copy, Debug, PartialEq, Eq, Structural)]
pub enum LsmError {
    IoError(IoErrorKind),
    InvalidArgument,
}

} // verus!
