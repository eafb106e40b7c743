//! The conditions on which a run fails. Every failure aborts the whole run:
//! none of these is recovered internally, and no partial output is written.

use vstd::prelude::*;

verus! {

/// A distinct, user-reportable failure condition.
///
/// Variants that carry a `String` name the offending path or pattern.
#[derive(Debug, PartialEq, Eq)]
pub enum ErrorKind {
    /// The requested operation (folder-based frame selection) is not implemented.
    Unimplemented,
    /// A frame could not be decoded.
    CouldNotOpenImage(String),
    /// A band could not be copied out of a frame into the output buffer.
    CouldNotProcessImage(String),
    /// The finished output buffer could not be encoded and written.
    CouldNotSaveOutput(String),
    /// The file mask could not be parsed into a usable sequence pattern.
    CouldNotParseFilemask(String),
    /// The path-resolution stage failed overall (wraps the conditions above).
    CouldNotGetPaths,
    /// The mask string holds no sequence-number placeholder.
    NoFileMaskFound,
    /// Probing the mask's candidate names found no existing file.
    NoFilesFound,
    /// The mask string holds more than one placeholder, which is ambiguous.
    MultipleFileMasks,
}

} // verus!
