use vstd::prelude::*;

verus! {

/// The closed set of failure categories of a walk.
///
/// A category carries no payload: no path, no file content and no text
/// from the operating system, so that it can be shown to users without
/// revealing the layout of the filesystem.
#[derive(Debug, Clone, Copy, PartialEq, Eq, Structural)]
pub enum WalkError {
    /// The metadata of an entry (or of a followed link's target) could not be read.
    EntryMetadata,
    /// A directory could not be opened, or one of its items could not be enumerated.
    ReadDirectory,
    /// A generic I/O failure.
    IoError,
    /// The depth counter would overflow.
    DepthOverflow,
    /// A subdirectory was found while the work queue was full.
    QueueSizeExceeded,
    /// A directory holds more entries than a single read may enumerate.
    EntryLimitExceeded,
    /// A followed link leads back into a directory already entered.
    SymlinkCycle,
}

/// The fixed user-facing text of each category: a unique four-letter code,
/// a colon, and a short description without any path separator.
pub open spec fn error_message(e: WalkError) -> Seq<char> {
    match e {
        WalkError::EntryMetadata => "DWEM: entry metadata read failed"@,
        WalkError::ReadDirectory => "DWRD: directory read failed"@,
        WalkError::IoError => "DWIO: io operation failed"@,
        WalkError::DepthOverflow => "DWDO: depth overflow"@,
        WalkError::QueueSizeExceeded => "DWQS: queue size limit exceeded"@,
        WalkError::EntryLimitExceeded => "DWEL: entry limit per directory exceeded"@,
        WalkError::SymlinkCycle => "DWSC: symlink cycle detected"@,
    }
}

impl WalkError {
    /// The category's fixed message, safe to show in production output.
    pub fn message(&self) -> (r: &'static str)
        ensures
            r@ == error_message(*self),
    {
        match self {
            WalkError::EntryMetadata => "DWEM: entry metadata read failed",
            WalkError::ReadDirectory => "DWRD: directory read failed",
            WalkError::IoError => "DWIO: io operation failed",
            WalkError::DepthOverflow => "DWDO: depth overflow",
            WalkError::QueueSizeExceeded => "DWQS: queue size limit exceeded",
            WalkError::EntryLimitExceeded => "DWEL: entry limit per directory exceeded",
            WalkError::SymlinkCycle => "DWSC: symlink cycle detected",
        }
    }
}

} // verus!
