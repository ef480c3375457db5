//! The ways in which splitting and rebuilding can fail.

use vstd::prelude::*;
use vstd::string::*;

verus! {

/// Why an operation on a chunk directory did not go through.
#[derive(Clone, Copy, Debug, PartialEq, Eq, Structural)]
pub enum ChunkError {
    /// The file to split does not exist, or is no regular file.
    NotFound,
    /// The directory that is to take the chunks already holds something.
    AlreadyPopulated,
    /// Reading, writing or creating a file failed.
    IoFailure,
    /// The record of the file's name cannot be read back as that name.
    MalformedMetadata,
}

impl ChunkError {
    /// The text shown to the user for this error.
    pub open spec fn message_text(self) -> Seq<char> {
        match self {
            ChunkError::NotFound => "File does not exist."@,
            ChunkError::AlreadyPopulated => "Directory is not empty"@,
            ChunkError::IoFailure => "Input or output failed"@,
            ChunkError::MalformedMetadata => "File name record is malformed"@,
        }
    }

    /// The text shown to the user for this error.
    pub fn message(&self) -> (r: String)
        ensures
            r@ == self.message_text(),
    {
        match self {
            ChunkError::NotFound => String::from_str("File does not exist."),
            ChunkError::AlreadyPopulated => String::from_str("Directory is not empty"),
            ChunkError::IoFailure => String::from_str("Input or output failed"),
            ChunkError::MalformedMetadata => String::from_str("File name record is malformed"),
        }
    }
}

} // verus!
