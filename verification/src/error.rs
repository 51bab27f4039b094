use vstd::prelude::*;

verus! {

/// Why a block could not be created or a region could not be handed out.
#[derive(Debug, Clone, Copy, PartialEq, Eq, Structural)]
#[must_use]
pub enum ArenaError {
    /// Zero-size blocks are invalid
    ZeroSize,
    /// Block alignment must be power of two
    BadAlignment,
    /// OOM, couldn't allocate block
    InsufficientMemory,
}

impl ArenaError {
    /// The text that describes each error.
    pub open spec fn message_text(self) -> Seq<char> {
        match self {
            ArenaError::BadAlignment => "Size should be non-zero and must be power of two."@,
            ArenaError::InsufficientMemory => "Out of Memory."@,
            ArenaError::ZeroSize => "Cannot allocate block of size zero"@,
        }
    }

    /// A human-readable description of the error.
    pub fn message(&self) -> (text: &'static str)
        ensures
            text@ == self.message_text(),
    {
        match self {
            ArenaError::BadAlignment => "Size should be non-zero and must be power of two.",
            ArenaError::InsufficientMemory => "Out of Memory.",
            ArenaError::ZeroSize => "Cannot allocate block of size zero",
        }
    }
}

} // verus!
