//! The errors of the bounded queue.

use vstd::prelude::*;

verus! {

/// What went wrong in an operation on a data structure.
#[derive(Debug, Clone, Copy, PartialEq, Eq, Structural)]
#[non_exhaustive]
pub enum ErrorKind {
    /// An element was asked of an empty queue.
    QueueUnderflow,
    /// An element was offered to a full queue.
    QueueOverflow,
}

impl ErrorKind {
    /// A sentence that describes the error.
    pub fn message(&self) -> (text: String)
        ensures
            *self is QueueOverflow ==> text@
                == "failed to enqueue a new element to already full queue."@,
            *self is QueueUnderflow ==> text@ == "cannot dequeue element from an empty queue"@,
    {
        match self {
            ErrorKind::QueueOverflow => {
                "failed to enqueue a new element to already full queue.".to_owned()
            },
            ErrorKind::QueueUnderflow => "cannot dequeue element from an empty queue".to_owned(),
        }
    }
}

/// An error of an operation on a data structure.
#[derive(Debug, Clone, Copy, PartialEq, Eq, Structural)]
pub struct Error {
    kind: ErrorKind,
}

impl Error {
    /// The kind of the error.
    pub closed spec fn kind(&self) -> ErrorKind {
        self.kind
    }

    /// Creates an error of the given kind.
    pub fn new(kind: ErrorKind) -> (error: Self)
        ensures
            error.kind() == kind,
    {
        Self { kind }
    }

    /// The kind of error that this is.
    pub fn source(&self) -> (kind: ErrorKind)
        ensures
            kind == self.kind(),
    {
        self.kind
    }

    /// A sentence that describes the error: that of its kind.
    pub fn message(&self) -> (text: String)
        ensures
            self.kind() is QueueOverflow ==> text@
                == "failed to enqueue a new element to already full queue."@,
            self.kind() is QueueUnderflow ==> text@
                == "cannot dequeue element from an empty queue"@,
    {
        self.kind.message()
    }
}

} // verus!
