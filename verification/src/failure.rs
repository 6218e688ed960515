//! What is known of a failed system call.
use vstd::prelude::*;
use vstd::string::*;

verus! {

/// The kinds of failure that decisions depend on.
#[derive(Debug, Clone, Copy, PartialEq, Eq, Structural)]
pub enum ErrorKind {
    Interrupted,
    InvalidInput,
    Other,
}

/// A failed system call: its kind and what it says to a reader.
#[derive(Debug)]
pub struct IoError {
    pub kind: ErrorKind,
    pub message: String,
}

/// The model of an `IoError`.
pub struct IoErrorView {
    pub kind: ErrorKind,
    pub message: Seq<char>,
}

impl View for IoError {
    type V = IoErrorView;

    open spec fn view(&self) -> IoErrorView {
        IoErrorView { kind: self.kind, message: self.message@ }
    }
}

/// The failure that stands for a requested stop.
pub open spec fn aborted_view() -> IoErrorView {
    IoErrorView { kind: ErrorKind::Interrupted, message: "aborted"@ }
}

impl IoError {
    pub fn new(kind: ErrorKind, message: &str) -> (error: IoError)
        ensures
            error@ == (IoErrorView { kind, message: message@ }),
            error.kind == kind,
            error.message@ == message@,
    {
        IoError { kind, message: String::from_str(message) }
    }

    /// The failure that stands for a requested stop.
    pub fn aborted() -> (error: IoError)
        ensures
            error@ == aborted_view(),
            error.kind == ErrorKind::Interrupted,
            error.message@ == "aborted"@,
    {
        IoError::new(ErrorKind::Interrupted, "aborted")
    }

    pub fn is_interrupted(&self) -> (b: bool)
        ensures
            b == (self@.kind == ErrorKind::Interrupted),
            b == (self.kind == ErrorKind::Interrupted),
    {
        self.kind == ErrorKind::Interrupted
    }
}

impl Clone for IoError {
    fn clone(&self) -> (other: Self)
        ensures
            other@ == self@,
            other.kind == self.kind,
            other.message@ == self.message@,
    {
        IoError { kind: self.kind, message: self.message.clone() }
    }
}

} // verus!
