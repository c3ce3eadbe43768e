use vstd::prelude::*;

verus! {

/// What running a program reports: whether it counts as success.
pub trait Success {
    /// Whether the status counts as success, in contracts.
    spec fn succeeded(&self) -> bool;

    /// Whether the status counts as success.
    fn success(&self) -> (b: bool)
        ensures
            b == self.succeeded(),
    ;
}

impl Success for bool {
    open spec fn succeeded(&self) -> bool {
        *self
    }

    fn success(&self) -> (b: bool) {
        *self
    }
}

/// A status of any type, with whether it counts as success. This is for statuses of a type
/// that cannot tell the verifier so itself, such as the exit status of a process: whoever
/// runs the program asks the status once and records the answer beside it.
#[derive(Debug, PartialEq, Eq)]
pub struct Exit<T> {
    pub status: T,
    pub success: bool,
}

impl<T> Success for Exit<T> {
    open spec fn succeeded(&self) -> bool {
        self.success
    }

    fn success(&self) -> (b: bool) {
        self.success
    }
}

/// A program could not be started or waited for.
#[derive(Debug, PartialEq, Eq)]
pub struct ExecError {
    pub message: String,
}

impl ExecError {
    /// An error that carries `message`.
    pub fn new(message: &str) -> (e: ExecError)
        ensures
            e.message@ == message@,
    {
        ExecError { message: message.to_owned() }
    }
}

} // verus!
