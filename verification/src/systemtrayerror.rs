//! Error management for XML-Proc
use vstd::prelude::*;

verus! {

/// The error of this program: a message.
#[derive(Debug)]
pub struct SystemTrayError {
    pub message: String,
}

impl SystemTrayError {
    /// An error with the message `msg`.
    pub fn _new(msg: &str) -> (res: SystemTrayError)
        ensures
            res.message@ == msg@,
    {
        SystemTrayError { message: msg.to_owned() }
    }

    /// What the error displays: its message.
    pub fn to_string(&self) -> (res: String)
        ensures
            res@ == self.message@,
    {
        self.message.clone()
    }
}

} // verus!
