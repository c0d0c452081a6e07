//! The error type that every fallible operation of the library returns.

use crate::text::{decimal, push_decimal};
use vstd::prelude::*;
use vstd::string::*;

verus! {

#[derive(Debug, Clone)]
pub enum ExtError {
    /// The device could not be read; holds the system's description.
    Io(String),
    /// The filesystem contradicts itself.
    Corrupt(String),
    NotFound(String),
    NotDir(u32),
    Unsupported(String),
    /// The operation needs this physical block, which has not been supplied yet.
    Pending(u64),
}

pub type Result<T> = std::result::Result<T, ExtError>;

/// What an error says, with its texts as character sequences.
pub enum Fault {
    Io(Seq<char>),
    Corrupt(Seq<char>),
    NotFound(Seq<char>),
    NotDir(u32),
    Unsupported(Seq<char>),
    Pending(u64),
}

impl View for ExtError {
    type V = Fault;

    open spec fn view(&self) -> Fault {
        match *self {
            ExtError::Io(m) => Fault::Io(m@),
            ExtError::Corrupt(m) => Fault::Corrupt(m@),
            ExtError::NotFound(p) => Fault::NotFound(p@),
            ExtError::NotDir(i) => Fault::NotDir(i),
            ExtError::Unsupported(m) => Fault::Unsupported(m@),
            ExtError::Pending(b) => Fault::Pending(b),
        }
    }
}

/// What an operation comes to: a value, or what its error says.
pub type Outcome<T> = std::result::Result<T, Fault>;

/// The model of a result: the value's view, or what the error says.
pub open spec fn outcome<T: View>(r: Result<T>) -> Outcome<T::V> {
    match r {
        Ok(x) => Ok(x@),
        Err(e) => Err(e@),
    }
}

/// The sentence that describes an error to a user.
pub open spec fn fault_text(f: Fault) -> Seq<char> {
    match f {
        Fault::Io(m) => "I/O error: "@ + m,
        Fault::Corrupt(m) => "corrupt filesystem: "@ + m,
        Fault::NotFound(p) => "no such file or directory: "@ + p,
        Fault::NotDir(i) => "inode "@ + decimal(i as nat) + " is not a directory"@,
        Fault::Unsupported(m) => "unsupported feature: "@ + m,
        Fault::Pending(b) => "block "@ + decimal(b as nat) + " has not been supplied"@,
    }
}

/// Every message begins with the kind of the error, and ends with its details.
pub proof fn law_messages(m: Seq<char>, i: u32, p: u64)
    ensures
        fault_text(Fault::Io(m)) == "I/O error: "@ + m,
        fault_text(Fault::Corrupt(m)) == "corrupt filesystem: "@ + m,
        fault_text(Fault::NotFound(m)) == "no such file or directory: "@ + m,
        fault_text(Fault::NotDir(i)) == "inode "@ + decimal(i as nat) + " is not a directory"@,
        fault_text(Fault::Unsupported(m)) == "unsupported feature: "@ + m,
        fault_text(Fault::Pending(p)) == "block "@ + decimal(p as nat) + " has not been supplied"@,
{
}

pub(crate) fn corrupt(message: &str) -> (e: ExtError)
    ensures
        e@ == Fault::Corrupt(message@),
{
    ExtError::Corrupt(message.to_owned())
}

pub(crate) fn unsupported(message: &str) -> (e: ExtError)
    ensures
        e@ == Fault::Unsupported(message@),
{
    ExtError::Unsupported(message.to_owned())
}

impl ExtError {
    /// The sentence that describes this error to a user.
    pub fn message(&self) -> (s: String)
        ensures
            s@ == fault_text(self@),
    {
        match self {
            ExtError::Io(m) => {
                let mut s = "I/O error: ".to_owned();
                s.append(m.as_str());
                s
            },
            ExtError::Corrupt(m) => {
                let mut s = "corrupt filesystem: ".to_owned();
                s.append(m.as_str());
                s
            },
            ExtError::NotFound(p) => {
                let mut s = "no such file or directory: ".to_owned();
                s.append(p.as_str());
                s
            },
            ExtError::NotDir(i) => {
                let mut s = "inode ".to_owned();
                push_decimal(&mut s, *i as u64);
                s.append(" is not a directory");
                s
            },
            ExtError::Unsupported(m) => {
                let mut s = "unsupported feature: ".to_owned();
                s.append(m.as_str());
                s
            },
            ExtError::Pending(b) => {
                let mut s = "block ".to_owned();
                push_decimal(&mut s, *b);
                s.append(" has not been supplied");
                s
            },
        }
    }
}

} // verus!
