//! The error of the program's outer layer: the interpreter, the file system
//! and the session store each fail in their own way.
use vstd::prelude::*;

verus! {

#[verifier::external_type_specification]
#[verifier::external_body]
pub struct ExIoError(std::io::Error);

/// Everything that stops a command of the program.
#[derive(Debug)]
pub enum Error {
    Ghc(String),
    Io(std::io::Error),
    Session(String),
}

/// `std::io::Error`'s `Display`: the text of the error, which for an error of
/// the operating system comes from the system. Nothing is stated of it.
#[verifier::external_body]
fn io_text(e: &std::io::Error) -> (r: String) {
    e.to_string()
}

impl Error {
    /// The message shown to the user: the kind of failure, a colon and a
    /// space, then its text.
    pub fn message(&self) -> (r: String)
        ensures
            match self {
                Error::Ghc(m) => r@ == "ghci: "@ + m@,
                Error::Io(_) => r@.len() >= 4 && r@.take(4) == "io: "@,
                Error::Session(m) => r@ == "session: "@ + m@,
            },
    {
        match self {
            Error::Ghc(m) => {
                let mut r = String::new();
                r.append("ghci: ");
                r.append(m.as_str());
                r
            },
            Error::Io(e) => {
                let t = io_text(e);
                let mut r = String::new();
                r.append("io: ");
                r.append(t.as_str());
                proof {
                    reveal_strlit("io: ");
                }
                assert(r@.take(4) =~= "io: "@);
                r
            },
            Error::Session(m) => {
                let mut r = String::new();
                r.append("session: ");
                r.append(m.as_str());
                r
            },
        }
    }
}

impl From<std::io::Error> for Error {
    fn from(e: std::io::Error) -> (r: Self) {
        Error::Io(e)
    }
}

impl vstd::std_specs::convert::FromSpecImpl<std::io::Error> for Error {
    open spec fn obeys_from_spec() -> bool {
        true
    }

    open spec fn from_spec(v: std::io::Error) -> Error {
        Error::Io(v)
    }
}

} // verus!
