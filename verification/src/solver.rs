//! What the solver answers, and how its answer is read.

use crate::keys::bytes_equal;
use vstd::prelude::*;
use vstd::string::StringExecFns;
use vstd::string::StringSliceAdditionalSpecFns;

verus! {

/// The error of an input or output operation, as the standard library
/// reports it. Nothing is known of its content here.
#[verifier::external_type_specification]
#[verifier::external_body]
pub struct ExIoError(std::io::Error);

/// The solver's verdict on a document.
#[derive(Debug, Copy, Clone, PartialEq, Eq, Structural)]
pub enum Satisfiability {
    Satisfiable,
    Unsatisfiable,
}

/// Why no verdict was had from the solver.
#[derive(Debug)]
pub enum MonosatError {
    /// The solver could not be started or talked to.
    Io(std::io::Error),
    /// The solver's output is none of the answers it may give.
    OutputParseError,
}

/// The text of an input or output error, as `std::io::Error` formats itself
/// for display. The text is the operating system's, so nothing is said of
/// it.
#[verifier::external_body]
fn io_error_text(e: &std::io::Error) -> (text: String) {
    format!("{}", e)
}

impl MonosatError {
    /// The error in words.
    pub fn message(&self) -> (text: String)
        ensures
            self is OutputParseError ==> text@ == "Error parsing MonoSAT output"@,
    {
        match self {
            MonosatError::Io(e) => io_error_text(e),
            MonosatError::OutputParseError => String::from_str("Error parsing MonoSAT output"),
        }
    }
}

impl From<std::io::Error> for MonosatError {
    fn from(e: std::io::Error) -> (error: MonosatError) {
        MonosatError::Io(e)
    }
}

impl vstd::std_specs::convert::FromSpecImpl<std::io::Error> for MonosatError {
    open spec fn obeys_from_spec() -> bool {
        true
    }

    open spec fn from_spec(e: std::io::Error) -> MonosatError {
        MonosatError::Io(e)
    }
}

/// Reads the solver's answer. The output has to be one of the two answers,
/// byte for byte, with the line's end; anything else is an error.
pub fn parse_monosat_output(stdout: &[u8]) -> (r: Result<Satisfiability, MonosatError>)
    ensures
        stdout@ == "s SATISFIABLE\n".spec_bytes() ==> r == Ok::<Satisfiability, MonosatError>(
            Satisfiability::Satisfiable,
        ),
        stdout@ != "s SATISFIABLE\n".spec_bytes() && stdout@ == "s UNSATISFIABLE\n".spec_bytes()
            ==> r == Ok::<Satisfiability, MonosatError>(Satisfiability::Unsatisfiable),
        stdout@ != "s SATISFIABLE\n".spec_bytes() && stdout@ != "s UNSATISFIABLE\n".spec_bytes()
            ==> r == Err::<Satisfiability, MonosatError>(MonosatError::OutputParseError),
{
    if bytes_equal(stdout, "s SATISFIABLE\n".as_bytes()) {
        Ok(Satisfiability::Satisfiable)
    } else if bytes_equal(stdout, "s UNSATISFIABLE\n".as_bytes()) {
        Ok(Satisfiability::Unsatisfiable)
    } else {
        Err(MonosatError::OutputParseError)
    }
}

/// Whether a verdict says that the history can be explained: that its
/// transactions can be put in an order that respects real time and in which
/// every read sees what was written last.
pub fn is_serializable(verdict: Satisfiability) -> (r: bool)
    ensures
        r == (verdict == Satisfiability::Satisfiable),
{
    match verdict {
        Satisfiability::Satisfiable => true,
        Satisfiability::Unsatisfiable => false,
    }
}

} // verus!
