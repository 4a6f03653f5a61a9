//! What can go wrong in the estimator.
use vstd::prelude::*;
use vstd::string::StringExecFns;

verus! {

/// Errors from the estimator.
#[derive(Debug)]
pub enum Error {
    /// The Fourier transform failed, for the given reason.
    Fft(String),
}

impl Error {
    /// The reason for the failure.
    pub open spec fn reason(self) -> Seq<char> {
        match self {
            Error::Fft(s) => s@,
        }
    }

    /// A message that says what failed and why.
    pub fn to_string(&self) -> (message: String)
        ensures
            message@ == "fft error: "@ + self.reason(),
    {
        match self {
            Error::Fft(s) => {
                let mut message = String::from_str("fft error: ");
                message.append(s.as_str());
                message
            },
        }
    }
}

} // verus!
