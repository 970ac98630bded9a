use vstd::prelude::*;

use crate::error::MicrodeError;

verus! {

/// A non-blocking request for orderly lifecycle termination.
#[derive(Debug, Clone, PartialEq, Eq, Default)]
pub struct MicrodeStopRequest {
    pub exit_code: Option<i32>,
    pub error: Option<MicrodeError>,
}

impl MicrodeStopRequest {
    /// A request to stop without an exit code or an error.
    pub fn success() -> (request: Self)
        ensures
            request.exit_code is None,
            request.error is None,
    {
        MicrodeStopRequest { exit_code: None, error: None }
    }

    /// A request to stop with the given exit code.
    pub fn with_exit_code(exit_code: i32) -> (request: Self)
        ensures
            request.exit_code == Some(exit_code),
            request.error is None,
    {
        MicrodeStopRequest { exit_code: Some(exit_code), error: None }
    }

    /// A request to stop that reports `error`.
    pub fn with_error(error: MicrodeError) -> (request: Self)
        ensures
            request.exit_code is None,
            request.error == Some(error),
    {
        MicrodeStopRequest { exit_code: None, error: Some(error) }
    }

    /// A request to stop with the given exit code that reports `error`.
    pub fn with_exit_code_and_error(exit_code: i32, error: MicrodeError) -> (request: Self)
        ensures
            request.exit_code == Some(exit_code),
            request.error == Some(error),
    {
        MicrodeStopRequest { exit_code: Some(exit_code), error: Some(error) }
    }
}

} // verus!
