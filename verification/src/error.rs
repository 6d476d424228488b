use vstd::prelude::*;

verus! {

/// Errors reported by the notification daemon, one variant per documented
/// status code, plus `Unknown` as a forward-compatibility fallback for
/// codes outside the documented set.
#[derive(Clone, Copy, Debug, PartialEq, Eq, Structural)]
pub enum NotifyError {
    InvalidName,
    InvalidToken,
    InvalidPort,
    InvalidFile,
    InvalidSignal,
    InvalidRequest,
    NotAuthorized,
    OptDisabled,
    ServerNotFound,
    NullInput,
    Failed,
    Unknown,
}

/// The daemon's documented status-code table: which error kind each raw
/// non-zero code stands for. Code 0 means success and is never an error;
/// `result_of_code` handles it.
pub open spec fn error_of_code(code: u32) -> NotifyError {
    if code == 1 {
        NotifyError::InvalidName
    } else if code == 2 {
        NotifyError::InvalidToken
    } else if code == 3 {
        NotifyError::InvalidPort
    } else if code == 4 {
        NotifyError::InvalidFile
    } else if code == 5 {
        NotifyError::InvalidSignal
    } else if code == 6 {
        NotifyError::InvalidRequest
    } else if code == 7 {
        NotifyError::NotAuthorized
    } else if code == 8 {
        NotifyError::OptDisabled
    } else if code == 9 {
        NotifyError::ServerNotFound
    } else if code == 10 {
        NotifyError::NullInput
    } else if code == 1000000 {
        NotifyError::Failed
    } else {
        NotifyError::Unknown
    }
}

/// What funneling a raw status code through the single conversion point
/// yields: 0 is success, everything else the mapped error kind.
pub open spec fn result_of_code(code: u32) -> Result<(), NotifyError> {
    if code == 0 {
        Ok(())
    } else {
        Err(error_of_code(code))
    }
}

impl NotifyError {
    /// Total classification of a raw status code: every 32-bit input maps to
    /// exactly one kind, with unrecognized codes falling back to `Unknown`.
    pub fn from_u32(code: u32) -> (r: NotifyError)
        ensures
            r == error_of_code(code),
    {
        match code {
            1 => NotifyError::InvalidName,
            2 => NotifyError::InvalidToken,
            3 => NotifyError::InvalidPort,
            4 => NotifyError::InvalidFile,
            5 => NotifyError::InvalidSignal,
            6 => NotifyError::InvalidRequest,
            7 => NotifyError::NotAuthorized,
            8 => NotifyError::OptDisabled,
            9 => NotifyError::ServerNotFound,
            10 => NotifyError::NullInput,
            1000000 => NotifyError::Failed,
            _ => NotifyError::Unknown,
        }
    }

    /// A fixed description of the error kind, usable by callers that want to
    /// render the error as text.
    pub fn describe(&self) -> &'static str {
        match self {
            NotifyError::InvalidName => "invalid name",
            NotifyError::InvalidToken => "invalid token",
            NotifyError::InvalidPort => "invalid port",
            NotifyError::InvalidFile => "invalid file",
            NotifyError::InvalidSignal => "invalid signal",
            NotifyError::InvalidRequest => "invalid request",
            NotifyError::NotAuthorized => "not authorized",
            NotifyError::OptDisabled => "notification option disabled",
            NotifyError::ServerNotFound => "notification server not found",
            NotifyError::NullInput => "null input",
            NotifyError::Failed => "internal failure",
            NotifyError::Unknown => "unknown error, most certainly a bug",
        }
    }
}

/// The single conversion point every daemon-facing operation funnels its raw
/// return code through: 0 becomes success, anything else the mapped error.
pub fn status_to_result(code: u32) -> (r: Result<(), NotifyError>)
    ensures
        r == result_of_code(code),
        r is Ok <==> code == 0,
{
    if code == 0 {
        Ok(())
    } else {
        Err(NotifyError::from_u32(code))
    }
}

} // verus!
