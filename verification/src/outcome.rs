use vstd::prelude::*;
use crate::error::NotifyError;
use crate::error::error_of_code;

verus! {

/// Interprets the raw outputs of a registration call: on status 0 the token
/// the daemon wrote back is the subscription handle; any other status maps
/// through the error taxonomy.
pub fn register_outcome(code: u32, token: i32) -> (r: Result<i32, NotifyError>)
    ensures
        code == 0 ==> r == Ok::<i32, NotifyError>(token),
        code != 0 ==> r == Err::<i32, NotifyError>(error_of_code(code)),
{
    match code {
        0 => Ok(token),
        _ => Err(NotifyError::from_u32(code)),
    }
}

/// Interprets the raw outputs of a get-state call: on status 0 the 64-bit
/// value the daemon wrote back is the state; any other status maps through
/// the error taxonomy.
pub fn get_state_outcome(code: u32, state: u64) -> (r: Result<u64, NotifyError>)
    ensures
        code == 0 ==> r == Ok::<u64, NotifyError>(state),
        code != 0 ==> r == Err::<u64, NotifyError>(error_of_code(code)),
{
    match code {
        0 => Ok(state),
        _ => Err(NotifyError::from_u32(code)),
    }
}

/// Interprets the raw outputs of a check call: on status 0 the flag the
/// daemon wrote back means "notifications were posted" exactly when it is 1;
/// any other flag value on a success status means false. A non-zero status
/// maps through the error taxonomy.
pub fn check_outcome(code: u32, flag: i32) -> (r: Result<bool, NotifyError>)
    ensures
        code == 0 ==> r == Ok::<bool, NotifyError>(flag == 1),
        code != 0 ==> r == Err::<bool, NotifyError>(error_of_code(code)),
{
    match code {
        0 => Ok(flag == 1),
        _ => Err(NotifyError::from_u32(code)),
    }
}

} // verus!
