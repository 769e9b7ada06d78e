//! The uniform answer that every user-facing operation returns.

use vstd::prelude::*;

verus! {

/// Either data (on success) or an error message, never both.
pub struct CommandResult<T> {
    pub success: bool,
    pub data: Option<T>,
    pub error: Option<String>,
}

impl<T> CommandResult<T> {
    /// A successful answer carrying `data`.
    pub fn ok(data: T) -> (r: Self)
        ensures
            r.success,
            r.data == Some(data),
            r.error is None,
    {
        CommandResult { success: true, data: Some(data), error: None }
    }

    /// A failed answer carrying the message `error`.
    pub fn err(error: String) -> (r: Self)
        ensures
            !r.success,
            r.data is None,
            r.error == Some(error),
    {
        CommandResult { success: false, data: None, error: Some(error) }
    }
}

} // verus!
