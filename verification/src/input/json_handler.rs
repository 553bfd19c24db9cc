//! Boards from an array of records.

use vstd::prelude::*;
use crate::input::error::LoadError;

verus! {

/// The loader for arrays of records that hold a matrix each.
pub struct JsonHandler;

impl JsonHandler {
    /// Accepts the matrices of a decoded array of records: all of them, in
    /// order, unless there is none.
    pub fn boards_from_records(records: Vec<Vec<Vec<u8>>>) -> (res: Result<
        Vec<Vec<Vec<u8>>>,
        LoadError,
    >)
        ensures
            match res {
                Ok(boards) => boards == records && records@.len() > 0,
                Err(e) => e == LoadError::NoBoardsFound && records@.len() == 0,
            },
    {
        if records.is_empty() {
            return Err(LoadError::NoBoardsFound);
        }
        Ok(records)
    }
}

} // verus!
