use vstd::prelude::*;

use crate::error::Error;

verus! {

/// Maps an object handed back by the TLS engine, absent when the engine
/// failed, to a result.
pub fn map_result_ptr<'a, T>(result: Option<&'a T>) -> (r: Result<&'a T, Error>)
    ensures
        match result {
            Some(v) => r == Ok::<&T, Error>(v),
            None => r == Err::<&T, Error>(Error::TlsFail),
        },
{
    match result {
        Some(v) => Ok(v),
        None => Err(Error::TlsFail),
    }
}

} // verus!
