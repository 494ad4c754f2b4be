//! The `init` command.

use vstd::prelude::*;
use crate::errors::Error;
use crate::init::InitError;

verus! {

/// Concludes the bootstrap: a failure of it is reported as a corrupt store,
/// with the failure's own message.
pub fn execute(outcome: Result<(), InitError>) -> (res: Result<(), Error>)
    ensures
        outcome is Ok ==> res is Ok,
        outcome matches Err(InitError::Message(m)) ==> res is Err && res->Err_0.is_store_corruption(
            m@,
        ),
{
    match outcome {
        Ok(()) => Ok(()),
        Err(InitError::Message(message)) => Err(Error::StoreCorruption { message }),
    }
}

} // verus!
