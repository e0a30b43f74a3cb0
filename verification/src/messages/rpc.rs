//! The command carried by one request.

use vstd::prelude::*;

verus! {

/// What an [`crate::messages::Rpc`] asks the store to do.
#[derive(Debug, PartialEq)]
pub enum Command {
    Put(crate::messages::Put),
    Get(crate::messages::Get),
}

} // verus!
