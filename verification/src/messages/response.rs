//! The payload of one response.

use vstd::prelude::*;

verus! {

/// What a [`crate::messages::Response`] carries back: an acknowledgement
/// for a put, or the found value for a get. A miss is answered with no kind
/// at all, which keeps "absent" distinct from "present but empty".
#[derive(Debug, PartialEq)]
pub enum Kind {
    Ack(bool),
    Value(crate::messages::Value),
}

} // verus!
