//! The payload variants of a wire value.

use vstd::prelude::*;

verus! {

/// The three shapes a payload can take on the wire.
#[derive(Debug, PartialEq)]
pub enum Kind {
    Blob(Vec<u8>),
    Text(String),
    Table(crate::messages::ValueMap),
}

} // verus!
