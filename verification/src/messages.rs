//! The wire-level request and response records of the store, as plain data.
//!
//! The transport encodes and decodes these outside the library; here they
//! are the values the verified command handlers work on. A request arrives
//! as an [`Rpc`] carrying a [`Put`] or a [`Get`] command, and every request
//! is answered with one [`Response`].

use vstd::prelude::*;

pub mod response;
pub mod rpc;
pub mod value;

verus! {

/// An action requested of the store, correlated by `id`.
#[derive(Debug, PartialEq)]
pub struct Rpc {
    pub id: u64,
    pub code: u32,
    pub command: Option<rpc::Command>,
}

/// The store's answer to one [`Rpc`], correlated by `id`.
#[derive(Debug, PartialEq)]
pub struct Response {
    pub id: u64,
    pub code: u32,
    pub kind: Option<response::Kind>,
}

/// An opaque payload value: a byte blob, a text string, or a table of
/// nested values. An empty `kind` is a malformed value.
#[derive(Debug, PartialEq)]
pub struct Value {
    pub kind: Option<value::Kind>,
}

/// The wire form of a table payload: string keys beside nested values.
#[derive(Debug, PartialEq)]
pub struct ValueMap {
    pub map: Vec<(String, Value)>,
}

/// A request to bind `key` to `value`.
#[derive(Debug, PartialEq)]
pub struct Put {
    pub key: Vec<u8>,
    pub value: Option<Value>,
}

/// A request to read the value bound to `key`.
#[derive(Debug, PartialEq)]
pub struct Get {
    pub key: Vec<u8>,
}

} // verus!
