//! Storage core: ordered key encoding, a transactional key/value model with
//! content-addressed blobs, and a bitmap-backed query filter engine.

pub mod backend;
pub mod bitmap;
pub mod codec;
pub mod engine;
pub mod filter;
pub mod keys;
pub mod order;
pub mod query;
pub mod resolve;
pub mod rules;
pub mod sort;

use vstd::prelude::*;

verus! {

/// The two failure kinds of the store.
pub enum Error {
    /// A backend, I/O or decoding fault, with a message.
    InternalError(String),
    /// A conditional write whose expected prior value did not hold.
    AssertValueFailed,
}

impl From<String> for Error {
    fn from(msg: String) -> (r: Error)
        ensures
            r == Error::InternalError(msg),
    {
        Error::InternalError(msg)
    }
}

impl vstd::std_specs::convert::FromSpecImpl<String> for Error {
    open spec fn obeys_from_spec() -> bool {
        true
    }

    open spec fn from_spec(msg: String) -> Error {
        Error::InternalError(msg)
    }
}

} // verus!
