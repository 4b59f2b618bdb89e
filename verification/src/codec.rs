//! Turning one form of a value into another.

use crate::error::CarError;
use vstd::prelude::*;

verus! {

/// A value that can be read as a `T`.
pub trait Decoder<T> {
    fn decode(&self) -> Result<T, CarError>;
}

/// A value that can be written as a `T`.
pub trait Encoder<T> {
    fn encode(&self) -> Result<T, CarError>;
}

} // verus!
