//! A minimal address record.
use crate::text::{ascii_chars, decimal_bytes, i32_to_decimal};
use vstd::prelude::*;

verus! {

/// An address, identified by a number.
#[derive(Debug, Clone, Copy, PartialEq, Eq, Structural)]
pub struct Address {
    pub value: i32,
}

impl Address {
    /// The address numbered `value`.
    pub fn new(value: i32) -> (r: Address)
        ensures
            r.value == value,
    {
        Address { value }
    }

    /// The address's number in decimal.
    pub fn to_string(&self) -> (r: String)
        ensures
            r@ == ascii_chars(decimal_bytes(self.value as int)),
    {
        i32_to_decimal(self.value)
    }
}

} // verus!
