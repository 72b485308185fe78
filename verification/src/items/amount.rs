//! The quantity model: a validated, non-negative amount of some item.
//!
//! An `Amount` is immutable; every arithmetic operation produces a new
//! value, so a quantity can never be mutated out of its invariant.
use vstd::prelude::*;

verus! {

/// Error carrying the raw value that was rejected at quantity construction.
#[derive(Clone, Copy, PartialEq, Eq, Structural, Debug)]
pub struct AmountError(pub i64);

/// A non-negative quantity of some item.
///
/// The quantity is represented by an unsigned machine word, so every value
/// of the type is a valid (defined, non-negative) quantity by construction.
#[derive(Clone, Copy, PartialEq, Eq, Structural, Debug, Hash)]
pub struct Amount(u64);

impl View for Amount {
    type V = nat;

    closed spec fn view(&self) -> nat {
        self.0 as nat
    }
}

impl Amount {
    /// Validates a raw signed value: strictly negative values are rejected,
    /// and the error carries the offending value.
    pub fn new(raw: i64) -> (r: Result<Amount, AmountError>)
        ensures
            raw >= 0 <==> r is Ok,
            r matches Ok(a) ==> a@ == raw as nat,
            r matches Err(e) ==> e == (AmountError(raw)),
    {
        if raw < 0 {
            Err(AmountError(raw))
        } else {
            Ok(Amount(raw as u64))
        }
    }

    /// The zero quantity.
    pub fn zero() -> (r: Amount)
        ensures
            r@ == 0,
    {
        Amount(0)
    }

    /// The unit quantity.
    pub fn one() -> (r: Amount)
        ensures
            r@ == 1,
    {
        Amount(1)
    }

    /// Whether this is the zero quantity.
    pub fn is_zero(&self) -> (r: bool)
        ensures
            r <==> self@ == 0,
    {
        self.0 == 0
    }

    /// The raw value of the quantity.
    pub fn raw(&self) -> (r: u64)
        ensures
            r as nat == self@,
    {
        self.0
    }

    /// Sum of two quantities; total over all valid quantities whose
    /// mathematical sum fits in the representation.
    pub fn add(self, rhs: Amount) -> (r: Amount)
        requires
            self@ + rhs@ <= u64::MAX,
        ensures
            r@ == self@ + rhs@,
    {
        Amount(self.0 + rhs.0)
    }

    /// Product of two quantities; total over all valid quantities whose
    /// mathematical product fits in the representation.
    pub fn multiply(self, rhs: Amount) -> (r: Amount)
        requires
            self@ * rhs@ <= u64::MAX,
        ensures
            r@ == self@ * rhs@,
    {
        Amount(self.0 * rhs.0)
    }

    /// Guarded subtraction: defined exactly when `self` is at least `rhs`,
    /// and the difference restores `self` when `rhs` is added back.
    pub fn checked_sub(self, rhs: Amount) -> (r: Option<Amount>)
        ensures
            self@ >= rhs@ <==> r is Some,
            r matches Some(d) ==> d@ + rhs@ == self@,
    {
        if self.0 >= rhs.0 {
            Some(Amount(self.0 - rhs.0))
        } else {
            None
        }
    }
}

} // verus!
