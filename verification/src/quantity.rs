use vstd::prelude::*;

verus! {

/// Number of raw units in one whole quantity unit: quantities carry eight
/// decimal places, so `raw` counts hundred-millionths of a coin.
pub const QTY_SCALE: u64 = 100_000_000;

/// Quantity in fixed-point representation (8 decimal places).
/// Equality and ordering are those of the underlying integer.
#[derive(Debug, Clone, Copy, PartialEq, Eq, Structural, Hash)]
pub struct Quantity {
    pub raw: u64,
}

impl Quantity {
    /// Wraps an already-scaled integer.
    pub fn new(value: u64) -> (q: Quantity)
        ensures
            q.raw == value,
    {
        Quantity { raw: value }
    }

    /// The underlying scaled integer.
    pub fn raw(&self) -> (r: u64)
        ensures
            r == self.raw,
    {
        self.raw
    }

    pub fn is_zero(&self) -> (r: bool)
        ensures
            r == (self.raw == 0),
    {
        self.raw == 0
    }

    /// Exact addition; the caller must rule overflow out.
    pub fn add(self, other: Quantity) -> (r: Quantity)
        requires
            self.raw + other.raw <= u64::MAX,
        ensures
            r.raw == self.raw + other.raw,
    {
        Quantity { raw: self.raw + other.raw }
    }

    /// Exact subtraction; the caller must rule underflow out.
    pub fn sub(self, other: Quantity) -> (r: Quantity)
        requires
            other.raw <= self.raw,
        ensures
            r.raw == self.raw - other.raw,
    {
        Quantity { raw: self.raw - other.raw }
    }

    /// Subtraction that rejects, rather than wraps, when `other` exceeds
    /// the current value.
    pub fn checked_sub(&self, other: Quantity) -> (r: Option<Quantity>)
        ensures
            other.raw <= self.raw ==> r == Some(Quantity { raw: (self.raw - other.raw) as u64 }),
            other.raw > self.raw ==> r is None,
    {
        if other.raw <= self.raw {
            Some(Quantity { raw: self.raw - other.raw })
        } else {
            None
        }
    }
}

} // verus!
