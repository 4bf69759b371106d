use vstd::prelude::*;

verus! {

/// Number of raw units in one whole price unit: prices carry six decimal
/// places, so `raw` counts millionths of a dollar.
pub const PRICE_SCALE: u64 = 1_000_000;

/// Price in fixed-point representation (6 decimal places).
/// Example: 1.234567 is stored as 1_234_567.
/// Equality and ordering are those of the underlying integer.
#[derive(Debug, Clone, Copy, PartialEq, Eq, Structural, Hash)]
pub struct Price {
    pub raw: u64,
}

impl Price {
    /// Wraps an already-scaled integer.
    pub fn new(value: u64) -> (p: Price)
        ensures
            p.raw == value,
    {
        Price { raw: value }
    }

    /// The underlying scaled integer.
    pub fn raw(&self) -> (r: u64)
        ensures
            r == self.raw,
    {
        self.raw
    }
}

} // verus!
