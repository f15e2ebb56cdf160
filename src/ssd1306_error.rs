//! Errors of the display driver.

use vstd::prelude::*;

verus! {

/// An error of the display driver; `I2CError` is the bus's own error type.
#[derive(Debug)]
pub enum Error<I2CError> {
    /// The chip answered with an unexpected identifier.
    WrongChipId(u8),
    /// The bus reported an error.
    I2cError(I2CError),
    /// A drawing operation touched a point outside the screen.
    OutsideScreenAccess { x: i16, y: i16 },
}

} // verus!
