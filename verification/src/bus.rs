//! The two collaborators a driver instance owns: a byte transport and a
//! chip-select line.  Both are abstract interfaces; the platform supplies
//! the implementations.  The driver itself keeps ghost logs of every call
//! it makes on them, so nothing is assumed of an implementation beyond
//! its result value.

use vstd::prelude::*;

verus! {

/// Why a driver operation failed.
#[derive(Clone, Copy, Debug, PartialEq, Eq, Structural)]
pub enum Error {
    /// A byte transfer on the serial bus failed.
    TransportFailure,
    /// Driving the chip-select line failed.
    PinFailure,
    /// The stored byte width was outside 1..=4; only possible if the
    /// configuration invariant was bypassed.
    InvalidWidthState,
}

/// Failure of a single byte transfer on the serial bus.
#[derive(Clone, Copy, Debug, PartialEq, Eq, Structural)]
pub struct TransferError;

/// Failure to change the state of a digital output line.
#[derive(Clone, Copy, Debug, PartialEq, Eq, Structural)]
pub struct PinError;

/// A blocking, full-duplex, byte-oriented transport.  Each call shifts
/// one byte out and returns the byte shifted in during the same clocks,
/// or an error if the transfer failed.
pub trait BusTransfer {
    /// Transfer one byte and return the byte read back.
    fn transfer(&mut self, byte: u8) -> Result<u8, TransferError>;
}

/// A digital output line used as an active-low chip select.  Each call
/// reports whether the line reached the requested state.
pub trait ChipSelect {
    /// Drive the line low, asserting chip select.
    fn set_low(&mut self) -> Result<(), PinError>;

    /// Drive the line high, deasserting chip select.
    fn set_high(&mut self) -> Result<(), PinError>;
}

} // verus!
