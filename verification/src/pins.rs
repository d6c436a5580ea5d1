//! Capability interfaces for the GPIO lines a matrix owns.
//!
//! A matrix never touches hardware directly: it is generic over these two
//! traits, and the platform layer supplies concrete pin types (for
//! `embedded-hal` pins, through the adapters of the companion application
//! crate). The spec functions record events, never levels: `reads` is
//! the history of levels an input line has returned to samples, and
//! `driven` is the history of levels asserted on an output line, both
//! oldest first. A level a line *would* read is deliberately not
//! modelled: what a matrix column reads changes with the row being
//! driven, so only the readings actually taken can be spoken of.
//!
//! An implementation outside this crate is not verified against these
//! contracts; they record what the matrix assumes of the hardware layer.

use vstd::prelude::*;

verus! {

/// A readable digital input line, pulled up at rest: reading low means the
/// switch wired to it is pressed.
pub trait InputPin: Sized {
    /// The pin driver's error type, opaque to the matrix.
    type Error;

    /// The levels the line has returned to samples so far, oldest first:
    /// `true` for low (active). Unspecified unless the implementation
    /// says otherwise.
    open spec fn reads(&self) -> Seq<bool> {
        arbitrary()
    }

    /// Sample the line. `Ok(true)` iff it read low (active); the reading
    /// is recorded. A failed sample records nothing.
    fn is_low(&mut self) -> (r: Result<bool, Self::Error>)
        ensures
            r matches Ok(b) ==> final(self).reads() == old(self).reads().push(b),
            r is Err ==> final(self).reads() == old(self).reads(),
    ;
}

/// A writable digital output line, held high (inactive) at rest and pulled
/// low (active) to select a row while it is scanned.
pub trait OutputPin: Sized {
    /// The pin driver's error type, opaque to the matrix.
    type Error;

    /// The history of levels successfully driven on the line, oldest first:
    /// `true` for high (inactive), `false` for low (active). Unspecified
    /// unless the implementation says otherwise.
    open spec fn driven(&self) -> Seq<bool> {
        arbitrary()
    }

    /// Drive the line high (inactive). On success the write is recorded;
    /// a failed write leaves the recorded history unchanged.
    fn set_high(&mut self) -> (r: Result<(), Self::Error>)
        ensures
            r is Ok ==> final(self).driven() == old(self).driven().push(true),
            r is Err ==> final(self).driven() == old(self).driven(),
    ;

    /// Drive the line low (active). On success the write is recorded;
    /// a failed write leaves the recorded history unchanged.
    fn set_low(&mut self) -> (r: Result<(), Self::Error>)
        ensures
            r is Ok ==> final(self).driven() == old(self).driven().push(false),
            r is Err ==> final(self).driven() == old(self).driven(),
    ;
}

} // verus!
