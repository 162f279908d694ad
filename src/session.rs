//! The dimensions of a proving session, fixed once and passed to every proof
//! and verification, and the check that the circuit's rows can hold them.

use vstd::prelude::*;
use crate::mosaic::MosaicError;

verus! {

/// The circuit has `2^K` rows.
pub const K: u32 = 10;

/// Rows that assignments may use: `2^K` less the six that the argument
/// system keeps for blinding a circuit whose wires are queried at two rows.
pub const USABLE_ROWS: u32 = 1018;

/// Rows that the witness of an image `height` pixels high takes: two for each
/// pair of original rows.
pub open spec fn rows_used(height: nat) -> nat {
    2 * (height / 2)
}

/// The dimensions of the images of one session: the original image and its
/// downscale by blocks of side two.
#[derive(Debug, Clone, Copy, PartialEq, Eq, Structural)]
pub struct Session {
    pub width: u32,
    pub height: u32,
    pub s_width: u32,
    pub s_height: u32,
}

impl Session {
    pub open spec fn wf(&self) -> bool {
        &&& self.s_width == self.width / 2
        &&& self.s_height == self.height / 2
        &&& rows_used(self.height as nat) <= USABLE_ROWS
    }

    /// The session for original images of `width` x `height` pixels, if the
    /// circuit's rows can hold their witness.
    pub fn new(width: u32, height: u32) -> (r: Result<Session, MosaicError>)
        ensures
            r.is_ok() <==> rows_used(height as nat) <= USABLE_ROWS,
            r.is_err() ==> r == Err::<Session, MosaicError>(MosaicError::ExceedsCapacity),
            r.is_ok() ==> r.unwrap().wf() && r.unwrap().width == width && r.unwrap().height == height,
    {
        if height / 2 > USABLE_ROWS / 2 {
            return Err(MosaicError::ExceedsCapacity);
        }
        Ok(Session { width, height, s_width: width / 2, s_height: height / 2 })
    }

    /// Whether a reduced image of `s_width` x `s_height` pixels is the one
    /// this session proves statements about.
    pub fn accepts_reduced(&self, s_width: u32, s_height: u32) -> (r: bool)
        ensures
            r == (s_width == self.s_width && s_height == self.s_height),
    {
        s_width == self.s_width && s_height == self.s_height
    }
}

} // verus!
