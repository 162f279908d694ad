//! Block-average downscaling of RGBA images, the witness and public
//! instance layout of the circuit that proves it, and the relation its
//! constraints enforce, all with verified contracts.

pub mod circuit;
pub mod mosaic;
pub mod session;
