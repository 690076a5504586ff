//! Reading and writing EBML (the container format of Matroska and WebM files):
//! variable-length integers, element trees and element values, plus the
//! boolean decoder used by VP8 frames.

pub mod bits;
pub mod vint;
pub mod numbers;
pub mod schema;
pub mod ebml;
pub mod frame;
pub mod roundtrip;
