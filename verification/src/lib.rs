//! Packs a sequence of bit-sized values ("fields") into a contiguous byte
//! buffer, most-significant-bit first, with no padding between fields and
//! zero padding only at the end of the final byte.

pub mod bits;
pub mod datasize;
pub mod field;
pub mod fieldaggregate;
pub mod inprogressbyte;
