//! Compression primitives: a table-based asymmetric numeral system coder,
//! a binary range coder, a backreference coder and the bit and byte streams
//! they share.
pub mod backref;
pub mod brc;
pub mod error;
pub mod io;
pub mod tans;
