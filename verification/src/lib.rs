//! Codecs for unsigned integers of a fixed number of bits: RLP byte strings
//! and the fixed and compact forms of SCALE, with the contracts that say
//! which bytes stand for which integer.
pub mod numeral;
pub mod rlp;
pub mod rlp_laws;
pub mod scale;
pub mod scale_laws;
pub mod uint;

pub use crate::uint::Uint;
