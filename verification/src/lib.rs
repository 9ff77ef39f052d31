//! Verified bitstream layers of two audio codecs: DTS Coherent Acoustics
//! (`dca`) and Dolby Digital Plus (`eac3`).

pub mod bit_writer;
pub mod bit_laws;
pub mod bits;
pub mod dca;
pub mod eac3;
pub mod framing;
pub mod framing_laws;
pub mod grammar;
