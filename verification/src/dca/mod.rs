//! DTS Coherent Acoustics (DCA).

pub mod alternate;
pub mod alternate_laws;
pub mod crc;
pub mod exss;
pub mod exss_laws;
pub mod exss_prefix;
pub mod fixed;
pub mod spatial;
pub mod xll_band;
pub mod xll_band_laws;
pub mod xll_error;
pub mod xll_filter;
pub mod xll_laws;
pub mod xll_frame;
pub mod xll_frame_laws;
pub mod xll_header;
pub mod xll_header_laws;
pub mod xmeta;
pub mod xmeta_laws;
pub mod xmeta_sources;
pub mod core_output;
pub mod xll_output;
pub mod xll_output_laws;
pub mod xll_x;
pub mod xll;
pub mod types;
pub mod parser;
pub mod parser_laws;
pub mod pcm;
pub mod extract;
pub mod hd;
pub mod hd_laws;
pub mod huffman;
pub mod core_audio;
pub mod core_bands;
pub mod core_laws;
pub mod core_sample_laws;
pub mod core_frame;
pub mod core_decoder;
pub mod core_decoder_laws;
pub mod imdct;
pub mod synth;
pub mod synth_laws;
pub mod core_subframe;
pub mod core_tables;
pub mod core_header;
pub mod core_header_laws;
