//! Dolby Digital Plus (E-AC-3).

pub mod allocation;
pub mod allocation_laws;
pub mod allocation_tables;
pub mod fields;
pub mod header_laws;
pub mod joc;
pub mod joc_laws;
pub mod joc_tables;
pub mod mantissa;
pub mod mantissa_laws;
pub mod masking;
pub mod metadata;
pub mod oamd;
pub mod oamd_block;
pub mod oamd_block_laws;
pub mod oamd_element_laws;
pub mod oamd_laws;
pub mod syncframe;
pub mod types;
pub mod parser;
pub mod pcm;
pub mod pcm_laws;
pub mod extract;
