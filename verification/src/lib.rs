pub mod bits;
pub mod reader;
pub mod util;
pub mod huffman;
pub mod mode;
pub mod time_domain;
pub mod residue;
pub mod floor;
pub mod mapping;
pub mod codebook;
pub mod vorbis;
pub mod ogg;
