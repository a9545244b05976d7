//! Shared helpers for benchmarks of LZW decoders.
//!
//! The benchmarks decode the same inputs with `weezl` and with `wuffs_lzw`. The
//! inputs are synthetic texts ([`synth`]), the pixels of PNG images
//! ([`corpus`], [`png_frame`]) and strips of TIFF files ([`strips`], [`tiff`],
//! [`tiff_laws`]).
//! The drivers are in [`decode`]; everything they take from `weezl` is in
//! [`weezl_codec`]. [`wuffs`] holds what surrounds a call of `wuffs_lzw`,
//! [`listing`] the choice of files in a directory, [`profile`] and [`report`]
//! what the two programs around the library decide.

pub mod corpus;
pub mod decode;
pub mod listing;
pub mod png_frame;
pub mod profile;
pub mod report;
pub mod strips;
pub mod synth;
pub mod tiff;
pub mod tiff_laws;
pub mod weezl_codec;
pub mod wuffs;

pub use crate::corpus::{
    gb82_sc_corpus, load_png_corpus, qoi_screenshot_corpus, standard_corpus, Input,
};
pub use crate::decode::{decode_weezl, decode_weezl_with_order, encode_lsb8, TableStrategy};
pub use crate::strips::{
    clic_as_lzw_tiff_nopred, clic_as_lzw_tiff_pred, load_lzw_tiff_corpus, qoi_as_lzw_tiff,
    sc_as_lzw_tiff, tiff_conformance_lzw, TiffStrips,
};
pub use crate::synth::{make_palette16, make_random, make_run_length, make_solid};
pub use crate::tiff::parse_tiff_lzw_strips;
pub use crate::weezl_codec::BitOrder;
