//! A reader for version 5 of MAME's Compressed Hunks of Data (CHD) images.
//!
//! A CHD image stores the data of a disk in hunks of one size. A map tells
//! for each hunk where it lies: stored as it is, stored through one of up to
//! four codecs that the header names, the same as another hunk of the image,
//! or a part of a parent image.
//!
//! [`Chd`] opens an image that is held in memory and reads its logical data,
//! hunk by hunk or as a stream of bytes with a position. What a read gives is
//! stated over [`image::Image`], the image as a value: its contracts say
//! which bytes come back and which error, if any.
//!
//! Three decoders are outside crates and are not verified here: raw DEFLATE
//! (`inflate`), LZMA (`lzma-rs`) and FLAC (`claxon`). What they return for
//! given bytes is named by functions without a body in [`decompress`]; all
//! that is done with their results is verified.

pub mod bitstream;
pub mod cd;
pub mod chd;
pub mod decompress;
pub mod ecc;
pub mod error;
pub mod header;
pub mod huffman;
pub mod image;
pub mod map;
pub mod tags;
pub mod utils;

pub use crate::chd::Chd;
pub use crate::error::ChdError;
pub use crate::image::SeekFrom;
