//! A bzip2 encoder whose stages are specified over mathematical models and
//! proved against them.
//!
//! The stages of a block, in the order in which they run: [`rle`] cuts the
//! block off the input and codes its runs, [`bwt`] sorts its rotations,
//! [`mtf`] turns the sorted column into move-to-front symbols, [`huffman`]
//! chooses coding tables and writes the symbols. [`frame`] puts the blocks
//! between the stream's header and footer, [`crc32`] sums them, and [`out`]
//! packs the bits.
//!
//! Behind [`bwt`] stand [`sais`], which sorts suffixes by induced sorting,
//! and [`suffix`], which says what sorted means, checks it and can sort
//! plainly. Behind [`huffman`] stand [`tables`], which chooses and refines
//! the tables, [`tree`] and [`queue`], which build one table, [`shallow`],
//! which shows that a table is found, and [`kraft`] and [`codes`], which
//! show that the codewords of a table are a prefix code.
//!
//! [`decode`] says what a stream stands for and shows that the stream made
//! of an input stands for that input; the part of the sorted rotations in
//! this is shown in [`unbwt`].

pub mod bwt;
pub mod codes;
pub mod crc32;
pub mod decode;
pub mod frame;
pub mod huffman;
pub mod kraft;
pub mod mtf;
pub mod out;
pub mod queue;
pub mod rle;
pub mod sais;
pub mod shallow;
pub mod suffix;
pub mod tables;
pub mod tree;
pub mod unbwt;

pub use frame::encode;
