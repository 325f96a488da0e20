//! Reads and writes the block grid of a world-edit container file, and programs a
//! read-only memory built in such a grid by switching its marker blocks.
//!
//! - `blockstate`: block states and their canonical text.
//! - `varint`: the base-128 integers of the block data.
//! - `schematic`: the grid of blocks and its bounding box.
//! - `codec`: the grid to and from the container's record, palette and block data.
//! - `rom`: finding the markers, grouping and ordering them into lines, imprinting.
//! - `instruction`, `shorthands`: machine instructions and their 16-bit words.
//! - `server`: where container files are fetched from and published to.


pub mod blockstate;
pub mod codec;
pub mod error;
pub mod instruction;
pub mod rom;
pub mod schematic;
pub mod server;
pub mod shorthands;
pub mod varint;
