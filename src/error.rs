use vstd::prelude::*;

verus! {

/// Every way in which reading a container or laying out a memory image can fail.
#[derive(Debug, Clone, Copy, PartialEq, Eq, Structural)]
pub enum SchemError {
    /// A property entry of a block state has no `=`.
    MalformedProperty,
    /// The tag-based binary structure could not be read.
    BinaryDecodeError,
    /// A palette index lies outside the palette table.
    InvalidPaletteIndex { index: i64 },
    /// A palette slot that the block data refers to was never filled.
    MissingPaletteEntry { index: i64 },
    /// A varint in the block data runs past five bytes; `offset` is where it starts.
    VarintOverflow { offset: u64 },
    /// The block data ends inside a varint that starts at `offset`.
    TruncatedVarint { offset: u64 },
    /// The declared width or length is not positive, so no cell has a position.
    InvalidDimensions,
    /// The bounding box is wider, longer or higher than the format's 16-bit sizes.
    GridTooLarge,
    /// A block entity or the offset field does not hold exactly three coordinates.
    MalformedPosition,
    /// The markers do not form 128 lines of 16.
    MalformedLayout,
    /// No line is left that the ordering rule can pick.
    AmbiguousLayout,
    /// Fetching or publishing the container file failed.
    TransportError,
}

} // verus!
