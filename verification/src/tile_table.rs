//! Tile tables: composite-tile descriptors, one little-endian 16-bit
//! bitfield each — y flip, x flip, one unused bit, a 3-bit sub-palette
//! selector and a 10-bit graphics-tile index.
use vstd::prelude::*;

use crate::le16_at;

verus! {

/// Composite tiles per tile-table row.
pub const TILE_TABLE_SIZE: usize = 32;

/// 8x8 tiles per 16x16 composite block.
pub const TILES_BY_BLOCK: usize = 4;

/// Pixels per composite-block side.
pub const BLOCK_SIZE: usize = 16;

pub type TileTable = Vec<Tile>;

/// One composite-tile descriptor.
#[derive(Debug, Default, Clone, Copy, PartialEq, Eq, Structural)]
pub struct Tile {
    pub y_flip: bool,
    pub x_flip: bool,
    pub unknown: bool,
    pub sub_palette: u8,
    pub gfx_index: u16,
}

/// The descriptor packed in the 16-bit word `w`.
pub open spec fn tile_from_word(w: int) -> Tile {
    Tile {
        y_flip: w / 0x8000 % 2 == 1,
        x_flip: w / 0x4000 % 2 == 1,
        unknown: w / 0x2000 % 2 == 1,
        sub_palette: (w / 0x400 % 8) as u8,
        gfx_index: (w % 0x400) as u16,
    }
}

/// Decode a run of descriptors; a trailing lone byte is read as a word
/// with a zero high byte.
pub fn from_bytes(source: &[u8]) -> (r: TileTable)
    ensures
        r@.len() == (source@.len() + 1) / 2,
        forall|i: int|
            0 <= i < source@.len() / 2 ==> #[trigger] r@[i] == tile_from_word(
                le16_at(source@, 2 * i),
            ),
        source@.len() % 2 == 1 ==> r@[source@.len() as int / 2] == tile_from_word(
            source@[source@.len() - 1] as int,
        ),
        forall|i: int|
            0 <= i < r@.len() ==> (#[trigger] r@[i]).sub_palette < 8 && r@[i].gfx_index < 0x400,
{
    let len = source.len();
    let mut r: Vec<Tile> = Vec::new();
    let mut i: usize = 0;
    while i < len / 2
        invariant
            i <= len / 2,
            len == source@.len(),
            r@.len() == i,
            forall|k: int|
                0 <= k < i ==> #[trigger] r@[k] == tile_from_word(le16_at(source@, 2 * k)),
            forall|k: int|
                0 <= k < i ==> (#[trigger] r@[k]).sub_palette < 8 && r@[k].gfx_index < 0x400,
        decreases len / 2 - i,
    {
        let w = crate::read_le16(source, 2 * i);
        r.push(
            Tile {
                y_flip: w / 0x8000 % 2 == 1,
                x_flip: w / 0x4000 % 2 == 1,
                unknown: w / 0x2000 % 2 == 1,
                sub_palette: (w / 0x400 % 8) as u8,
                gfx_index: w % 0x400,
            },
        );
        i += 1;
    }
    if len % 2 == 1 {
        let w = source[len - 1] as u16;
        r.push(
            Tile {
                y_flip: w / 0x8000 % 2 == 1,
                x_flip: w / 0x4000 % 2 == 1,
                unknown: w / 0x2000 % 2 == 1,
                sub_palette: (w / 0x400 % 8) as u8,
                gfx_index: w % 0x400,
            },
        );
    }
    r
}

} // verus!
