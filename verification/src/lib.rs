//! Decoding, re-encoding and relocation of a banked cartridge image:
//! a custom LZ-family compression codec, bit-packed record codecs
//! (palettes, planar graphics, tile tables, tilesets, level grids,
//! room headers with condition chains, doors, save stations), and an
//! address-keyed store that loads the object graph from the flat byte
//! image and writes modified records back with pointer relocation.
use vstd::prelude::*;

pub mod address;
pub mod address_map;
pub mod compress;
pub mod door;
pub mod door_list;
pub mod gfx;
pub mod level_data;
pub mod lz5_compress;
pub mod lz5_decompress;
pub mod palette;
pub mod room;
pub mod save_station;
pub mod state;
pub mod super_metroid;
pub mod tile_table;
pub mod tileset;

verus! {

/// Failure to decode a binary record from bytes.
#[derive(Debug, Clone, Copy, PartialEq, Eq, Structural)]
pub struct ParseError;

/// The 16-bit little-endian value stored at byte offset `i`.
pub open spec fn le16_at(s: Seq<u8>, i: int) -> int {
    s[i] + 0x100 * s[i + 1]
}

/// The 24-bit little-endian value stored at byte offset `i`.
pub open spec fn le24_at(s: Seq<u8>, i: int) -> int {
    s[i] + 0x100 * s[i + 1] + 0x1_0000 * s[i + 2]
}

/// Read the 16-bit little-endian value at byte offset `i`.
pub fn read_le16(s: &[u8], i: usize) -> (r: u16)
    requires
        i + 2 <= s@.len(),
    ensures
        r == le16_at(s@, i as int),
{
    s[i] as u16 + 0x100 * (s[i + 1] as u16)
}

/// Read the 24-bit little-endian value at byte offset `i`.
pub fn read_le24(s: &[u8], i: usize) -> (r: u32)
    requires
        i + 3 <= s@.len(),
    ensures
        r == le24_at(s@, i as int),
{
    s[i] as u32 + 0x100 * (s[i + 1] as u32) + 0x1_0000 * (s[i + 2] as u32)
}

} // verus!
