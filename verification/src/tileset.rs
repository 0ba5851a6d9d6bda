//! Tilesets: a triple of 24-bit addresses (tile table, graphics,
//! palette) plus a derived flag saying whether the shared common
//! resource tables are logically prefixed before use, and the rendering
//! of a tile table through graphics and a palette into colors.
use vstd::prelude::*;

use crate::gfx::Gfx;
use crate::le24_at;
use crate::palette::{rgb888_of, Palette, Rgb888};
use crate::tile_table::{Tile, TileTable};

verus! {

/// Pixels per composite-block side in a rendered tileset sheet.
pub const TILESET_BLOCK_SIZE: usize = 16;

/// Bytes per tileset table entry.
pub const TILESET_DATA_SIZE: usize = 9;

/// Entries in the cartridge's tileset table.
pub const NUMBER_OF_TILESETS: usize = 0x1D;

/// One tileset: three banked addresses and the derived common-resource
/// flag.
#[derive(Debug, Default, Clone, Copy, PartialEq, Eq, Structural)]
pub struct Tileset {
    pub palette: u32,
    pub graphic: u32,
    pub tile_table: u32,
    pub use_cre: bool,
}

/// The tileset at entry `i`: three 24-bit little-endian addresses. Only
/// the station tilesets, entries 0xF through 0x14, stand alone without
/// the common resource tables.
pub open spec fn tileset_at(s: Seq<u8>, i: int) -> Tileset {
    Tileset {
        tile_table: le24_at(s, 9 * i) as u32,
        graphic: le24_at(s, 9 * i + 3) as u32,
        palette: le24_at(s, 9 * i + 6) as u32,
        use_cre: !(0xF <= i <= 0x14),
    }
}

/// Decode a run of whole tileset entries.
pub fn from_bytes(source: &[u8]) -> (r: Vec<Tileset>)
    requires
        source@.len() % 9 == 0,
    ensures
        r@.len() == source@.len() / 9,
        forall|i: int| 0 <= i < r@.len() ==> #[trigger] r@[i] == tileset_at(source@, i),
{
    let len = source.len();
    let n = len / 9;
    let mut r: Vec<Tileset> = Vec::new();
    let mut i: usize = 0;
    while i < n
        invariant
            i <= n,
            len == source@.len(),
            n == len / 9,
            len % 9 == 0,
            r@.len() == i,
            forall|k: int| 0 <= k < i ==> #[trigger] r@[k] == tileset_at(source@, k),
        decreases n - i,
    {
        proof {
            assert(9 * i + 9 <= len) by (nonlinear_arith)
                requires
                    i < n,
                    n == len / 9,
                    len % 9 == 0,
            ;
        }
        let off = 9 * i;
        r.push(
            Tileset {
                tile_table: crate::read_le24(source, off),
                graphic: crate::read_le24(source, off + 3),
                palette: crate::read_le24(source, off + 6),
                use_cre: !(0xF <= i && i <= 0x14),
            },
        );
        i += 1;
    }
    r
}

/// The three bytes of a 24-bit little-endian value compose back to it.
proof fn lemma_le24_bytes(x: u32)
    by (bit_vector)
    ensures
        (x % 256) + 0x100 * (x / 0x100 % 0x100) + 0x1_0000 * (x / 0x1_0000 % 0x100) == x
            % 0x100_0000,
{
}

impl Tileset {
    /// Pack the three addresses back to nine bytes, dropping any bits
    /// above 24.
    pub fn to_bytes(&self) -> (r: Vec<u8>)
        ensures
            r@.len() == 9,
            le24_at(r@, 0) == self.tile_table % 0x100_0000,
            le24_at(r@, 3) == self.graphic % 0x100_0000,
            le24_at(r@, 6) == self.palette % 0x100_0000,
    {
        let mut out: Vec<u8> = Vec::new();
        out.push((self.tile_table % 0x100) as u8);
        out.push((self.tile_table / 0x100 % 0x100) as u8);
        out.push((self.tile_table / 0x1_0000 % 0x100) as u8);
        out.push((self.graphic % 0x100) as u8);
        out.push((self.graphic / 0x100 % 0x100) as u8);
        out.push((self.graphic / 0x1_0000 % 0x100) as u8);
        out.push((self.palette % 0x100) as u8);
        out.push((self.palette / 0x100 % 0x100) as u8);
        out.push((self.palette / 0x1_0000 % 0x100) as u8);
        proof {
            lemma_le24_bytes(self.tile_table);
            lemma_le24_bytes(self.graphic);
            lemma_le24_bytes(self.palette);
        }
        out
    }
}

/// The pixel width and height of a rendered tileset sheet: 32 blocks of
/// 16 pixels each way.
pub fn tileset_size() -> (r: (usize, usize))
    ensures
        r.0 == 512 && r.1 == 512,
{
    (
        TILESET_BLOCK_SIZE * crate::tile_table::TILE_TABLE_SIZE,
        TILESET_BLOCK_SIZE * crate::tile_table::TILE_TABLE_SIZE,
    )
}

/// The tiles-per-chunk width of chunk `g` when a tile table is rendered
/// 32 blocks (128 tiles) per chunk; the last chunk may be narrower.
pub open spec fn tileset_chunk_tiles(num_tiles: int, g: int) -> int {
    if num_tiles - g * 128 >= 128 {
        128
    } else {
        num_tiles - g * 128
    }
}

/// The color at flat position `m` of a rendered tileset sheet: chunks
/// of 32 blocks, 16 pixel rows each; within a row, block by block, top
/// or bottom tile pair, tile column, then pixel column. Each 8x8 tile
/// is flipped as its descriptor asks, indexed into the graphics, and
/// colored through the descriptor's sub-palette.
pub open spec fn tileset_color_at(tt: Seq<Tile>, pal: Palette, gfx: Gfx, m: int) -> Rgb888 {
    let g = m / 8192;
    let local = m % 8192;
    let w = tileset_chunk_tiles(tt.len() as int, g);
    let row = local / (4 * w);
    let xp = local % (4 * w);
    let b = xp / 16;
    let tx = xp % 16 / 8;
    let col = xp % 8;
    let tr = row / 8;
    let cr = row % 8;
    let tile = tt[g * 128 + 4 * b + 2 * tr + tx];
    let idx = gfx.tiles@[tile.gfx_index as int].colors@[crate::gfx::flip_index(
        tile.x_flip,
        tile.y_flip,
        cr * 8 + col,
    )];
    rgb888_of(pal.sub_palettes@[tile.sub_palette as int].colors@[idx as int])
}

/// Render a tile table into colors, 64 pixels per tile.
#[verifier::rlimit(60)]
pub fn tileset_to_colors(tile_table: &TileTable, palette: &Palette, graphics: &Gfx) -> (r: Vec<
    Rgb888,
>)
    requires
        tile_table@.len() % 4 == 0,
        tile_table@.len() * 64 <= usize::MAX,
        palette.wf(),
        graphics.wf(),
        forall|t: int|
            0 <= t < tile_table@.len() ==> (#[trigger] tile_table@[t]).gfx_index
                < graphics.tiles@.len() && tile_table@[t].sub_palette < 8,
    ensures
        r@.len() == 64 * tile_table@.len(),
        forall|m: int|
            0 <= m < r@.len() ==> #[trigger] r@[m] == tileset_color_at(
                tile_table@,
                *palette,
                *graphics,
                m,
            ),
{
    let num_tiles = tile_table.len();
    let total = num_tiles * 64;
    let mut r: Vec<Rgb888> = Vec::new();
    let mut m: usize = 0;
    while m < total
        invariant
            m <= total,
            total == num_tiles * 64,
            num_tiles == tile_table@.len(),
            num_tiles % 4 == 0,
            palette.wf(),
            graphics.wf(),
            forall|t: int|
                0 <= t < num_tiles ==> (#[trigger] tile_table@[t]).gfx_index
                    < graphics.tiles@.len() && tile_table@[t].sub_palette < 8,
            r@.len() == m,
            forall|k: int|
                0 <= k < m ==> #[trigger] r@[k] == tileset_color_at(
                    tile_table@,
                    *palette,
                    *graphics,
                    k,
                ),
        decreases total - m,
    {
        let g = m / 8192;
        let local = m % 8192;
        proof {
            assert(128 * (m / 8192) + 1 <= num_tiles) by (nonlinear_arith)
                requires
                    0 <= m < 64 * num_tiles,
            ;
        }
        let w = if num_tiles - g * 128 >= 128 {
            128
        } else {
            num_tiles - g * 128
        };
        proof {
            assert(w % 4 == 0 && w >= 1) by (nonlinear_arith)
                requires
                    g == m / 8192,
                    0 <= m < 64 * num_tiles,
                    num_tiles % 4 == 0,
                    w == (if num_tiles - g * 128 >= 128 {
                        128int
                    } else {
                        num_tiles as int - g as int * 128
                    }),
            ;
        }
        let row = local / (4 * w);
        let xp = local % (4 * w);
        let b = xp / 16;
        let tx = xp % 16 / 8;
        let col = xp % 8;
        let tr = row / 8;
        let cr = row % 8;
        proof {
            assert(g * 128 + 4 * b + 2 * tr + tx < num_tiles && row < 16) by (nonlinear_arith)
                requires
                    g == m / 8192,
                    local == m % 8192,
                    0 <= m < 64 * num_tiles,
                    w % 4 == 0,
                    4 <= w <= 128,
                    num_tiles - g * 128 >= 128 ==> w == 128,
                    num_tiles - g * 128 < 128 ==> w == num_tiles - g * 128,
                    row == local as int / (4 * w as int),
                    xp == local as int % (4 * w as int),
                    b == xp as int / 16,
                    tx == xp as int % 16 / 8,
                    tr == row as int / 8,
            ;
        }
        let tile = tile_table[g * 128 + 4 * b + 2 * tr + tx];
        let fr = if tile.y_flip {
            7 - cr
        } else {
            cr
        };
        let fc = if tile.x_flip {
            7 - col
        } else {
            col
        };
        let idx = graphics.tiles[tile.gfx_index as usize].colors[fr * 8 + fc];
        let c = palette.sub_palettes[tile.sub_palette as usize].colors[idx as usize];
        proof {
            assert(crate::gfx::flip_index(tile.x_flip, tile.y_flip, cr as int * 8 + col as int)
                == fr as int * 8 + fc as int);
        }
        r.push(Rgb888 { r: c.r << 3u8, g: c.g << 3u8, b: c.b << 3u8 });
        m += 1;
    }
    r
}

} // verus!
