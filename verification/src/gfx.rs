//! Planar bitmap graphics: 8x8 tiles of 4-bit palette indices decoded
//! from four bit-planes (32 bytes per tile: two half-blocks of 2-byte
//! rows, bits 0/1 then bits 2/3, most significant bit first).
use vstd::prelude::*;

verus! {

/// Pixels per tile side.
pub const TILE_SIZE: usize = 8;

/// Tiles per row when a graphics sheet is laid out as indexed colors.
pub const GFX_TILE_WIDTH: usize = 16;

/// An ordered sequence of 8x8 tiles.
#[derive(Debug, Clone, PartialEq)]
pub struct Gfx {
    pub tiles: Vec<TileGfx>,
}

/// A palette index paired with the sub-palette that resolves it.
#[derive(Debug, Default, Clone, Copy, PartialEq, Eq, Structural)]
pub struct IndexedColor {
    pub index: usize,
    pub sub_palette: usize,
}

/// One 8x8 tile: 64 palette indices (0-15), row by row.
#[derive(Debug, Clone, PartialEq)]
pub struct TileGfx {
    pub colors: Vec<u8>,
}

impl TileGfx {
    /// A well-formed tile holds exactly 64 indices, each below 16.
    pub open spec fn wf(self) -> bool {
        self.colors@.len() == 64 && forall|i: int| 0 <= i < 64 ==> self.colors@[i] < 16
    }
}

impl Gfx {
    pub open spec fn wf(self) -> bool {
        forall|t: int| 0 <= t < self.tiles@.len() ==> (#[trigger] self.tiles@[t]).wf()
    }
}

/// The palette index at row `r`, column `c` of the tile whose 32 bytes
/// start at `off` in `source`: bit `7 - c` of the four plane bytes of
/// row `r`, planes 0/1 in the first half-block and 2/3 in the second.
pub open spec fn tile_pixel(source: Seq<u8>, off: int, r: int, c: int) -> u8
    recommends
        0 <= r < 8,
        0 <= c < 8,
        0 <= off,
        off + 32 <= source.len(),
{
    let sh = (7 - c) as u8;
    (((source[off + 2 * r] >> sh) & 1) + ((source[off + 2 * r + 1] >> sh) & 1) * 2 + ((source[off
        + 16 + 2 * r] >> sh) & 1) * 4 + ((source[off + 16 + 2 * r + 1] >> sh) & 1) * 8) as u8
}

/// The tile decoded from the 32 bytes starting at `off`.
pub open spec fn tile_colors_spec(source: Seq<u8>, off: int) -> Seq<u8>
    recommends
        0 <= off,
        off + 32 <= source.len(),
{
    Seq::new(64, |j: int| tile_pixel(source, off, j / 8, j % 8))
}

/// Where the pixel at flat position `j` of a flipped tile is read from
/// in the unflipped tile: the column mirrors under an x flip and the
/// row mirrors under a y flip.
pub open spec fn flip_index(x_flip: bool, y_flip: bool, j: int) -> int
    recommends
        0 <= j < 64,
{
    (if y_flip {
        7 - j / 8
    } else {
        j / 8
    }) * 8 + (if x_flip {
        7 - j % 8
    } else {
        j % 8
    })
}

impl TileGfx {
    /// Decode one tile from its 32 bytes starting at `off`.
    pub fn tile_4bpp(source: &[u8], off: usize) -> (r: TileGfx)
        requires
            off + 32 <= source@.len(),
        ensures
            r.colors@ == tile_colors_spec(source@, off as int),
            r.wf(),
    {
        let len = source.len();
        let mut colors: Vec<u8> = Vec::new();
        let mut j: usize = 0;
        while j < 64
            invariant
                j <= 64,
                off + 32 <= len,
                len == source@.len(),
                colors@.len() == j,
                forall|k: int|
                    0 <= k < j ==> colors@[k] == tile_pixel(source@, off as int, k / 8, k % 8),
                forall|k: int| 0 <= k < j ==> colors@[k] < 16,
            decreases 64 - j,
        {
            let r = j / 8;
            let c = j % 8;
            let sh = (7 - c) as u8;
            let b0 = source[off + 2 * r];
            let b1 = source[off + 2 * r + 1];
            let b2 = source[off + 16 + 2 * r];
            let b3 = source[off + 16 + 2 * r + 1];
            proof {
                assert(((b0 >> sh) & 1) <= 1 && ((b1 >> sh) & 1) <= 1 && ((b2 >> sh) & 1) <= 1 && (
                (b3 >> sh) & 1) <= 1) by (bit_vector);
            }
            let pixel = ((b0 >> sh) & 1) + ((b1 >> sh) & 1) * 2 + ((b2 >> sh) & 1) * 4 + ((b3 >> sh)
                & 1) * 8;
            colors.push(pixel);
            j += 1;
        }
        proof {
            assert(colors@ =~= tile_colors_spec(source@, off as int));
        }
        TileGfx { colors }
    }

    /// The tile mirrored across the requested axes; `flip.0` mirrors
    /// columns, `flip.1` mirrors rows.
    pub fn flip(&self, flip: (bool, bool)) -> (r: Vec<u8>)
        requires
            self.colors@.len() == 64,
        ensures
            r@.len() == 64,
            forall|j: int| 0 <= j < 64 ==> r@[j] == self.colors@[flip_index(flip.0, flip.1, j)],
    {
        let mut colors: Vec<u8> = Vec::new();
        let mut j: usize = 0;
        while j < 64
            invariant
                j <= 64,
                self.colors@.len() == 64,
                colors@.len() == j,
                forall|k: int| 0 <= k < j ==> colors@[k] == self.colors@[flip_index(
                    flip.0,
                    flip.1,
                    k,
                )],
            decreases 64 - j,
        {
            let row = if flip.1 {
                7 - j / 8
            } else {
                j / 8
            };
            let col = if flip.0 {
                7 - j % 8
            } else {
                j % 8
            };
            colors.push(self.colors[row * 8 + col]);
            j += 1;
        }
        colors
    }
}

/// Decode a sheet of whole 32-byte tiles.
pub fn from_4bpp(source: &[u8]) -> (r: Gfx)
    requires
        source@.len() % 32 == 0,
    ensures
        r.tiles@.len() == source@.len() / 32,
        forall|t: int| 0 <= t < r.tiles@.len() ==> (#[trigger] r.tiles@[t]).colors@
            == tile_colors_spec(source@, 32 * t),
        r.wf(),
{
    let mut tiles: Vec<TileGfx> = Vec::new();
    let mut t: usize = 0;
    let len = source.len();
    let n = len / 32;
    while t < n
        invariant
            t <= n,
            len == source@.len(),
            n == len / 32,
            source@.len() % 32 == 0,
            tiles@.len() == t,
            forall|k: int| 0 <= k < t ==> (#[trigger] tiles@[k]).colors@ == tile_colors_spec(
                source@,
                32 * k,
            ),
            forall|k: int| 0 <= k < t ==> (#[trigger] tiles@[k]).wf(),
        decreases n - t,
    {
        proof {
            assert(t * 32 + 32 <= len) by (nonlinear_arith)
                requires
                    t < n,
                    n == len / 32,
            ;
        }
        let tile = TileGfx::tile_4bpp(source, t * 32);
        tiles.push(tile);
        t += 1;
    }
    Gfx { tiles }
}

/// The sheet row-group a flat pixel position falls in, and that group's
/// tile count: full groups hold 16 tiles, the last may be narrower.
pub open spec fn gfx_group_width(num_tiles: int, g: int) -> int {
    if num_tiles - g * 16 >= 16 {
        16
    } else {
        num_tiles - g * 16
    }
}

/// The indexed color at flat position `m` of a sheet laid out 16 tiles
/// wide, row-group by row-group, eight pixel rows per group.
pub open spec fn gfx_indexed_color_at(tiles: Seq<TileGfx>, m: int) -> u8
    recommends
        0 <= m < 64 * tiles.len(),
{
    let g = m / 1024;
    let local = m % 1024;
    let w = gfx_group_width(tiles.len() as int, g);
    let row = local / (8 * w);
    let xp = local % (8 * w);
    let t = xp / 8;
    let col = xp % 8;
    tiles[g * 16 + t].colors@[row * 8 + col]
}

impl Gfx {
    /// The whole sheet as one flat run of indexed colors, 16 tiles (128
    /// pixels) wide, pixel row by pixel row; a final partial row-group
    /// is narrower.
    pub fn to_indexed_colors(&self) -> (r: Vec<u8>)
        requires
            self.tiles@.len() * 64 <= usize::MAX,
            forall|t: int| 0 <= t < self.tiles@.len() ==> (#[trigger] self.tiles@[t]).colors@.len()
                == 64,
        ensures
            r@.len() == 64 * self.tiles@.len(),
            forall|m: int| 0 <= m < r@.len() ==> r@[m] == gfx_indexed_color_at(self.tiles@, m),
    {
        let num_tiles = self.tiles.len();
        let total = num_tiles * 64;
        let mut r: Vec<u8> = Vec::new();
        let mut m: usize = 0;
        while m < total
            invariant
                m <= total,
                total == num_tiles * 64,
                num_tiles == self.tiles@.len(),
                forall|t: int| 0 <= t < num_tiles ==> (#[trigger] self.tiles@[t]).colors@.len()
                    == 64,
                r@.len() == m,
                forall|k: int| 0 <= k < m ==> r@[k] == gfx_indexed_color_at(self.tiles@, k),
            decreases total - m,
        {
            let g = m / 1024;
            let local = m % 1024;
            proof {
                assert(16 * (m / 1024) + 1 <= num_tiles) by (nonlinear_arith)
                    requires
                        0 <= m < 64 * num_tiles,
                ;
            }
            let w = if num_tiles - g * 16 >= 16 {
                16
            } else {
                num_tiles - g * 16
            };
            let row = local / (8 * w);
            let xp = local % (8 * w);
            let t = xp / 8;
            let col = xp % 8;
            proof {
                assert(g * 16 + t < num_tiles && row * 8 + col < 64) by (nonlinear_arith)
                    requires
                        g == m / 1024,
                        local == m % 1024,
                        0 <= m < 64 * num_tiles,
                        num_tiles - g * 16 >= 16 ==> w == 16,
                        num_tiles - g * 16 < 16 ==> w == num_tiles - g * 16,
                        1 <= w,
                        row == local as int / (8 * w as int),
                        xp == local as int % (8 * w as int),
                        t == xp as int / 8,
                        col == xp as int % 8,
                ;
                assert(gfx_indexed_color_at(self.tiles@, m as int) == self.tiles@[g as int * 16
                    + t as int].colors@[row as int * 8 + col as int]);
            }
            r.push(self.tiles[g * 16 + t].colors[row * 8 + col]);
            m += 1;
        }
        r
    }

    /// The pixel width and height of the sheet under the 16-tile-wide
    /// layout.
    pub fn size(&self) -> (r: (usize, usize))
        requires
            self.tiles@.len() * 64 <= usize::MAX,
        ensures
            r.0 == 128,
            r.1 == self.tiles@.len() * 8 / 16,
    {
        (GFX_TILE_WIDTH * TILE_SIZE, self.tiles.len() * TILE_SIZE / GFX_TILE_WIDTH)
    }
}

} // verus!
