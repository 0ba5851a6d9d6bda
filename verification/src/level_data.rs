//! Level data: one or two layers of 16x16-pixel blocks plus a parallel
//! byte of metadata per block. A block is a 16-bit bitfield: a 4-bit
//! type tag, y and x flips, and a 10-bit index into the tile table's
//! 4-tile block entries. The declared layer byte size in the first two
//! bytes fixes the block count of every part.
use vstd::prelude::*;

use crate::gfx::{flip_index, Gfx, IndexedColor};
use crate::le16_at;
use crate::palette::{rgb888_of, Palette, Rgb888};
use crate::tile_table::{Tile, TileTable};
use crate::ParseError;

verus! {

/// What a block is to the engine.
#[derive(Debug, Default, Clone, Copy, PartialEq, Eq, Hash, Structural)]
pub enum BlockType {
    #[default]
    Air,
    Slope,
    AirSpike,
    AirSpecial,
    AirShootable,
    HorizontalExtension,
    AirUnused,
    AirBombable,
    Solid,
    Door,
    SolidSpike,
    SolidSpecial,
    SolidShootable,
    VerticalExtension,
    SolidGrapple,
    SolidBombable,
}

/// One layer block.
#[derive(Debug, Default, Clone, Copy, PartialEq, Eq, Structural)]
pub struct Block {
    /// The primary type of the block.
    pub block_type: BlockType,
    /// Flips the block's graphics on the y axis.
    pub y_flip: bool,
    /// Flips the block's graphics on the x axis.
    pub x_flip: bool,
    /// Index of the block's entry in the tile table.
    pub block_number: u16,
}

/// Per-block metadata byte ("behind the scenery").
pub type BtsBlock = u8;

/// Blocks per screen side.
pub const BLOCKS_PER_SCREEN: usize = 16;

/// A decoded level: the block grid, its parallel metadata, and an
/// optional second layer of the same size.
#[derive(Debug, Default, Clone, PartialEq)]
pub struct LevelData {
    pub layer1: Vec<Block>,
    pub bts: Vec<BtsBlock>,
    pub layer2: Option<Vec<Block>>,
}

/// The block type tagged by the 4-bit value `v`.
pub open spec fn block_type_of(v: int) -> BlockType {
    if v == 0x1 {
        BlockType::Slope
    } else if v == 0x2 {
        BlockType::AirSpike
    } else if v == 0x3 {
        BlockType::AirSpecial
    } else if v == 0x4 {
        BlockType::AirShootable
    } else if v == 0x5 {
        BlockType::HorizontalExtension
    } else if v == 0x6 {
        BlockType::AirUnused
    } else if v == 0x7 {
        BlockType::AirBombable
    } else if v == 0x8 {
        BlockType::Solid
    } else if v == 0x9 {
        BlockType::Door
    } else if v == 0xA {
        BlockType::SolidSpike
    } else if v == 0xB {
        BlockType::SolidSpecial
    } else if v == 0xC {
        BlockType::SolidShootable
    } else if v == 0xD {
        BlockType::VerticalExtension
    } else if v == 0xE {
        BlockType::SolidGrapple
    } else if v == 0xF {
        BlockType::SolidBombable
    } else {
        BlockType::Air
    }
}

/// The 4-bit tag of a block type.
pub open spec fn block_type_code(t: BlockType) -> u16 {
    match t {
        BlockType::Air => 0x0,
        BlockType::Slope => 0x1,
        BlockType::AirSpike => 0x2,
        BlockType::AirSpecial => 0x3,
        BlockType::AirShootable => 0x4,
        BlockType::HorizontalExtension => 0x5,
        BlockType::AirUnused => 0x6,
        BlockType::AirBombable => 0x7,
        BlockType::Solid => 0x8,
        BlockType::Door => 0x9,
        BlockType::SolidSpike => 0xA,
        BlockType::SolidSpecial => 0xB,
        BlockType::SolidShootable => 0xC,
        BlockType::VerticalExtension => 0xD,
        BlockType::SolidGrapple => 0xE,
        BlockType::SolidBombable => 0xF,
    }
}

impl From<u16> for BlockType {
    /// The block type tagged by the low 4 bits' value range; values
    /// above 15 fall back to air as an out-of-range default.
    fn from(value: u16) -> (r: BlockType)
        ensures
            r == block_type_of(value as int),
    {
        if value == 0x1 {
            BlockType::Slope
        } else if value == 0x2 {
            BlockType::AirSpike
        } else if value == 0x3 {
            BlockType::AirSpecial
        } else if value == 0x4 {
            BlockType::AirShootable
        } else if value == 0x5 {
            BlockType::HorizontalExtension
        } else if value == 0x6 {
            BlockType::AirUnused
        } else if value == 0x7 {
            BlockType::AirBombable
        } else if value == 0x8 {
            BlockType::Solid
        } else if value == 0x9 {
            BlockType::Door
        } else if value == 0xA {
            BlockType::SolidSpike
        } else if value == 0xB {
            BlockType::SolidSpecial
        } else if value == 0xC {
            BlockType::SolidShootable
        } else if value == 0xD {
            BlockType::VerticalExtension
        } else if value == 0xE {
            BlockType::SolidGrapple
        } else if value == 0xF {
            BlockType::SolidBombable
        } else {
            BlockType::Air
        }
    }
}

impl vstd::std_specs::convert::FromSpecImpl<u16> for BlockType {
    open spec fn obeys_from_spec() -> bool {
        true
    }

    open spec fn from_spec(value: u16) -> BlockType {
        block_type_of(value as int)
    }
}

/// The block packed in the 16-bit word `w`.
pub open spec fn block_from_word(w: int) -> Block {
    Block {
        block_type: block_type_of(w / 0x1000 % 16),
        y_flip: w / 0x800 % 2 == 1,
        x_flip: w / 0x400 % 2 == 1,
        block_number: (w % 0x400) as u16,
    }
}

/// Decode a layer of whole 2-byte blocks.
pub fn layer_from_bytes(source: &[u8]) -> (r: Vec<Block>)
    requires
        source@.len() % 2 == 0,
    ensures
        r@.len() == source@.len() / 2,
        forall|i: int|
            0 <= i < r@.len() ==> #[trigger] r@[i] == block_from_word(le16_at(source@, 2 * i)),
{
    let len = source.len();
    let n = len / 2;
    let mut r: Vec<Block> = Vec::new();
    let mut i: usize = 0;
    while i < n
        invariant
            i <= n,
            len == source@.len(),
            n == len / 2,
            r@.len() == i,
            forall|k: int|
                0 <= k < i ==> #[trigger] r@[k] == block_from_word(le16_at(source@, 2 * k)),
        decreases n - i,
    {
        let w = crate::read_le16(source, 2 * i);
        r.push(
            Block {
                block_type: BlockType::from(w / 0x1000 % 16),
                y_flip: w / 0x800 % 2 == 1,
                x_flip: w / 0x400 % 2 == 1,
                block_number: w % 0x400,
            },
        );
        i += 1;
    }
    r
}

/// The block count a level buffer declares.
pub open spec fn level_block_count(s: Seq<u8>) -> int {
    le16_at(s, 0) / 2
}

/// Whether a level buffer is large enough for what it declares: the
/// two-byte size, both blocks-and-metadata runs, and the optional
/// second layer.
pub open spec fn level_decodes(s: Seq<u8>, has_layer2: bool) -> bool {
    s.len() >= 2 && s.len() - 2 >= level_block_count(s) * 2 + level_block_count(s) + (if has_layer2 {
        level_block_count(s) * 2
    } else {
        0
    })
}

/// `lv` is what `s` decodes to.
pub open spec fn is_decoded_level(s: Seq<u8>, has_layer2: bool, lv: LevelData) -> bool {
    let n = level_block_count(s);
    &&& lv.layer1@.len() == n
    &&& forall|i: int|
        0 <= i < n ==> #[trigger] lv.layer1@[i] == block_from_word(le16_at(s, 2 + 2 * i))
    &&& lv.bts@ == s.subrange(2 + 2 * n, 2 + 3 * n)
    &&& if has_layer2 {
        &&& lv.layer2 matches Some(l2)
        &&& l2@.len() == n
        &&& forall|i: int|
            0 <= i < n ==> #[trigger] l2@[i] == block_from_word(le16_at(s, 2 + 3 * n + 2 * i))
    } else {
        lv.layer2 is None
    }
}

/// Decode a level buffer, validating its declared size against the
/// bytes present before reading any of them.
pub fn load_from_bytes(source: &[u8], has_layer2: bool) -> (r: Result<LevelData, ParseError>)
    ensures
        r is Ok <==> level_decodes(source@, has_layer2),
        r matches Ok(lv) ==> is_decoded_level(source@, has_layer2, lv),
{
    let len = source.len();
    if len < 2 {
        return Err(ParseError);
    }
    let layer_size = crate::read_le16(source, 0) as usize;
    let number_of_blocks = layer_size / 2;
    let needed = number_of_blocks * 2 + number_of_blocks + (if has_layer2 {
        number_of_blocks * 2
    } else {
        0
    });
    if len - 2 < needed {
        return Err(ParseError);
    }
    let layer1_slice = vstd::slice::slice_subrange(source, 2, 2 + number_of_blocks * 2);
    let layer1 = layer_from_bytes(layer1_slice);
    let bts_slice = vstd::slice::slice_subrange(
        source,
        2 + number_of_blocks * 2,
        2 + number_of_blocks * 3,
    );
    let bts = vstd::slice::slice_to_vec(bts_slice);
    let layer2 = if has_layer2 {
        let layer2_slice = vstd::slice::slice_subrange(
            source,
            2 + number_of_blocks * 3,
            2 + number_of_blocks * 5,
        );
        Some(layer_from_bytes(layer2_slice))
    } else {
        None
    };
    let result = LevelData { layer1, bts, layer2 };
    proof {
        let s = source@;
        let n = level_block_count(s);
        assert(n == number_of_blocks);
        assert forall|i: int| 0 <= i < n implies #[trigger] result.layer1@[i] == block_from_word(
            le16_at(s, 2 + 2 * i),
        ) by {
            assert(layer1_slice@[2 * i] == s[2 + 2 * i] && layer1_slice@[2 * i + 1] == s[2 + 2 * i
                + 1]);
        }
        assert(result.bts@ =~= s.subrange(2 + 2 * n, 2 + 3 * n));
        if has_layer2 {
            let l2 = result.layer2->Some_0;
            assert forall|i: int| 0 <= i < n implies #[trigger] l2@[i] == block_from_word(
                le16_at(s, 2 + 3 * n + 2 * i),
            ) by {
                let sub = s.subrange(2 + number_of_blocks * 3, 2 + number_of_blocks * 5);
                assert(sub[2 * i] == s[2 + 3 * n + 2 * i] && sub[2 * i + 1] == s[2 + 3 * n + 2 * i
                    + 1]);
            }
        }
    }
    Ok(result)
}

/// The bytes a block packs to.
pub open spec fn block_word(b: Block) -> int {
    block_type_code(b.block_type) * 0x1000 + (if b.y_flip {
        0x800int
    } else {
        0
    }) + (if b.x_flip {
        0x400int
    } else {
        0
    }) + b.block_number
}

impl Block {
    /// Whether the block's tile-table index fits its 10 bits.
    pub open spec fn wf(self) -> bool {
        self.block_number < 0x400
    }

    /// Pack the block to its two little-endian bytes; decoding them
    /// yields the block back.
    pub fn to_bytes(&self) -> (r: Vec<u8>)
        requires
            self.wf(),
        ensures
            r@.len() == 2,
            le16_at(r@, 0) == block_word(*self),
            block_from_word(block_word(*self)) == *self,
    {
        let code: u16 = match self.block_type {
            BlockType::Air => 0x0,
            BlockType::Slope => 0x1,
            BlockType::AirSpike => 0x2,
            BlockType::AirSpecial => 0x3,
            BlockType::AirShootable => 0x4,
            BlockType::HorizontalExtension => 0x5,
            BlockType::AirUnused => 0x6,
            BlockType::AirBombable => 0x7,
            BlockType::Solid => 0x8,
            BlockType::Door => 0x9,
            BlockType::SolidSpike => 0xA,
            BlockType::SolidSpecial => 0xB,
            BlockType::SolidShootable => 0xC,
            BlockType::VerticalExtension => 0xD,
            BlockType::SolidGrapple => 0xE,
            BlockType::SolidBombable => 0xF,
        };
        let y_flip: u16 = if self.y_flip {
            1
        } else {
            0
        };
        let x_flip: u16 = if self.x_flip {
            1
        } else {
            0
        };
        let w = self.block_number + (code * 0x1000) + (y_flip * 0x800) + (x_flip * 0x400);
        let mut out: Vec<u8> = Vec::new();
        out.push((w % 256) as u8);
        out.push((w / 256) as u8);
        proof {
            assert(le16_at(out@, 0) == w);
            assert(w / 0x1000 % 16 == code && w / 0x800 % 2 == y_flip && w / 0x400 % 2 == x_flip
                && w % 0x400 == self.block_number) by (nonlinear_arith)
                requires
                    w == self.block_number + code * 0x1000 + y_flip * 0x800 + x_flip * 0x400,
                    self.block_number < 0x400,
                    code < 16,
                    y_flip < 2,
                    x_flip < 2,
            ;
        }
        out
    }
}

impl LevelData {
    /// A well-formed level: metadata parallel to layer 1, any second
    /// layer of the same size, and every block index in its 10 bits.
    pub open spec fn wf(self) -> bool {
        &&& self.bts@.len() == self.layer1@.len()
        &&& forall|i: int| 0 <= i < self.layer1@.len() ==> (#[trigger] self.layer1@[i]).wf()
        &&& self.layer2 matches Some(l2) ==> l2@.len() == self.layer1@.len() && forall|i: int|
            0 <= i < l2@.len() ==> (#[trigger] l2@[i]).wf()
    }

    /// Pack the level back to bytes: the declared layer byte size, the
    /// blocks, the metadata, and any second layer.
    pub fn to_bytes(&self) -> (r: Vec<u8>)
        requires
            self.wf(),
            self.layer1@.len() * 2 <= u16::MAX,
        ensures
            r@.len() == 2 + self.layer1@.len() * 3 + (match self.layer2 {
                Option::Some(l2) => l2@.len() * 2,
                Option::None => 0,
            }),
            le16_at(r@, 0) == 2 * self.layer1@.len(),
            forall|i: int|
                0 <= i < self.layer1@.len() ==> le16_at(r@, 2 + 2 * i) == block_word(
                    #[trigger] self.layer1@[i],
                ),
            r@.subrange(
                2 + 2 * self.layer1@.len() as int,
                2 + 3 * self.layer1@.len() as int,
            ) == self.bts@,
            self.layer2 matches Some(l2) ==> forall|i: int|
                0 <= i < l2@.len() ==> le16_at(
                    r@,
                    2 + 3 * self.layer1@.len() + 2 * i,
                ) == block_word(#[trigger] l2@[i]),
    {
        let n = self.layer1.len();
        let layer_size = (n * 2) as u16;
        let mut output: Vec<u8> = Vec::new();
        output.push((layer_size % 256) as u8);
        output.push((layer_size / 256) as u8);
        let mut i: usize = 0;
        while i < n
            invariant
                i <= n,
                n == self.layer1@.len(),
                self.wf(),
                output@.len() == 2 + 2 * i,
                le16_at(output@, 0) == 2 * n,
                forall|k: int|
                    0 <= k < i ==> le16_at(output@, 2 + 2 * k) == block_word(
                        #[trigger] self.layer1@[k],
                    ),
                2 * n <= u16::MAX,
            decreases n - i,
        {
            let mut b = self.layer1[i].to_bytes();
            output.append(&mut b);
            i += 1;
        }
        let mut i: usize = 0;
        while i < n
            invariant
                i <= n,
                n == self.layer1@.len(),
                self.wf(),
                output@.len() == 2 + 2 * n + i,
                le16_at(output@, 0) == 2 * n,
                forall|k: int|
                    0 <= k < n ==> le16_at(output@, 2 + 2 * k) == block_word(
                        #[trigger] self.layer1@[k],
                    ),
                output@.subrange(2 + 2 * n as int, 2 + 2 * n as int + i as int) == self.bts@
                    .subrange(0, i as int),
                2 * n <= u16::MAX,
            decreases n - i,
        {
            output.push(self.bts[i]);
            proof {
                assert(output@.subrange(2 + 2 * n as int, 2 + 2 * n as int + i as int + 1)
                    =~= self.bts@.subrange(0, i as int + 1));
            }
            i += 1;
        }
        proof {
            assert(output@.subrange(2 + 2 * n as int, 2 + 3 * n as int) =~= self.bts@);
        }
        if let Some(layer2) = &self.layer2 {
            let n2 = layer2.len();
            let mut i: usize = 0;
            while i < n2
                invariant
                    i <= n2,
                    n == self.layer1@.len(),
                    self.wf(),
                    self.layer2 matches Some(l2) && l2@.len() == n2 && l2@ == layer2@,
                    n2 == n,
                    output@.len() == 2 + 3 * n + 2 * i,
                    le16_at(output@, 0) == 2 * n,
                    forall|k: int|
                        0 <= k < n ==> le16_at(output@, 2 + 2 * k) == block_word(
                            #[trigger] self.layer1@[k],
                        ),
                    output@.subrange(2 + 2 * n as int, 2 + 3 * n as int) == self.bts@,
                    forall|k: int|
                        0 <= k < i ==> le16_at(output@, 2 + 3 * n + 2 * k) == block_word(
                            #[trigger] layer2@[k],
                        ),
                    2 * n <= u16::MAX,
                decreases n2 - i,
            {
                let mut b = layer2[i].to_bytes();
                output.append(&mut b);
                proof {
                    assert(output@.subrange(2 + 2 * n as int, 2 + 3 * n as int) =~= self.bts@);
                }
                i += 1;
            }
        }
        output
    }
}

/// Packing a well-formed block and decoding the word yields the block
/// back.
pub proof fn lemma_block_word_round_trip(b: Block)
    requires
        b.wf(),
    ensures
        0 <= block_word(b) < 0x10000,
        block_from_word(block_word(b)) == b,
{
    let code = block_type_code(b.block_type);
    let y_flip: u16 = if b.y_flip {
        1
    } else {
        0
    };
    let x_flip: u16 = if b.x_flip {
        1
    } else {
        0
    };
    let w = block_word(b);
    assert(w / 0x1000 % 16 == code && w / 0x800 % 2 == y_flip && w / 0x400 % 2 == x_flip && w
        % 0x400 == b.block_number && 0 <= w < 0x10000) by (nonlinear_arith)
        requires
            w == b.block_number + code * 0x1000 + y_flip * 0x800 + x_flip * 0x400,
            b.block_number < 0x400,
            code < 16,
            y_flip < 2,
            x_flip < 2,
    ;
}

/// Packing a well-formed level and decoding the bytes yields the level
/// back: the encoded form always decodes, under the same second-layer
/// choice, to a level with the same blocks, metadata and second layer.
pub proof fn lemma_level_to_bytes_round_trip(lv: LevelData, bytes: Seq<u8>)
    requires
        lv.wf(),
        lv.layer1@.len() * 2 <= u16::MAX,
        bytes.len() == 2 + lv.layer1@.len() * 3 + (match lv.layer2 {
            Option::Some(l2) => l2@.len() * 2,
            Option::None => 0nat,
        }),
        le16_at(bytes, 0) == 2 * lv.layer1@.len(),
        forall|i: int|
            0 <= i < lv.layer1@.len() ==> le16_at(bytes, 2 + 2 * i) == block_word(
                #[trigger] lv.layer1@[i],
            ),
        bytes.subrange(2 + 2 * lv.layer1@.len() as int, 2 + 3 * lv.layer1@.len() as int)
            == lv.bts@,
        lv.layer2 matches Some(l2) ==> forall|i: int|
            0 <= i < l2@.len() ==> le16_at(bytes, 2 + 3 * lv.layer1@.len() + 2 * i) == block_word(
                #[trigger] l2@[i],
            ),
    ensures
        level_decodes(bytes, lv.layer2 is Some),
        is_decoded_level(bytes, lv.layer2 is Some, lv),
{
    let n = lv.layer1@.len() as int;
    assert(level_block_count(bytes) == n);
    assert forall|i: int| 0 <= i < n implies #[trigger] lv.layer1@[i] == block_from_word(
        le16_at(bytes, 2 + 2 * i),
    ) by {
        lemma_block_word_round_trip(lv.layer1@[i]);
    }
    if lv.layer2 is Some {
        let l2 = lv.layer2->Some_0;
        assert forall|i: int| 0 <= i < n implies #[trigger] l2@[i] == block_from_word(
            le16_at(bytes, 2 + 3 * n + 2 * i),
        ) by {
            lemma_block_word_round_trip(l2@[i]);
        }
    }
}

/// A layer can be rendered over a room `sx` by `sy` screens wide and
/// high: enough blocks, every block's tile-table entry present, every
/// referenced tile in the graphics.
pub open spec fn layer_renderable(
    blocks: Seq<Block>,
    tt: Seq<Tile>,
    gfx: Gfx,
    sx: int,
    sy: int,
) -> bool {
    &&& blocks.len() >= 256 * sx * sy
    &&& forall|i: int|
        0 <= i < blocks.len() ==> (#[trigger] blocks[i]).block_number * 4 + 4 <= tt.len()
    &&& forall|t: int|
        0 <= t < tt.len() ==> (#[trigger] tt[t]).gfx_index < gfx.tiles@.len() && tt[t].sub_palette
            < 8
    &&& gfx.wf()
}

/// The indexed color one layer shows at flat pixel position `pos` of a
/// room `sx` screens wide: the block's tile-table entry supplies four
/// tiles whose positions swap under the block's flips, and the chosen
/// tile is itself flipped by the combination of its own and the block's
/// flips.
pub open spec fn layer_indexed_color_at(
    blocks: Seq<Block>,
    tt: Seq<Tile>,
    gfx: Gfx,
    sx: int,
    pos: int,
) -> IndexedColor {
    let width = 256 * sx;
    let row = pos / width;
    let col = pos % width;
    let ib = row / 16 * (16 * sx) + col / 16;
    let ty = row % 16 / 8;
    let tx = col % 16 / 8;
    let py = row % 8;
    let px = col % 8;
    let b = blocks[ib];
    let sty = if b.y_flip {
        1 - ty
    } else {
        ty
    };
    let stx = if b.x_flip {
        1 - tx
    } else {
        tx
    };
    let tile = tt[b.block_number * 4 + 2 * sty + stx];
    let idx = gfx.tiles@[tile.gfx_index as int].colors@[flip_index(
        tile.x_flip != b.x_flip,
        tile.y_flip != b.y_flip,
        py * 8 + px,
    )];
    IndexedColor { index: idx as usize, sub_palette: tile.sub_palette as usize }
}

/// What the level shows at `pos`: layer 1 where its index is not the
/// transparent 0, else any layer 2 where its index is not 0, else the
/// zero color.
pub open spec fn level_indexed_color_at(
    lv: LevelData,
    tt: Seq<Tile>,
    gfx: Gfx,
    sx: int,
    pos: int,
) -> IndexedColor {
    let c1 = layer_indexed_color_at(lv.layer1@, tt, gfx, sx, pos);
    if c1.index != 0 {
        c1
    } else {
        match lv.layer2 {
            Option::Some(l2) => {
                let c2 = layer_indexed_color_at(l2@, tt, gfx, sx, pos);
                if c2.index != 0 {
                    c2
                } else {
                    IndexedColor { index: 0, sub_palette: 0 }
                }
            },
            Option::None => IndexedColor { index: 0, sub_palette: 0 },
        }
    }
}

/// One layer's indexed color at `pos`, as `layer_indexed_color_at`
/// states it.
#[verifier::rlimit(60)]
fn layer_color(
    blocks: &Vec<Block>,
    tile_table: &TileTable,
    graphics: &Gfx,
    sx: usize,
    pos: usize,
) -> (r: IndexedColor)
    requires
        1 <= sx,
        256 * sx <= usize::MAX,
        pos as int / (256 * sx as int) / 16 * (16 * sx as int) + pos as int % (256 * sx as int)
            / 16 < blocks@.len(),
        forall|i: int|
            0 <= i < blocks@.len() ==> (#[trigger] blocks@[i]).block_number * 4 + 4
                <= tile_table@.len(),
        forall|t: int|
            0 <= t < tile_table@.len() ==> (#[trigger] tile_table@[t]).gfx_index
                < graphics.tiles@.len() && tile_table@[t].sub_palette < 8,
        graphics.wf(),
    ensures
        r == layer_indexed_color_at(blocks@, tile_table@, *graphics, sx as int, pos as int),
        r.index < 16,
        r.sub_palette < 8,
{
    let blen = blocks.len();
    let width = 256 * sx;
    let row = pos / width;
    let col = pos % width;
    let ib = row / 16 * (16 * sx) + col / 16;
    let ty = row % 16 / 8;
    let tx = col % 16 / 8;
    let py = row % 8;
    let px = col % 8;
    let b = blocks[ib];
    let sty = if b.y_flip {
        1 - ty
    } else {
        ty
    };
    let stx = if b.x_flip {
        1 - tx
    } else {
        tx
    };
    let tile = tile_table[b.block_number as usize * 4 + 2 * sty + stx];
    let fy = tile.y_flip != b.y_flip;
    let fx = tile.x_flip != b.x_flip;
    let fr = if fy {
        7 - py
    } else {
        py
    };
    let fc = if fx {
        7 - px
    } else {
        px
    };
    let idx = graphics.tiles[tile.gfx_index as usize].colors[fr * 8 + fc];
    proof {
        assert(flip_index(fx, fy, py as int * 8 + px as int) == fr as int * 8 + fc as int);
    }
    IndexedColor { index: idx as usize, sub_palette: tile.sub_palette as usize }
}

impl LevelData {
    /// Render the level's visible indexed colors over a room `size.0`
    /// by `size.1` screens: layer 1 over layer 2 over the zero color,
    /// index 0 meaning transparent.
    pub fn to_indexed_colors(
        &self,
        size: (usize, usize),
        tile_table: &TileTable,
        graphics: &Gfx,
    ) -> (r: Vec<IndexedColor>)
        requires
            1 <= size.0 && 1 <= size.1,
            65536 * size.0 * size.1 <= usize::MAX,
            layer_renderable(
                self.layer1@,
                tile_table@,
                *graphics,
                size.0 as int,
                size.1 as int,
            ),
            self.layer2 matches Some(l2) ==> layer_renderable(
                l2@,
                tile_table@,
                *graphics,
                size.0 as int,
                size.1 as int,
            ),
        ensures
            r@.len() == 65536 * size.0 * size.1,
            forall|m: int|
                0 <= m < r@.len() ==> #[trigger] r@[m] == level_indexed_color_at(
                    *self,
                    tile_table@,
                    *graphics,
                    size.0 as int,
                    m,
                ),
            forall|m: int|
                0 <= m < r@.len() ==> (#[trigger] r@[m]).index < 16 && r@[m].sub_palette < 8,
    {
        let sx = size.0;
        let sy = size.1;
        proof {
            assert((256 * sx as int) * (256 * sy as int) == 65536 * sx as int * sy as int && 256
                * sx as int <= 65536 * sx as int * sy as int && 256 * sy as int <= 65536
                * sx as int * sy as int) by (nonlinear_arith)
                requires
                    1 <= sx,
                    1 <= sy,
            ;
        }
        let width = 256 * sx;
        let total = width * (256 * sy);
        let mut r: Vec<IndexedColor> = Vec::new();
        let mut pos: usize = 0;
        while pos < total
            invariant
                pos <= total,
                total == 65536 * sx * sy,
                256 * sx <= usize::MAX,
                1 <= sx && 1 <= sy,
                sx == size.0 && sy == size.1,
                layer_renderable(self.layer1@, tile_table@, *graphics, sx as int, sy as int),
                self.layer2 matches Some(l2) ==> layer_renderable(
                    l2@,
                    tile_table@,
                    *graphics,
                    sx as int,
                    sy as int,
                ),
                r@.len() == pos,
                forall|m: int|
                    0 <= m < pos ==> #[trigger] r@[m] == level_indexed_color_at(
                        *self,
                        tile_table@,
                        *graphics,
                        sx as int,
                        m,
                    ),
                forall|m: int|
                    0 <= m < pos ==> (#[trigger] r@[m]).index < 16 && r@[m].sub_palette < 8,
            decreases total - pos,
        {
            proof {
                let sxi = sx as int;
                let syi = sy as int;
                let p = pos as int;
                let w = 256 * sxi;
                let row = p / w;
                let col = p % w;
                assert(0 <= row < 256 * syi && 0 <= col < w) by (nonlinear_arith)
                    requires
                        0 <= p < 65536 * sxi * syi,
                        1 <= sxi,
                        1 <= syi,
                        w == 256 * sxi,
                        row == p / w,
                        col == p % w,
                ;
                let a = row / 16;
                let b = col / 16;
                assert(0 <= a <= 16 * syi - 1 && 0 <= b <= 16 * sxi - 1) by (nonlinear_arith)
                    requires
                        0 <= row < 256 * syi,
                        0 <= col < 256 * sxi,
                        1 <= sxi,
                        1 <= syi,
                        a == row / 16,
                        b == col / 16,
                ;
                assert(a * (16 * sxi) + b < 256 * sxi * syi) by (nonlinear_arith)
                    requires
                        0 <= a <= 16 * syi - 1,
                        0 <= b <= 16 * sxi - 1,
                        1 <= sxi,
                        1 <= syi,
                ;
            }
            let c1 = layer_color(&self.layer1, tile_table, graphics, sx, pos);
            let c = if c1.index != 0 {
                c1
            } else if let Some(layer2) = &self.layer2 {
                let c2 = layer_color(layer2, tile_table, graphics, sx, pos);
                if c2.index != 0 {
                    c2
                } else {
                    IndexedColor { index: 0, sub_palette: 0 }
                }
            } else {
                IndexedColor { index: 0, sub_palette: 0 }
            };
            r.push(c);
            pos += 1;
        }
        r
    }

    /// Render the level to colors through a palette.
    pub fn to_colors(
        &self,
        size: (usize, usize),
        tile_table: &TileTable,
        palette: &Palette,
        graphics: &Gfx,
    ) -> (r: Vec<Rgb888>)
        requires
            1 <= size.0 && 1 <= size.1,
            65536 * size.0 * size.1 <= usize::MAX,
            palette.wf(),
            layer_renderable(
                self.layer1@,
                tile_table@,
                *graphics,
                size.0 as int,
                size.1 as int,
            ),
            self.layer2 matches Some(l2) ==> layer_renderable(
                l2@,
                tile_table@,
                *graphics,
                size.0 as int,
                size.1 as int,
            ),
        ensures
            r@.len() == 65536 * size.0 * size.1,
            forall|m: int|
                0 <= m < r@.len() ==> #[trigger] r@[m] == rgb888_of(
                    ({
                        let c = level_indexed_color_at(
                            *self,
                            tile_table@,
                            *graphics,
                            size.0 as int,
                            m,
                        );
                        palette.sub_palettes@[c.sub_palette as int].colors@[c.index as int]
                    }),
                ),
    {
        let indexed = self.to_indexed_colors(size, tile_table, graphics);
        let n = indexed.len();
        let mut r: Vec<Rgb888> = Vec::new();
        let mut m: usize = 0;
        while m < n
            invariant
                m <= n,
                n == indexed@.len(),
                n == 65536 * size.0 * size.1,
                palette.wf(),
                forall|k: int|
                    0 <= k < n ==> (#[trigger] indexed@[k]) == level_indexed_color_at(
                        *self,
                        tile_table@,
                        *graphics,
                        size.0 as int,
                        k,
                    ),
                forall|k: int|
                    0 <= k < n ==> 0 <= (#[trigger] indexed@[k]).sub_palette < 8 && 0
                        <= indexed@[k].index < 16,
                r@.len() == m,
                forall|k: int|
                    0 <= k < m ==> #[trigger] r@[k] == rgb888_of(
                        palette.sub_palettes@[indexed@[k].sub_palette as int].colors@[indexed@[k].index as int],
                    ),
            decreases n - m,
        {
            let ic = indexed[m];
            let c = palette.sub_palettes[ic.sub_palette].colors[ic.index];
            r.push(Rgb888 { r: c.r << 3u8, g: c.g << 3u8, b: c.b << 3u8 });
            m += 1;
        }
        r
    }
}

} // verus!
