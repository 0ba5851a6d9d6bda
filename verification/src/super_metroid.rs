//! The cartridge store: owns the flat byte image, builds the
//! address-keyed object graph from it, composes shared resources, and
//! writes modified records back with fresh allocation and pointer
//! relocation.
use vstd::prelude::*;

use crate::address::{pc_of, LoRom, Pc};
use crate::address_map::AddressMap;
use crate::compress::lz5_decode;
use crate::door::Door;
use crate::door_list::DoorList;
use crate::gfx::{tile_colors_spec, Gfx, TileGfx};
use crate::level_data::{is_decoded_level, LevelData};
use crate::palette::{is_decoded_palette, palette_byte, palette_decodes, Palette};
use crate::room::{state_conditions_spec, Room};
use crate::save_station::SaveStation;
use crate::state::State;
use crate::tile_table::{tile_from_word, Tile, TileTable};
use crate::tileset::{tileset_at, Tileset};
use crate::{le16_at, le24_at};

verus! {

/// Why a load or save of the whole image failed.
#[derive(Debug, Clone, Copy, PartialEq, Eq, Structural)]
pub enum RomError {
    /// The image does not carry the known content digest; the load
    /// refuses to proceed.
    ChecksumMismatch,
    /// A compressed blob was truncated or referenced outside its own
    /// output.
    MalformedCompressedStream,
    /// A record's bytes do not fit its format, or lie outside the
    /// image.
    MalformedRecord,
    /// A relocation pass ran past the end of the image.
    CapacityExceeded,
}

/// The digest of the expected, unheadered image.
pub open spec fn unheadered_md5_seq() -> Seq<u8> {
    seq![33u8, 243, 233, 141, 244, 120, 14, 225, 198, 103, 184, 78, 87, 216, 134, 117]
}

/// What md5 returns on a byte run; a function of the bytes alone.
pub uninterp spec fn md5_of(data: Seq<u8>) -> Seq<u8>;

/// Relies on md5::compute: the 16-byte digest of the input, depending
/// on the input bytes alone.
#[verifier::external_body]
fn md5_digest(data: &Vec<u8>) -> (r: Vec<u8>)
    ensures
        r@ == md5_of(data@),
        r@.len() == 16,
{
    md5::compute(data.as_slice()).0.to_vec()
}

/// Where the fixed root records stand in the image; every address is
/// banked.
pub struct RomRoots {
    /// The tileset table, `NUMBER_OF_TILESETS` 9-byte entries.
    pub tilesets: usize,
    /// The shared common-resource graphics.
    pub cre_gfx: usize,
    /// The shared common-resource tile table.
    pub cre_tileset: usize,
    /// The room headers.
    pub rooms: Vec<usize>,
    /// Door lists: a door count and an in-bank address each.
    pub door_lists: Vec<(usize, u16)>,
    /// The door records: a count and a banked address.
    pub doors: (usize, usize),
    /// The save-station records.
    pub save_stations: usize,
    /// The table of per-area save-station offsets.
    pub save_station_list: usize,
    /// Entries of that table.
    pub number_of_areas: usize,
}

/// Banked base of the region palettes are re-packed into on save.
pub const PALETTE_FREE_SPACE: usize = 0xC2AD7C;

/// Banked base of the region level data is re-packed into on save.
pub const LEVEL_FREE_SPACE: usize = 0xC2C2BB;

/// The in-memory object graph of one image.
pub struct SuperMetroid {
    /// The flat byte image.
    pub rom: Vec<u8>,
    pub cre_gfx: Gfx,
    pub cre_tileset: TileTable,
    pub tilesets: Vec<Tileset>,
    /// Where the tileset table came from, for writing it back.
    pub tileset_table_address: usize,
    pub palettes: AddressMap<Palette>,
    pub graphics: AddressMap<Gfx>,
    pub tile_tables: AddressMap<TileTable>,
    pub levels: AddressMap<LevelData>,
    pub rooms: AddressMap<Room>,
    pub states: AddressMap<State>,
    pub doors: AddressMap<Door>,
    pub door_lists: AddressMap<DoorList>,
    pub save_stations: Vec<Vec<SaveStation>>,
}

/// Suffix access into the byte image by flat offset.
pub trait Offset {
    spec fn data(&self) -> Seq<u8>;

    /// The bytes from `start` to the end of the image.
    fn offset(&self, start: Pc) -> (r: &[u8])
        requires
            start.address <= self.data().len(),
        ensures
            r@ == self.data().skip(start.address as int),
    ;
}

impl Offset for Vec<u8> {
    open spec fn data(&self) -> Seq<u8> {
        self@
    }

    fn offset(&self, start: Pc) -> (r: &[u8]) {
        vstd::slice::slice_subrange(self.as_slice(), start.address, self.len())
    }
}

/// A tile of 64 transparent pixels, padding the gap between an area's
/// own graphics and the shared common-resource graphics.
pub open spec fn is_blank_tile(t: TileGfx) -> bool {
    t.colors@.len() == 64 && forall|i: int| 0 <= i < 64 ==> #[trigger] t.colors@[i] == 0
}

/// Build one blank tile.
fn blank_tile() -> (r: TileGfx)
    ensures
        is_blank_tile(r),
        r.wf(),
{
    let mut colors: Vec<u8> = Vec::new();
    let mut i: usize = 0;
    while i < 64
        invariant
            i <= 64,
            colors@.len() == i,
            forall|k: int| 0 <= k < i ==> #[trigger] colors@[k] == 0,
        decreases 64 - i,
    {
        colors.push(0);
        i += 1;
    }
    TileGfx { colors }
}

/// A fresh deep copy of a graphics sheet, tile for tile.
fn copy_gfx(g: &Gfx) -> (r: Gfx)
    ensures
        r.tiles@.len() == g.tiles@.len(),
        forall|t: int| 0 <= t < g.tiles@.len() ==> (#[trigger] r.tiles@[t]).colors@
            == g.tiles@[t].colors@,
{
    let n = g.tiles.len();
    let mut tiles: Vec<TileGfx> = Vec::new();
    let mut t: usize = 0;
    while t < n
        invariant
            t <= n,
            n == g.tiles@.len(),
            tiles@.len() == t,
            forall|k: int| 0 <= k < t ==> (#[trigger] tiles@[k]).colors@ == g.tiles@[k].colors@,
        decreases n - t,
    {
        let src = &g.tiles[t];
        let m = src.colors.len();
        let mut colors: Vec<u8> = Vec::new();
        let mut i: usize = 0;
        while i < m
            invariant
                i <= m,
                m == src.colors@.len(),
                colors@.len() == i,
                forall|k: int| 0 <= k < i ==> #[trigger] colors@[k] == src.colors@[k],
            decreases m - i,
        {
            colors.push(src.colors[i]);
            i += 1;
        }
        proof {
            assert(colors@ =~= src.colors@);
        }
        tiles.push(TileGfx { colors });
        t += 1;
    }
    Gfx { tiles }
}

/// A fresh copy of a tile table.
fn copy_tile_table(t: &TileTable) -> (r: TileTable)
    ensures
        r@ == t@,
{
    let n = t.len();
    let mut r: Vec<Tile> = Vec::new();
    let mut i: usize = 0;
    while i < n
        invariant
            i <= n,
            n == t@.len(),
            r@.len() == i,
            forall|k: int| 0 <= k < i ==> #[trigger] r@[k] == t@[k],
        decreases n - i,
    {
        r.push(t[i]);
        i += 1;
    }
    proof {
        assert(r@ =~= t@);
    }
    r
}

/// Whether the image carries the expected content digest.
fn rom_checksum_ok(rom: &Vec<u8>) -> (r: bool)
    ensures
        r <==> md5_of(rom@) == unheadered_md5_seq(),
{
    {
        let digest = md5_digest(rom);
        let expected: [u8; 16] = [
            33,
            243,
            233,
            141,
            244,
            120,
            14,
            225,
            198,
            103,
            184,
            78,
            87,
            216,
            134,
            117,
        ];
        let mut i: usize = 0;
        while i < 16
            invariant
                i <= 16,
                digest@ == md5_of(rom@),
                digest@.len() == 16,
                expected@ == unheadered_md5_seq(),
                forall|k: int| 0 <= k < i ==> digest@[k] == unheadered_md5_seq()[k],
            decreases 16 - i,
        {
            if digest[i] != expected[i] {
                proof {
                    assert(digest@[i as int] != unheadered_md5_seq()[i as int]);
                }
                return false;
            }
            i += 1;
        }
        proof {
            assert(digest@ =~= unheadered_md5_seq());
        }
        true
    }
}

impl SuperMetroid {
    /// Whether the image carries the expected content digest.
    fn check_md5(&self) -> (r: bool)
        ensures
            r <==> md5_of(self.rom@) == unheadered_md5_seq(),
    {
        rom_checksum_ok(&self.rom)
    }

    /// An area's graphics with the shared common resources appended:
    /// the stored tiles, 64 blank tiles for the format's layout gap,
    /// then the common-resource tiles.
    pub fn gfx_with_cre(&self, gfx: usize) -> (r: Gfx)
        requires
            self.graphics.contains(gfx),
        ensures
            ({
                let own = self.graphics.spec_get(gfx)->Some_0;
                &&& r.tiles@.len() == own.tiles@.len() + 64 + self.cre_gfx.tiles@.len()
                &&& forall|t: int| 0 <= t < own.tiles@.len() ==> (#[trigger] r.tiles@[t]).colors@
                    == own.tiles@[t].colors@
                &&& forall|t: int|
                    own.tiles@.len() <= t < own.tiles@.len() + 64 ==> is_blank_tile(
                        #[trigger] r.tiles@[t],
                    )
                &&& forall|t: int|
                    0 <= t < self.cre_gfx.tiles@.len() ==> (#[trigger] self.cre_gfx.tiles@[t]).colors@
                        == r.tiles@[own.tiles@.len() + 64 + t].colors@
            }),
    {
        let own = match self.graphics.get(gfx) {
            Option::Some(g) => g,
            Option::None => {
                proof {
                    assert(false);
                }
                unreached()
            },
        };
        let mut out = copy_gfx(own);
        let n1 = out.tiles.len();
        let mut i: usize = 0;
        while i < 64
            invariant
                i <= 64,
                out.tiles@.len() == n1 + i,
                forall|t: int| 0 <= t < n1 ==> (#[trigger] out.tiles@[t]).colors@
                    == self.graphics.spec_get(gfx)->Some_0.tiles@[t].colors@,
                n1 == self.graphics.spec_get(gfx)->Some_0.tiles@.len(),
                forall|t: int| n1 <= t < n1 + i ==> is_blank_tile(#[trigger] out.tiles@[t]),
            decreases 64 - i,
        {
            let b = blank_tile();
            out.tiles.push(b);
            i += 1;
        }
        let n_cre = self.cre_gfx.tiles.len();
        let ghost before = out.tiles@;
        let mut cre_iter: usize = 0;
        while cre_iter < n_cre
            invariant
                cre_iter <= n_cre,
                n_cre == self.cre_gfx.tiles@.len(),
                out.tiles@.len() == before.len() + cre_iter,
                forall|t: int| 0 <= t < before.len() ==> #[trigger] out.tiles@[t] == before[t],
                forall|t: int|
                    0 <= t < cre_iter ==> (#[trigger] self.cre_gfx.tiles@[t]).colors@
                        == out.tiles@[before.len() + t].colors@,
            decreases n_cre - cre_iter,
        {
            let src = &self.cre_gfx.tiles[cre_iter];
            let m = src.colors.len();
            let mut colors: Vec<u8> = Vec::new();
            let mut ci: usize = 0;
            while ci < m
                invariant
                    ci <= m,
                    m == src.colors@.len(),
                    colors@.len() == ci,
                    forall|k: int| 0 <= k < ci ==> #[trigger] colors@[k] == src.colors@[k],
                decreases m - ci,
            {
                colors.push(src.colors[ci]);
                ci += 1;
            }
            proof {
                assert(colors@ =~= src.colors@);
            }
            out.tiles.push(TileGfx { colors });
            cre_iter += 1;
        }
        out
    }

    /// An area's tile table with the shared common-resource table
    /// prefixed before it.
    pub fn tile_table_with_cre(&self, tileset: usize) -> (r: TileTable)
        requires
            self.tile_tables.contains(tileset),
        ensures
            r@ == self.cre_tileset@ + self.tile_tables.spec_get(tileset)->Some_0@,
    {
        let own = match self.tile_tables.get(tileset) {
            Option::Some(t) => t,
            Option::None => {
                proof {
                    assert(false);
                }
                unreached()
            },
        };
        let mut out = copy_tile_table(&self.cre_tileset);
        let n = own.len();
        let ghost before = out@;
        let mut i: usize = 0;
        while i < n
            invariant
                i <= n,
                n == own@.len(),
                out@.len() == before.len() + i,
                forall|t: int| 0 <= t < before.len() ==> #[trigger] out@[t] == before[t],
                forall|t: int| 0 <= t < i ==> #[trigger] own@[t] == out@[before.len() + t],
            decreases n - i,
        {
            out.push(own[i]);
            i += 1;
        }
        proof {
            assert(out@ =~= self.cre_tileset@ + self.tile_tables.spec_get(tileset)->Some_0@);
        }
        out
    }
}

/// Overwrite `rom[at .. at + bytes.len()]` with `bytes`, leaving every
/// other position as it was.
fn write_bytes(rom: &mut Vec<u8>, at: usize, bytes: &Vec<u8>)
    requires
        at + bytes@.len() <= old(rom)@.len(),
    ensures
        final(rom)@.len() == old(rom)@.len(),
        forall|i: int| 0 <= i < bytes@.len() ==> #[trigger] bytes@[i] == final(rom)@[at + i],
        forall|i: int|
            0 <= i < old(rom)@.len() && !(at <= i < at + bytes@.len())
                ==> #[trigger] final(rom)@[i] == old(rom)@[i],
        unchanged_outside(final(rom)@, old(rom)@, at as int, at + bytes@.len()),
{
    proof {
        reveal(unchanged_outside);
    }
    let n = bytes.len();
    let rlen = rom.len();
    let mut k: usize = 0;
    while k < n
        invariant
            k <= n,
            n == bytes@.len(),
            at + n <= rlen,
            rlen == rom@.len(),
            rom@.len() == old(rom)@.len(),
            forall|i: int| 0 <= i < k ==> #[trigger] bytes@[i] == rom@[at + i],
            forall|i: int|
                0 <= i < old(rom)@.len() && !(at <= i < at + k)
                    ==> #[trigger] rom@[i] == old(rom)@[i],
        decreases n - k,
    {
        rom[at + k] = bytes[k];
        k += 1;
    }
}

/// Look a key up in a relocation table.
fn remap_get(remap: &Vec<(usize, usize)>, k: usize) -> (r: Option<usize>)
    ensures
        r == crate::address_map::entries_get(remap@, k),
{
    let n = remap.len();
    let mut i: usize = 0;
    proof {
        assert(remap@.skip(0) =~= remap@);
    }
    while i < n
        invariant
            i <= n,
            n == remap@.len(),
            crate::address_map::entries_get(remap@, k) == crate::address_map::entries_get(
                remap@.skip(i as int),
                k,
            ),
        decreases n - i,
    {
        if remap[i].0 == k {
            return Some(remap[i].1);
        }
        proof {
            assert(remap@.skip(i as int).drop_first() =~= remap@.skip(i as int + 1));
        }
        i += 1;
    }
    None
}

/// Chain the three save passes' frames: a byte outside every written
/// region keeps its original value.
proof fn lemma_save_frames_compose(
    rom0: Seq<u8>,
    rom1: Seq<u8>,
    rom2: Seq<u8>,
    rom3: Seq<u8>,
    pal_lo: int,
    pal_hi: int,
    lvl_lo: int,
    lvl_hi: int,
    rooms: Seq<(usize, Room)>,
    tab_lo: int,
    tab_hi: int,
)
    requires
        rom1.len() == rom0.len(),
        rom2.len() == rom1.len(),
        unchanged_outside(rom1, rom0, pal_lo, pal_hi),
        forall|j: int|
            0 <= j < rom1.len() && !(lvl_lo <= j < lvl_hi) && !in_room_region(rooms, j)
                ==> #[trigger] rom2[j] == rom1[j],
        unchanged_outside(rom3, rom2, tab_lo, tab_hi),
    ensures
        forall|j: int|
            0 <= j < rom0.len() && !(pal_lo <= j < pal_hi) && !(lvl_lo <= j < lvl_hi)
                && !in_room_region(rooms, j) && !(tab_lo <= j < tab_hi) ==> #[trigger] rom3[j]
                == rom0[j],
{
    reveal(unchanged_outside);
}

/// A palette blob inside its window survives the level pass (which only
/// writes the level window and the room images, all disjoint from it)
/// and the table write below it.
proof fn lemma_palette_blob_survives(
    rom_a: Seq<u8>,
    rom_b: Seq<u8>,
    rom_c: Seq<u8>,
    na: usize,
    p: Palette,
    e0: int,
    pal_lo: int,
    pal_hi: int,
    lvl_lo: int,
    lvl_hi: int,
    rooms: Seq<(usize, Room)>,
    tab_lo: int,
    tab_hi: int,
)
    requires
        palette_blob_at(rom_a, na, e0, p),
        pal_lo <= pc_of(na as int),
        pc_of(na as int) + e0 <= pal_hi,
        pal_hi <= lvl_lo,
        tab_hi <= pal_lo,
        forall|k: int|
            0 <= k < rooms.len() ==> pc_of((#[trigger] rooms[k]).0 as int) + room_image(
                rooms[k].1,
            ).len() <= pal_lo,
        rom_b.len() == rom_a.len(),
        forall|j: int|
            0 <= j < rom_a.len() && !(lvl_lo <= j < lvl_hi) && !in_room_region(rooms, j)
                ==> #[trigger] rom_b[j] == rom_a[j],
        unchanged_outside(rom_c, rom_b, tab_lo, tab_hi),
    ensures
        palette_blob_at(rom_c, na, e0, p),
{
    reveal(palette_blob_in);
    reveal(unchanged_outside);
    let lo = pc_of(na as int);
    assert forall|x: int| lo <= x < lo + e0 implies rom_b[x] == rom_a[x] by {
        assert(!in_room_region(rooms, x)) by {
            if in_room_region(rooms, x) {
                let k = choose|k: int|
                    0 <= k < rooms.len() && pc_of((#[trigger] rooms[k]).0 as int) <= x < pc_of(
                        rooms[k].0 as int,
                    ) + room_image(rooms[k].1).len();
                assert(pc_of(rooms[k].0 as int) + room_image(rooms[k].1).len() <= pal_lo);
            }
        }
    }
    assert(rom_c.subrange(lo, lo + e0) =~= rom_a.subrange(lo, lo + e0));
}

/// A level blob inside its window survives the table write below it.
proof fn lemma_level_blob_survives(
    rom_b: Seq<u8>,
    rom_c: Seq<u8>,
    na: usize,
    lv: LevelData,
    e0: int,
    lvl_lo: int,
    lvl_hi: int,
    tab_lo: int,
    tab_hi: int,
)
    requires
        level_blob_at(rom_b, na, e0, lv),
        lvl_lo <= pc_of(na as int),
        pc_of(na as int) + e0 <= lvl_hi,
        tab_hi <= lvl_lo,
        unchanged_outside(rom_c, rom_b, tab_lo, tab_hi),
    ensures
        level_blob_at(rom_c, na, e0, lv),
{
    reveal(unchanged_outside);
    reveal(level_blob_in);
    let lo = pc_of(na as int);
    assert(rom_c.subrange(lo, lo + e0) =~= rom_b.subrange(lo, lo + e0));
}

/// Two palettes with the same colors, sub-palette for sub-palette.
pub open spec fn palette_like(a: Palette, b: Palette) -> bool {
    a.sub_palettes@.len() == b.sub_palettes@.len() && forall|i: int|
        0 <= i < a.sub_palettes@.len() ==> (#[trigger] a.sub_palettes@[i]).colors@
            == b.sub_palettes@[i].colors@
}

/// The `e` bytes standing at flat offset `lo` form a whole compressed
/// stream that decodes back to exactly the palette's packed bytes.
#[verifier::opaque]
pub open spec fn palette_blob_in(rom: Seq<u8>, lo: int, e: int, p: Palette) -> bool {
    &&& 0 <= lo
    &&& 0 <= e
    &&& lo + e <= rom.len()
    &&& lz5_decode(rom.subrange(lo, lo + e), Seq::<u8>::empty()) matches Some(b) && b.len() == 256
        && (forall|j: int| 0 <= j < 256 ==> b[j] == palette_byte(p, j))
}

/// As `palette_blob_in`, at the flat offset the banked address `na`
/// denotes.
pub open spec fn palette_blob_at(rom: Seq<u8>, na: usize, e: int, p: Palette) -> bool {
    palette_blob_in(rom, pc_of(na as int), e, p)
}

/// Some run of bytes at `na` is the palette's compressed image.
pub open spec fn palette_saved(rom: Seq<u8>, na: usize, p: Palette) -> bool {
    exists|e: int| #[trigger] palette_blob_at(rom, na, e, p)
}

/// As `palette_saved`, with the blob wholly below `cursor`.
pub open spec fn palette_blob_below(rom: Seq<u8>, na: usize, p: Palette, cursor: int) -> bool {
    exists|e: int|
        {
            &&& #[trigger] palette_blob_at(rom, na, e, p)
            &&& pc_of(na as int) + e <= cursor
        }
}

/// `after` differs from `before` only inside `[lo, hi)`.
#[verifier::opaque]
pub open spec fn unchanged_outside(after: Seq<u8>, before: Seq<u8>, lo: int, hi: int) -> bool {
    after.len() == before.len() && forall|j: int|
        0 <= j < before.len() && !(lo <= j < hi) ==> #[trigger] after[j] == before[j]
}

/// A write inside a span changes nothing outside the span.
proof fn lemma_unchanged_outside_within(
    after: Seq<u8>,
    mid: Seq<u8>,
    before: Seq<u8>,
    a: int,
    b: int,
    lo: int,
    hi: int,
)
    requires
        unchanged_outside(after, mid, a, b),
        unchanged_outside(mid, before, lo, hi),
        lo <= a,
        b <= hi,
    ensures
        unchanged_outside(after, before, lo, hi),
{
    reveal(unchanged_outside);
}

/// Two writes into adjoining spans change nothing outside their union.
proof fn lemma_unchanged_outside_extend(
    after: Seq<u8>,
    mid: Seq<u8>,
    before: Seq<u8>,
    lo: int,
    cursor: int,
    hi: int,
)
    requires
        unchanged_outside(mid, before, lo, cursor),
        unchanged_outside(after, mid, cursor, hi),
        lo <= cursor <= hi,
    ensures
        unchanged_outside(after, before, lo, hi),
{
    reveal(unchanged_outside);
}

/// A write at or past `cursor` leaves the chained blobs below it
/// intact. `starts[k]` is where blob `k` begins.
proof fn lemma_palette_chain_preserved(
    rom_before: Seq<u8>,
    rom_after: Seq<u8>,
    starts: Seq<int>,
    old_entries: Seq<(usize, Palette)>,
    i: int,
    cursor: int,
    hi: int,
)
    requires
        unchanged_outside(rom_after, rom_before, cursor, hi),
        cursor <= hi,
        0 <= i <= starts.len(),
        i <= old_entries.len(),
        forall|k: int| 0 <= k < i ==> #[trigger] starts[k] < cursor,
        forall|k: int|
            0 <= k < i - 1 ==> palette_blob_in(
                rom_before,
                #[trigger] starts[k],
                starts[k + 1] - starts[k],
                old_entries[k].1,
            ),
        i > 0 ==> palette_blob_in(
            rom_before,
            starts[i - 1],
            cursor - starts[i - 1],
            old_entries[i - 1].1,
        ),
    ensures
        forall|k: int|
            0 <= k < i - 1 ==> palette_blob_in(
                rom_after,
                #[trigger] starts[k],
                starts[k + 1] - starts[k],
                old_entries[k].1,
            ),
        i > 0 ==> palette_blob_in(
            rom_after,
            starts[i - 1],
            cursor - starts[i - 1],
            old_entries[i - 1].1,
        ),
{
    reveal(palette_blob_in);
    reveal(unchanged_outside);
    assert forall|k: int| 0 <= k < i - 1 implies palette_blob_in(
        rom_after,
        #[trigger] starts[k],
        starts[k + 1] - starts[k],
        old_entries[k].1,
    ) by {
        let lo = starts[k];
        let e0 = starts[k + 1] - starts[k];
        assert(rom_after.subrange(lo, lo + e0) =~= rom_before.subrange(lo, lo + e0));
        assert(palette_blob_in(rom_after, lo, e0, old_entries[k].1));
    }
    if i > 0 {
        let lo = starts[i - 1];
        let e0 = cursor - lo;
        assert(rom_after.subrange(lo, lo + e0) =~= rom_before.subrange(lo, lo + e0));
        assert(palette_blob_in(rom_after, lo, e0, old_entries[i - 1].1));
    }
}

/// Compress one palette and write the blob at `cursor`, handing back
/// the blob's fresh banked address and its length. Fails, leaving the
/// image untouched, exactly when the blob cannot fit below the end of
/// the image; a 256-byte palette compresses to at most 769 bytes.
fn place_palette_blob(rom: &mut Vec<u8>, cursor: usize, palette: &Palette) -> (r: Result<
    (usize, usize),
    RomError,
>)
    requires
        palette.wf(),
        cursor <= 0x40_0000,
        old(rom)@.len() <= 0x40_0000,
    ensures
        match r {
            Result::Ok(placed) => {
                &&& 1 <= placed.1 <= 769
                &&& cursor + placed.1 <= final(rom)@.len()
                &&& final(rom)@.len() == old(rom)@.len()
                &&& pc_of(placed.0 as int) == cursor
                &&& 0x80_8000 <= placed.0 < 0x100_0000
                &&& placed.0 % 0x1_0000 >= 0x8000
                &&& palette_blob_in(final(rom)@, cursor as int, placed.1 as int, *palette)
                &&& unchanged_outside(final(rom)@, old(rom)@, cursor as int, cursor + placed.1)
            },
            Result::Err(e) => {
                &&& e == RomError::CapacityExceeded
                &&& final(rom)@ == old(rom)@
                &&& old(rom)@.len() < cursor + 769
            },
        },
{
    let packed = palette.to_bytes();
    let blob = crate::lz5_compress::compress(packed.as_slice());
    let number_of_bytes = blob.len();
    if cursor > rom.len() || rom.len() - cursor < number_of_bytes {
        return Err(RomError::CapacityExceeded);
    }
    proof {
        if blob@.len() == 0 {
            assert(blob@ =~= Seq::<u8>::empty());
        }
    }
    proof {
        assert(cursor < 0x40_0000);
    }
    write_bytes(rom, cursor, &blob);
    let new_address = LoRom::from(Pc { address: cursor }).address;
    proof {
        reveal(palette_blob_in);
        let e = number_of_bytes as int;
        assert(pc_of(new_address as int) == cursor);
        assert(rom@.subrange(cursor as int, cursor as int + e) =~= blob@);
        assert(palette_blob_in(rom@, cursor as int, e, *palette));
    }
    Ok((new_address, number_of_bytes))
}

/// A fresh deep copy of a palette, color for color.
fn copy_palette(p: &Palette) -> (r: Palette)
    ensures
        palette_like(r, *p),
{
    let own = p.sub_palettes.len();
    let mut sub_palettes: Vec<crate::palette::SubPalette> = Vec::new();
    let mut si: usize = 0;
    while si < own
        invariant
            si <= own,
            own == p.sub_palettes@.len(),
            sub_palettes@.len() == si,
            forall|k: int|
                0 <= k < si ==> (#[trigger] sub_palettes@[k]).colors@
                    == p.sub_palettes@[k].colors@,
        decreases own - si,
    {
        let src = &p.sub_palettes[si];
        let colors = vstd::slice::slice_to_vec(src.colors.as_slice());
        sub_palettes.push(crate::palette::SubPalette { colors });
        si += 1;
    }
    Palette { sub_palettes }
}

/// Relocate every palette of `entries` into the free-space region:
/// compress each in order, write the blobs gaplessly from the base, and
/// build the relocation table and the rekeyed map. Succeeds whenever
/// the region fits every blob at its proven worst case.
#[verifier::rlimit(100)]
fn relocate_palettes(rom: &mut Vec<u8>, entries: &Vec<(usize, Palette)>) -> (r: Result<
    (Vec<(usize, usize)>, AddressMap<Palette>),
    RomError,
>)
    requires
        old(rom)@.len() <= 0x40_0000,
        forall|i: int| 0 <= i < entries@.len() ==> (#[trigger] entries@[i]).1.wf(),
    ensures
        final(rom)@.len() == old(rom)@.len(),
        match r {
            Result::Ok(out) => {
                let remap = out.0;
                let new_palettes = out.1;
                &&& remap@.len() == entries@.len()
                &&& forall|i: int|
                    0 <= i < remap@.len() ==> (#[trigger] remap@[i]).0 == entries@[i].0
                &&& forall|i: int|
                    0 <= i < remap@.len() ==> 0x80_8000 <= (#[trigger] remap@[i]).1 < 0x100_0000
                        && remap@[i].1 % 0x1_0000 >= 0x8000
                &&& new_palettes.entries@.len() == entries@.len()
                &&& new_palettes.wf()
                &&& forall|i: int|
                    0 <= i < entries@.len() ==> (#[trigger] new_palettes.entries@[i]).0
                        == remap@[i].1 && palette_like(
                        new_palettes.entries@[i].1,
                        entries@[i].1,
                    )
                &&& forall|i: int|
                    0 <= i < entries@.len() ==> palette_saved(
                        final(rom)@,
                        (#[trigger] remap@[i]).1,
                        entries@[i].1,
                    )
                &&& forall|i: int|
                    0 <= i < entries@.len() ==> palette_blob_below(
                        final(rom)@,
                        (#[trigger] remap@[i]).1,
                        entries@[i].1,
                        pc_of(PALETTE_FREE_SPACE as int) + 769 * entries@.len(),
                    )
                &&& entries@.len() > 0 ==> pc_of(remap@[0].1 as int) == pc_of(
                    PALETTE_FREE_SPACE as int,
                )
                &&& forall|i: int|
                    0 <= i < remap@.len() ==> pc_of((#[trigger] remap@[i]).1 as int) >= pc_of(
                        PALETTE_FREE_SPACE as int,
                    )
                // The blobs are laid gaplessly: each one fills the span
                // up to the next new address.
                &&& forall|i: int|
                    0 <= i < entries@.len() - 1 ==> palette_blob_at(
                        final(rom)@,
                        (#[trigger] remap@[i]).1,
                        pc_of(remap@[i + 1].1 as int) - pc_of(remap@[i].1 as int),
                        entries@[i].1,
                    )
                &&& unchanged_outside(
                    final(rom)@,
                    old(rom)@,
                    pc_of(PALETTE_FREE_SPACE as int),
                    pc_of(PALETTE_FREE_SPACE as int) + 769 * entries@.len(),
                )
            },
            Result::Err(e) => e == RomError::CapacityExceeded,
        },
        old(rom)@.len() >= pc_of(PALETTE_FREE_SPACE as int) + 769 * entries@.len() ==> r is Ok,
{
    let n = entries.len();
    let mut remap: Vec<(usize, usize)> = Vec::new();
    let mut new_palettes: AddressMap<Palette> = AddressMap::new();
    let mut pc_to_write: usize = Pc::from(LoRom { address: PALETTE_FREE_SPACE }).address;
    let ghost mut starts: Seq<int> = Seq::empty();
    proof {
        reveal(unchanged_outside);
        assert(unchanged_outside(
            rom@,
            old(rom)@,
            pc_of(PALETTE_FREE_SPACE as int),
            pc_to_write as int,
        ));
    }
    let mut i: usize = 0;
    while i < n
        invariant
            i <= n,
            n == entries@.len(),
            rom@.len() == old(rom)@.len() <= 0x40_0000,
            forall|k: int| 0 <= k < n ==> (#[trigger] entries@[k]).1.wf(),
            pc_to_write <= rom@.len() || i == 0,
            pc_to_write <= 0x40_0000,
            pc_to_write <= pc_of(PALETTE_FREE_SPACE as int) + 769 * i,
            pc_of(PALETTE_FREE_SPACE as int) <= pc_to_write,
            remap@.len() == i,
            forall|k: int| 0 <= k < i ==> (#[trigger] remap@[k]).0 == entries@[k].0,
            forall|k: int|
                0 <= k < i ==> pc_of(PALETTE_FREE_SPACE as int) <= pc_of(
                    (#[trigger] remap@[k]).1 as int,
                ) < pc_to_write,
            i > 0 ==> pc_of(remap@[0].1 as int) == pc_of(PALETTE_FREE_SPACE as int),
            starts.len() == i,
            forall|k: int| 0 <= k < i ==> #[trigger] starts[k] == pc_of(remap@[k].1 as int),
            forall|k: int|
                0 <= k < i - 1 ==> palette_blob_in(
                    rom@,
                    #[trigger] starts[k],
                    starts[k + 1] - starts[k],
                    entries@[k].1,
                ),
            i > 0 ==> palette_blob_in(
                rom@,
                starts[i - 1],
                pc_to_write - starts[i - 1],
                entries@[i - 1].1,
            ),
            unchanged_outside(
                rom@,
                old(rom)@,
                pc_of(PALETTE_FREE_SPACE as int),
                pc_to_write as int,
            ),
            forall|k: int| 0 <= k < i ==> 0x80_8000 <= (#[trigger] remap@[k]).1 < 0x100_0000 && remap@[k].1 % 0x1_0000
                >= 0x8000,
            new_palettes.entries@.len() == i,
            new_palettes.wf(),
            forall|k: int|
                0 <= k < i ==> (#[trigger] new_palettes.entries@[k]).0 == remap@[k].1
                    && palette_like(new_palettes.entries@[k].1, entries@[k].1),
        decreases n - i,
    {
        let pal_address = entries[i].0;
        let palette = &entries[i].1;
        let ghost rom_before = rom@;
        let placed = match place_palette_blob(rom, pc_to_write, palette) {
            Result::Ok(placed) => placed,
            Result::Err(e) => {
                proof {
                    assert(rom@.len() < pc_of(PALETTE_FREE_SPACE as int) + 769 * n);
                }
                return Err(e);
            },
        };
        let (new_address, number_of_bytes) = placed;
        proof {
            lemma_unchanged_outside_extend(
                rom@,
                rom_before,
                old(rom)@,
                pc_of(PALETTE_FREE_SPACE as int),
                pc_to_write as int,
                pc_to_write as int + number_of_bytes as int,
            );
            // Earlier blobs lie wholly below the cursor and kept their
            // bytes.
            lemma_palette_chain_preserved(
                rom_before,
                rom@,
                starts,
                entries@,
                i as int,
                pc_to_write as int,
                pc_to_write as int + number_of_bytes as int,
            );
            // The fresh key is new: every existing key sits below the
            // cursor.
            crate::address_map::lemma_entries_contain_iff_index(
                new_palettes.entries@,
                new_address,
            );
        }
        remap.push((pal_address, new_address));
        let fresh = copy_palette(palette);
        new_palettes.insert(new_address, fresh);
        proof {
            starts = starts.push(pc_to_write as int);
        }
        pc_to_write = pc_to_write + number_of_bytes;
        i += 1;
    }
    proof {
        assert forall|k: int| 0 <= k < n implies palette_saved(
            rom@,
            (#[trigger] remap@[k]).1,
            entries@[k].1,
        ) && palette_blob_below(
            rom@,
            remap@[k].1,
            entries@[k].1,
            pc_of(PALETTE_FREE_SPACE as int) + 769 * n,
        ) by {
            assert(starts[k] == pc_of(remap@[k].1 as int));
            if k < n - 1 {
                assert(starts[k + 1] == pc_of(remap@[k + 1].1 as int));
                assert(palette_blob_in(rom@, starts[k], starts[k + 1] - starts[k], entries@[k].1));
                assert(palette_blob_at(
                    rom@,
                    remap@[k].1,
                    starts[k + 1] - starts[k],
                    entries@[k].1,
                ));
            } else {
                assert(palette_blob_in(
                    rom@,
                    starts[k],
                    pc_to_write as int - starts[k],
                    entries@[k].1,
                ));
                assert(palette_blob_at(
                    rom@,
                    remap@[k].1,
                    pc_to_write as int - starts[k],
                    entries@[k].1,
                ));
            }
        }
        assert forall|k: int| 0 <= k < n - 1 implies palette_blob_at(
            rom@,
            (#[trigger] remap@[k]).1,
            pc_of(remap@[k + 1].1 as int) - pc_of(remap@[k].1 as int),
            entries@[k].1,
        ) by {
            assert(starts[k] == pc_of(remap@[k].1 as int));
            assert(starts[k + 1] == pc_of(remap@[k + 1].1 as int));
            assert(palette_blob_in(rom@, starts[k], starts[k + 1] - starts[k], entries@[k].1));
        }
    }
    Ok((remap, new_palettes))
}

impl SuperMetroid {
    /// Recompress every palette, append the blobs into the palette
    /// free-space region, rekey the palette map by the fresh banked
    /// addresses, and rewrite every tileset's palette pointer. Returns
    /// the relocation table from old to new address, in map order.
    /// Fails only when the free space runs past the end of the image,
    /// leaving the image partially written.
    #[verifier::rlimit(100)]
    pub fn save_palettes_to_rom(&mut self) -> (r: Result<Vec<(usize, usize)>, RomError>)
        requires
            old(self).palettes.wf(),
            old(self).rom@.len() <= 0x40_0000,
            forall|i: int|
                0 <= i < old(self).palettes.entries@.len() ==> (#[trigger] old(self).palettes.entries@[i]).1.wf(),
            forall|i: int|
                0 <= i < old(self).tilesets@.len() ==> old(self).palettes.contains(
                    (#[trigger] old(self).tilesets@[i]).palette as usize,
                ),
        ensures
            match r {
                Result::Ok(remap) => {
                    let old_entries = old(self).palettes.entries@;
                    &&& remap@.len() == old_entries.len()
                    &&& forall|i: int|
                        0 <= i < remap@.len() ==> (#[trigger] remap@[i]).0 == old_entries[i].0
                    &&& final(self).palettes.entries@.len() == old_entries.len()
                    &&& forall|i: int|
                        0 <= i < old_entries.len() ==> (#[trigger] final(self).palettes.entries@[i]).0 == remap@[i].1 && palette_like(
                            final(self).palettes.entries@[i].1,
                            old_entries[i].1,
                        )
                    &&& final(self).palettes.wf()
                    &&& final(self).tilesets@.len() == old(self).tilesets@.len()
                    &&& forall|i: int|
                        0 <= i < old(self).tilesets@.len() ==> {
                            let t0 = old(self).tilesets@[i];
                            let t1 = #[trigger] final(self).tilesets@[i];
                            &&& t1.graphic == t0.graphic
                            &&& t1.tile_table == t0.tile_table
                            &&& t1.use_cre == t0.use_cre
                            &&& crate::address_map::entries_get(remap@, t0.palette as usize)
                                == Some(t1.palette as usize)
                        }
                    &&& final(self).rom@.len() == old(self).rom@.len()
                    &&& forall|i: int|
                        0 <= i < old_entries.len() ==> palette_saved(
                            final(self).rom@,
                            (#[trigger] remap@[i]).1,
                            old_entries[i].1,
                        )
                    // Every blob lies inside the palette free-space
                    // window.
                    &&& forall|i: int|
                        0 <= i < old_entries.len() ==> palette_blob_below(
                            final(self).rom@,
                            (#[trigger] remap@[i]).1,
                            old_entries[i].1,
                            pc_of(PALETTE_FREE_SPACE as int) + 769 * old_entries.len(),
                        )
                    // Fresh addresses lie in the mirrored banked
                    // region.
                    &&& forall|i: int|
                        0 <= i < remap@.len() ==> 0x80_8000 <= (#[trigger] remap@[i]).1
                            < 0x100_0000 && remap@[i].1 % 0x1_0000 >= 0x8000
                    // The blobs are laid gaplessly from the free-space
                    // base: each one fills the span up to the next new
                    // address.
                    &&& forall|i: int|
                        0 <= i < old_entries.len() - 1 ==> palette_blob_at(
                            final(self).rom@,
                            (#[trigger] remap@[i]).1,
                            pc_of(remap@[i + 1].1 as int) - pc_of(remap@[i].1 as int),
                            old_entries[i].1,
                        )
                    // The first blob is laid at the free-space base;
                    // every blob starts at or above it.
                    &&& old_entries.len() > 0 ==> pc_of(remap@[0].1 as int) == pc_of(
                        PALETTE_FREE_SPACE as int,
                    )
                    &&& forall|i: int|
                        0 <= i < remap@.len() ==> pc_of((#[trigger] remap@[i]).1 as int) >= pc_of(
                            PALETTE_FREE_SPACE as int,
                        )
                    // Bytes outside the free-space region are
                    // untouched.
                    &&& unchanged_outside(
                        final(self).rom@,
                        old(self).rom@,
                        pc_of(PALETTE_FREE_SPACE as int),
                        pc_of(PALETTE_FREE_SPACE as int) + 769 * old_entries.len(),
                    )
                    &&& final(self).levels == old(self).levels
                    &&& final(self).states == old(self).states
                    &&& final(self).rooms == old(self).rooms
                    &&& final(self).graphics == old(self).graphics
                    &&& final(self).tile_tables == old(self).tile_tables
                    &&& final(self).cre_gfx == old(self).cre_gfx
                    &&& final(self).cre_tileset == old(self).cre_tileset
                    &&& final(self).doors == old(self).doors
                    &&& final(self).door_lists == old(self).door_lists
                    &&& final(self).save_stations == old(self).save_stations
                    &&& final(self).tileset_table_address == old(self).tileset_table_address
                },
                Result::Err(e) => e == RomError::CapacityExceeded,
            },
            // Success is owed whenever the free region can hold every
            // blob at the compressor's proven worst case (769 bytes for
            // a 256-byte palette).
            old(self).rom@.len() >= pc_of(PALETTE_FREE_SPACE as int) + 769 * old(self).palettes.entries@.len() ==> r is Ok,
    {
        let ghost old_entries = self.palettes.entries@;
        let (remap, new_palettes) = match relocate_palettes(&mut self.rom, &self.palettes.entries)
        {
            Result::Ok(out) => out,
            Result::Err(e) => {
                return Err(e);
            },
        };
        self.palettes = new_palettes;
        // Rewrite every tileset's palette pointer through the
        // relocation table.
        let tn = self.tilesets.len();
        let mut ti: usize = 0;
        while ti < tn
            invariant
                ti <= tn,
                tn == old(self).tilesets@.len(),
                self.tilesets@.len() == tn,
                self.rom@.len() == old(self).rom@.len(),
                self.palettes.wf(),
                self.palettes.entries@.len() == old_entries.len(),
                forall|k: int|
                    0 <= k < old_entries.len() ==> (#[trigger] self.palettes.entries@[k]).0
                        == remap@[k].1 && palette_like(
                        self.palettes.entries@[k].1,
                        old_entries[k].1,
                    ),
                forall|k: int|
                    0 <= k < old_entries.len() ==> palette_saved(
                        self.rom@,
                        (#[trigger] remap@[k]).1,
                        old_entries[k].1,
                    ),
                forall|k: int|
                    0 <= k < old_entries.len() ==> palette_blob_below(
                        self.rom@,
                        (#[trigger] remap@[k]).1,
                        old_entries[k].1,
                        pc_of(PALETTE_FREE_SPACE as int) + 769 * old_entries.len(),
                    ),
                forall|k: int|
                    0 <= k < old_entries.len() - 1 ==> palette_blob_at(
                        self.rom@,
                        (#[trigger] remap@[k]).1,
                        pc_of(remap@[k + 1].1 as int) - pc_of(remap@[k].1 as int),
                        old_entries[k].1,
                    ),
                self.levels == old(self).levels,
                self.states == old(self).states,
                self.rooms == old(self).rooms,
                self.graphics == old(self).graphics,
                self.tile_tables == old(self).tile_tables,
                self.cre_gfx == old(self).cre_gfx,
                self.cre_tileset == old(self).cre_tileset,
                remap@.len() == old_entries.len(),
                forall|k: int| 0 <= k < remap@.len() ==> (#[trigger] remap@[k]).0
                    == old_entries[k].0,
                forall|k: int|
                    0 <= k < tn ==> old(self).palettes.contains(
                        (#[trigger] old(self).tilesets@[k]).palette as usize,
                    ),
                old(self).palettes.entries@ == old_entries,
                forall|k: int| ti <= k < tn ==> #[trigger] self.tilesets@[k] == old(self).tilesets@[k],
                forall|k: int|
                    0 <= k < ti ==> {
                        let t0 = old(self).tilesets@[k];
                        let t1 = #[trigger] self.tilesets@[k];
                        &&& t1.graphic == t0.graphic
                        &&& t1.tile_table == t0.tile_table
                        &&& t1.use_cre == t0.use_cre
                        &&& crate::address_map::entries_get(remap@, t0.palette as usize) == Some(
                            t1.palette as usize,
                        )
                    },
                forall|k: int|
                    0 <= k < remap@.len() ==> 0x80_8000 <= (#[trigger] remap@[k]).1 < 0x100_0000 && remap@[k].1 % 0x1_0000
                        >= 0x8000,
                old_entries.len() > 0 ==> pc_of(remap@[0].1 as int) == pc_of(
                    PALETTE_FREE_SPACE as int,
                ),
                forall|k: int|
                    0 <= k < remap@.len() ==> pc_of((#[trigger] remap@[k]).1 as int) >= pc_of(
                        PALETTE_FREE_SPACE as int,
                    ),
                unchanged_outside(
                    self.rom@,
                    old(self).rom@,
                    pc_of(PALETTE_FREE_SPACE as int),
                    pc_of(PALETTE_FREE_SPACE as int) + 769 * old_entries.len(),
                ),
                self.doors == old(self).doors,
                self.door_lists == old(self).door_lists,
                self.save_stations == old(self).save_stations,
                self.tileset_table_address == old(self).tileset_table_address,
            decreases tn - ti,
        {
            let t = self.tilesets[ti];
            proof {
                crate::address_map::lemma_entries_contain_iff_index(
                    old_entries,
                    t.palette as usize,
                );
                let w = choose|w: int|
                    0 <= w < old_entries.len() && (#[trigger] old_entries[w]).0 == t.palette
                        as usize;
                crate::address_map::lemma_entries_contain_iff_index(remap@, t.palette as usize);
                assert(remap@[w].0 == t.palette as usize);
            }
            let na = match remap_get(&remap, t.palette as usize) {
                Option::Some(na) => na,
                Option::None => {
                    proof {
                        assert(false);
                    }
                    unreached()
                },
            };
            proof {
                lemma_remap_values_bounded(remap@, t.palette as usize);
            }
            self.tilesets[ti] = Tileset {
                palette: na as u32,
                graphic: t.graphic,
                tile_table: t.tile_table,
                use_cre: t.use_cre,
            };
            ti += 1;
        }
        Ok(remap)
    }
}

/// Two levels with the same blocks, metadata and second layer.
pub open spec fn level_like(a: LevelData, b: LevelData) -> bool {
    &&& a.layer1@ == b.layer1@
    &&& a.bts@ == b.bts@
    &&& match (a.layer2, b.layer2) {
        (Option::Some(x), Option::Some(y)) => x@ == y@,
        (Option::None, Option::None) => true,
        _ => false,
    }
}

/// `b` is the packed form of the level `lv`, as `LevelData::to_bytes`
/// writes it.
pub open spec fn is_encoded_level(b: Seq<u8>, lv: LevelData) -> bool {
    let n = lv.layer1@.len() as int;
    let l2n = match lv.layer2 {
        Option::Some(l2) => l2@.len() as int,
        Option::None => 0int,
    };
    &&& b.len() == 2 + 3 * n + 2 * l2n
    &&& le16_at(b, 0) == 2 * n
    &&& forall|i: int|
        0 <= i < n ==> le16_at(b, 2 + 2 * i) == crate::level_data::block_word(
            #[trigger] lv.layer1@[i],
        )
    &&& b.subrange(2 + 2 * n, 2 + 3 * n) == lv.bts@
    &&& match lv.layer2 {
        Option::Some(l2) => forall|i: int|
            0 <= i < l2n ==> le16_at(b, 2 + 3 * n + 2 * i) == crate::level_data::block_word(
                #[trigger] l2@[i],
            ),
        Option::None => true,
    }
}

/// The `e` bytes standing at flat offset `lo` form a whole compressed
/// stream that decodes back to the level's packed form.
#[verifier::opaque]
pub open spec fn level_blob_in(rom: Seq<u8>, lo: int, e: int, lv: LevelData) -> bool {
    &&& 0 <= lo
    &&& 0 <= e
    &&& lo + e <= rom.len()
    &&& lz5_decode(rom.subrange(lo, lo + e), Seq::<u8>::empty()) matches Some(b)
        && is_encoded_level(b, lv)
}

/// As `level_blob_in`, at the flat offset the banked address `na`
/// denotes.
pub open spec fn level_blob_at(rom: Seq<u8>, na: usize, e: int, lv: LevelData) -> bool {
    level_blob_in(rom, pc_of(na as int), e, lv)
}

/// A write at or past `cursor` leaves the chained level blobs below it
/// intact. `starts[k]` is where blob `k` begins.
proof fn lemma_level_chain_preserved(
    rom_before: Seq<u8>,
    rom_after: Seq<u8>,
    starts: Seq<int>,
    old_entries: Seq<(usize, LevelData)>,
    i: int,
    cursor: int,
    hi: int,
)
    requires
        unchanged_outside(rom_after, rom_before, cursor, hi),
        cursor <= hi,
        0 <= i <= starts.len(),
        i <= old_entries.len(),
        forall|k: int| 0 <= k < i ==> #[trigger] starts[k] < cursor,
        forall|k: int|
            0 <= k < i - 1 ==> level_blob_in(
                rom_before,
                #[trigger] starts[k],
                starts[k + 1] - starts[k],
                old_entries[k].1,
            ),
        i > 0 ==> level_blob_in(
            rom_before,
            starts[i - 1],
            cursor - starts[i - 1],
            old_entries[i - 1].1,
        ),
    ensures
        forall|k: int|
            0 <= k < i - 1 ==> level_blob_in(
                rom_after,
                #[trigger] starts[k],
                starts[k + 1] - starts[k],
                old_entries[k].1,
            ),
        i > 0 ==> level_blob_in(
            rom_after,
            starts[i - 1],
            cursor - starts[i - 1],
            old_entries[i - 1].1,
        ),
{
    reveal(level_blob_in);
    reveal(unchanged_outside);
    assert forall|k: int| 0 <= k < i - 1 implies level_blob_in(
        rom_after,
        #[trigger] starts[k],
        starts[k + 1] - starts[k],
        old_entries[k].1,
    ) by {
        let lo = starts[k];
        let e0 = starts[k + 1] - starts[k];
        assert(rom_after.subrange(lo, lo + e0) =~= rom_before.subrange(lo, lo + e0));
        assert(level_blob_in(rom_after, lo, e0, old_entries[k].1));
    }
    if i > 0 {
        let lo = starts[i - 1];
        let e0 = cursor - lo;
        assert(rom_after.subrange(lo, lo + e0) =~= rom_before.subrange(lo, lo + e0));
        assert(level_blob_in(rom_after, lo, e0, old_entries[i - 1].1));
    }
}

/// Some run of bytes at `na` is the level's compressed image.
pub open spec fn level_saved(rom: Seq<u8>, na: usize, lv: LevelData) -> bool {
    exists|e: int| #[trigger] level_blob_at(rom, na, e, lv)
}

/// As `level_saved`, with the blob inside `[base, cursor)`.
pub open spec fn level_blob_between(
    rom: Seq<u8>,
    na: usize,
    lv: LevelData,
    base: int,
    cursor: int,
) -> bool {
    exists|e: int|
        {
            &&& #[trigger] level_blob_at(rom, na, e, lv)
            &&& base <= pc_of(na as int)
            &&& pc_of(na as int) + e <= cursor
        }
}

/// A write wholly below `lo` leaves the chained level blobs at or
/// above `lo` intact.
proof fn lemma_level_chain_above_preserved(
    rom_before: Seq<u8>,
    rom_after: Seq<u8>,
    starts: Seq<int>,
    old_entries: Seq<(usize, LevelData)>,
    n: int,
    lo: int,
    cursor: int,
    wa: int,
    wb: int,
)
    requires
        unchanged_outside(rom_after, rom_before, wa, wb),
        wb <= lo,
        0 <= n <= starts.len(),
        n <= old_entries.len(),
        forall|k: int| 0 <= k < n ==> lo <= #[trigger] starts[k] < cursor,
        forall|k: int|
            0 <= k < n - 1 ==> level_blob_in(
                rom_before,
                #[trigger] starts[k],
                starts[k + 1] - starts[k],
                old_entries[k].1,
            ),
        n > 0 ==> level_blob_in(
            rom_before,
            starts[n - 1],
            cursor - starts[n - 1],
            old_entries[n - 1].1,
        ),
    ensures
        forall|k: int|
            0 <= k < n - 1 ==> level_blob_in(
                rom_after,
                #[trigger] starts[k],
                starts[k + 1] - starts[k],
                old_entries[k].1,
            ),
        n > 0 ==> level_blob_in(
            rom_after,
            starts[n - 1],
            cursor - starts[n - 1],
            old_entries[n - 1].1,
        ),
{
    reveal(level_blob_in);
    reveal(unchanged_outside);
    assert forall|k: int| 0 <= k < n - 1 implies level_blob_in(
        rom_after,
        #[trigger] starts[k],
        starts[k + 1] - starts[k],
        old_entries[k].1,
    ) by {
        let p = starts[k];
        let e0 = starts[k + 1] - starts[k];
        assert(rom_after.subrange(p, p + e0) =~= rom_before.subrange(p, p + e0));
        assert(level_blob_in(rom_after, p, e0, old_entries[k].1));
    }
    if n > 0 {
        let p = starts[n - 1];
        let e0 = cursor - p;
        assert(rom_after.subrange(p, p + e0) =~= rom_before.subrange(p, p + e0));
        assert(level_blob_in(rom_after, p, e0, old_entries[n - 1].1));
    }
}

/// Bytes a level packs to.
pub open spec fn level_packed_len(lv: LevelData) -> int {
    2 + 3 * lv.layer1@.len() + 2 * (match lv.layer2 {
        Option::Some(l2) => l2@.len() as int,
        Option::None => 0int,
    })
}

/// Worst-case bytes the level relocation pass writes: the compressor's
/// proven threefold bound plus a terminator, per entry.
pub open spec fn level_save_bound(entries: Seq<(usize, LevelData)>) -> int
    decreases entries.len(),
{
    if entries.len() == 0 {
        0
    } else {
        3 * level_packed_len(entries[0].1) + 1 + level_save_bound(entries.drop_first())
    }
}

/// The bound is never negative.
proof fn lemma_level_save_bound_nonneg(entries: Seq<(usize, LevelData)>)
    ensures
        level_save_bound(entries) >= 0,
    decreases entries.len(),
{
    if entries.len() > 0 {
        lemma_level_save_bound_nonneg(entries.drop_first());
    }
}

/// Peel one entry off the bound of a suffix.
proof fn lemma_level_save_bound_skip(entries: Seq<(usize, LevelData)>, i: int)
    requires
        0 <= i < entries.len(),
    ensures
        level_save_bound(entries.skip(i)) == 3 * level_packed_len(entries[i].1) + 1
            + level_save_bound(entries.skip(i + 1)),
{
    assert(entries.skip(i)[0] == entries[i]);
    assert(entries.skip(i).drop_first() =~= entries.skip(i + 1));
}

/// Whether flat offset `j` lies in some room's rewritten image.
pub open spec fn in_room_region(rooms: Seq<(usize, Room)>, j: int) -> bool {
    exists|k: int|
        0 <= k < rooms.len() && pc_of((#[trigger] rooms[k]).0 as int) <= j < pc_of(
            rooms[k].0 as int,
        ) + room_image(rooms[k].1).len()
}

/// The bytes a room writes back in place.
pub open spec fn room_image(room: Room) -> Seq<u8> {
    crate::room::room_header_bytes(room) + crate::room::chain_bytes(room.state_conditions@)
}

/// A fresh deep copy of a level.
fn copy_level(lv: &LevelData) -> (r: LevelData)
    ensures
        level_like(r, *lv),
{
    let layer1 = vstd::slice::slice_to_vec(lv.layer1.as_slice());
    let bts = vstd::slice::slice_to_vec(lv.bts.as_slice());
    let layer2 = match &lv.layer2 {
        Option::Some(l2) => Some(vstd::slice::slice_to_vec(l2.as_slice())),
        Option::None => None,
    };
    LevelData { layer1, bts, layer2 }
}

impl SuperMetroid {
    /// Recompress every level, append the blobs into the level
    /// free-space region, rekey the level map, rewrite every state's
    /// level pointer, and rewrite every room header in place. Returns
    /// the relocation table from old to new level address, in map
    /// order. Fails only when a write runs past the end of the image,
    /// leaving it partially written.
    #[verifier::rlimit(100)]
    pub fn save_level_data_to_rom(&mut self) -> (r: Result<Vec<(usize, usize)>, RomError>)
        requires
            old(self).levels.wf(),
            old(self).rom@.len() <= 0x40_0000,
            forall|i: int|
                0 <= i < old(self).levels.entries@.len() ==> (#[trigger] old(self).levels.entries@[i]).1.wf() && old(self).levels.entries@[i].1.layer1@.len() * 2
                    <= u16::MAX,
            forall|i: int|
                0 <= i < old(self).states.entries@.len() ==> old(self).levels.contains(
                    (#[trigger] old(self).states.entries@[i]).1.level_address as usize,
                ),
            // Rooms are rewritten in place, wholly below the level
            // free space and without overlapping one another.
            forall|i: int|
                0 <= i < old(self).rooms.entries@.len() ==> pc_of(
                    (#[trigger] old(self).rooms.entries@[i]).0 as int,
                ) + room_image(old(self).rooms.entries@[i].1).len() <= pc_of(
                    LEVEL_FREE_SPACE as int,
                ),
            forall|i: int, j: int|
                0 <= i < j < old(self).rooms.entries@.len() ==> pc_of(
                    (#[trigger] old(self).rooms.entries@[i]).0 as int,
                ) + room_image(old(self).rooms.entries@[i].1).len() <= pc_of(
                    (#[trigger] old(self).rooms.entries@[j]).0 as int,
                ) || pc_of(old(self).rooms.entries@[j].0 as int) + room_image(
                    old(self).rooms.entries@[j].1,
                ).len() <= pc_of(old(self).rooms.entries@[i].0 as int),
        ensures
            match r {
                Result::Ok(remap) => {
                    let old_levels = old(self).levels.entries@;
                    let old_states = old(self).states.entries@;
                    let old_rooms = old(self).rooms.entries@;
                    &&& remap@.len() == old_levels.len()
                    &&& forall|i: int|
                        0 <= i < remap@.len() ==> (#[trigger] remap@[i]).0 == old_levels[i].0
                    &&& final(self).levels.entries@.len() == old_levels.len()
                    &&& forall|i: int|
                        0 <= i < old_levels.len() ==> (#[trigger] final(self).levels.entries@[i]).0 == remap@[i].1 && level_like(
                            final(self).levels.entries@[i].1,
                            old_levels[i].1,
                        )
                    &&& final(self).levels.wf()
                    &&& final(self).states.entries@.len() == old_states.len()
                    &&& forall|i: int|
                        0 <= i < old_states.len() ==> {
                            let s0 = (#[trigger] old_states[i]).1;
                            let s1 = final(self).states.entries@[i].1;
                            &&& final(self).states.entries@[i].0 == old_states[i].0
                            &&& crate::address_map::entries_get(remap@, s0.level_address as usize)
                                == Some(s1.level_address as usize)
                            &&& s1.tileset == s0.tileset
                            &&& s1.music_data_index == s0.music_data_index
                            &&& s1.music_track == s0.music_track
                            &&& s1.fx == s0.fx
                            &&& s1.enemy_population == s0.enemy_population
                            &&& s1.enemy_set == s0.enemy_set
                            &&& s1.layer_2_x_scroll == s0.layer_2_x_scroll
                            &&& s1.layer_2_y_scroll == s0.layer_2_y_scroll
                            &&& s1.scroll == s0.scroll
                            &&& s1.special_x_ray_blocks == s0.special_x_ray_blocks
                            &&& s1.main_asm == s0.main_asm
                            &&& s1.plm_population == s0.plm_population
                            &&& s1.library_background == s0.library_background
                            &&& s1.setup_asm == s0.setup_asm
                        }
                    &&& final(self).states.wf() == old(self).states.wf()
                    &&& final(self).rom@.len() == old(self).rom@.len()
                    &&& forall|i: int|
                        0 <= i < old_levels.len() ==> level_saved(
                            final(self).rom@,
                            (#[trigger] remap@[i]).1,
                            old_levels[i].1,
                        )
                    // The blobs are laid gaplessly from the free-space
                    // base: each one fills the span up to the next new
                    // address.
                    &&& forall|i: int|
                        0 <= i < old_levels.len() - 1 ==> level_blob_at(
                            final(self).rom@,
                            (#[trigger] remap@[i]).1,
                            pc_of(remap@[i + 1].1 as int) - pc_of(remap@[i].1 as int),
                            old_levels[i].1,
                        )
                    // Every blob lies inside the level free-space
                    // window.
                    &&& forall|i: int|
                        0 <= i < old_levels.len() ==> level_blob_between(
                            final(self).rom@,
                            (#[trigger] remap@[i]).1,
                            old_levels[i].1,
                            pc_of(LEVEL_FREE_SPACE as int),
                            pc_of(LEVEL_FREE_SPACE as int) + level_save_bound(old_levels),
                        )
                    // Bytes outside the level window and the room
                    // images are untouched.
                    &&& forall|j: int|
                        0 <= j < old(self).rom@.len() && !(pc_of(LEVEL_FREE_SPACE as int) <= j
                            < pc_of(LEVEL_FREE_SPACE as int) + level_save_bound(old_levels))
                            && !in_room_region(old(self).rooms.entries@, j)
                            ==> #[trigger] final(self).rom@[j] == old(self).rom@[j]
                    // Fresh addresses lie in the mirrored banked
                    // region; the first blob is laid at the free-space
                    // base.
                    &&& forall|i: int|
                        0 <= i < remap@.len() ==> 0x80_8000 <= (#[trigger] remap@[i]).1
                            < 0x100_0000 && remap@[i].1 % 0x1_0000 >= 0x8000
                    &&& old_levels.len() > 0 ==> pc_of(remap@[0].1 as int) == pc_of(
                        LEVEL_FREE_SPACE as int,
                    )
                    &&& final(self).rooms == old(self).rooms
                    &&& forall|i: int|
                        0 <= i < old_rooms.len() ==> final(self).rom@.subrange(
                            pc_of((#[trigger] old_rooms[i]).0 as int),
                            pc_of(old_rooms[i].0 as int) + room_image(old_rooms[i].1).len() as int,
                        ) == room_image(old_rooms[i].1)
                    &&& final(self).palettes == old(self).palettes
                    &&& final(self).tilesets == old(self).tilesets
                    &&& final(self).graphics == old(self).graphics
                    &&& final(self).tile_tables == old(self).tile_tables
                    &&& final(self).cre_gfx == old(self).cre_gfx
                    &&& final(self).cre_tileset == old(self).cre_tileset
                    &&& final(self).doors == old(self).doors
                    &&& final(self).door_lists == old(self).door_lists
                    &&& final(self).save_stations == old(self).save_stations
                    &&& final(self).tileset_table_address == old(self).tileset_table_address
                },
                Result::Err(e) => e == RomError::CapacityExceeded,
            },
            // Success is owed whenever the free region can hold every
            // level blob at the compressor's proven worst case.
            old(self).rom@.len() >= pc_of(LEVEL_FREE_SPACE as int) + level_save_bound(
                old(self).levels.entries@,
            ) ==> r is Ok,
    {
        let ghost old_levels = self.levels.entries@;
        let lvl_base = Pc::from(LoRom { address: LEVEL_FREE_SPACE }).address;
        let ghost mut lvl_starts: Seq<int> = Seq::empty();
        proof {
            assert(old_levels.skip(0) =~= old_levels);
            reveal(unchanged_outside);
            assert(unchanged_outside(
                self.rom@,
                old(self).rom@,
                pc_of(LEVEL_FREE_SPACE as int),
                lvl_base as int,
            ));
        }
        let n = self.levels.len();
        let mut remap: Vec<(usize, usize)> = Vec::new();
        let mut new_levels: AddressMap<LevelData> = AddressMap::new();
        let mut pc_to_write: usize = lvl_base;
        let mut i: usize = 0;
        while i < n
            invariant
                i <= n,
                n == old_levels.len(),
                old_levels == old(self).levels.entries@,
                self.levels.entries@ == old_levels,
                self.rom@.len() == old(self).rom@.len() <= 0x40_0000,
                forall|k: int|
                    0 <= k < n ==> (#[trigger] old_levels[k]).1.wf()
                        && old_levels[k].1.layer1@.len() * 2 <= u16::MAX,
                lvl_base == pc_of(LEVEL_FREE_SPACE as int),
                lvl_base <= pc_to_write,
                pc_to_write <= self.rom@.len() || i == 0,
                pc_to_write <= 0x40_0000,
                pc_to_write + level_save_bound(old_levels.skip(i as int)) <= lvl_base
                    + level_save_bound(old_levels),
                remap@.len() == i,
                forall|k: int| 0 <= k < i ==> (#[trigger] remap@[k]).0 == old_levels[k].0,
                forall|k: int| 0 <= k < i ==> pc_of((#[trigger] remap@[k]).1 as int)
                    < pc_to_write,
                forall|k: int|
                    0 <= k < i ==> 0x80_8000 <= (#[trigger] remap@[k]).1 < 0x100_0000 && remap@[k].1
                        % 0x1_0000 >= 0x8000,
                i == 0 ==> pc_to_write == pc_of(LEVEL_FREE_SPACE as int),
                i > 0 ==> pc_of(remap@[0].1 as int) == pc_of(LEVEL_FREE_SPACE as int),
                new_levels.entries@.len() == i,
                new_levels.wf(),
                forall|k: int|
                    0 <= k < i ==> (#[trigger] new_levels.entries@[k]).0 == remap@[k].1
                        && level_like(new_levels.entries@[k].1, old_levels[k].1),
                forall|k: int|
                    0 <= k < i ==> level_blob_between(
                        self.rom@,
                        (#[trigger] remap@[k]).1,
                        old_levels[k].1,
                        lvl_base as int,
                        pc_to_write as int,
                    ),
                lvl_starts.len() == i,
                forall|k: int|
                    0 <= k < i ==> #[trigger] lvl_starts[k] == pc_of(remap@[k].1 as int),
                forall|k: int| 0 <= k < i ==> lvl_base <= #[trigger] lvl_starts[k] < pc_to_write,
                forall|k: int|
                    0 <= k < i - 1 ==> level_blob_in(
                        self.rom@,
                        #[trigger] lvl_starts[k],
                        lvl_starts[k + 1] - lvl_starts[k],
                        old_levels[k].1,
                    ),
                i > 0 ==> level_blob_in(
                    self.rom@,
                    lvl_starts[i - 1],
                    pc_to_write - lvl_starts[i - 1],
                    old_levels[i - 1].1,
                ),
                unchanged_outside(self.rom@, old(self).rom@, lvl_base as int, pc_to_write as int),
                self.palettes == old(self).palettes,
                self.states == old(self).states,
                self.rooms == old(self).rooms,
                self.graphics == old(self).graphics,
                self.tile_tables == old(self).tile_tables,
                self.cre_gfx == old(self).cre_gfx,
                self.cre_tileset == old(self).cre_tileset,
                self.tilesets == old(self).tilesets,
                self.doors == old(self).doors,
                self.door_lists == old(self).door_lists,
                self.save_stations == old(self).save_stations,
                self.tileset_table_address == old(self).tileset_table_address,
            decreases n - i,
        {
            let (level_address, level) = self.levels.entry_at(i);
            let packed = level.to_bytes();
            let level_compressed_bytes = crate::lz5_compress::compress(packed.as_slice());
            let number_of_bytes = level_compressed_bytes.len();
            proof {
                assert(packed@.len() == level_packed_len(old_levels[i as int].1));
                assert(number_of_bytes <= 3 * level_packed_len(old_levels[i as int].1) + 1);
                lemma_level_save_bound_skip(old_levels, i as int);
                lemma_level_save_bound_nonneg(old_levels.skip(i as int + 1));
            }
            if pc_to_write > self.rom.len() || self.rom.len() - pc_to_write < number_of_bytes {
                proof {
                    assert(self.rom@.len() < pc_of(LEVEL_FREE_SPACE as int) + level_save_bound(
                        old_levels,
                    ));
                }
                return Err(RomError::CapacityExceeded);
            }
            proof {
                if level_compressed_bytes@.len() == 0 {
                    assert(level_compressed_bytes@ =~= Seq::<u8>::empty());
                }
                assert(level_compressed_bytes@.len() >= 1);
            }
            let ghost rom_before = self.rom@;
            write_bytes(&mut self.rom, pc_to_write, &level_compressed_bytes);
            let new_address = LoRom::from(Pc { address: pc_to_write }).address;
            proof {
                reveal(level_blob_in);
                lemma_unchanged_outside_extend(
                    self.rom@,
                    rom_before,
                    old(self).rom@,
                    lvl_base as int,
                    pc_to_write as int,
                    pc_to_write as int + number_of_bytes as int,
                );
                let e = number_of_bytes as int;
                let pc = pc_to_write as int;
                assert(pc_of(new_address as int) == pc);
                assert(self.rom@.subrange(pc, pc + e) =~= level_compressed_bytes@);
                assert(level_blob_at(self.rom@, new_address, e, old_levels[i as int].1));
                assert forall|k: int| 0 <= k < i implies level_blob_between(
                    self.rom@,
                    (#[trigger] remap@[k]).1,
                    old_levels[k].1,
                    lvl_base as int,
                    pc_to_write as int + number_of_bytes as int,
                ) by {
                    reveal(level_blob_in);
                    let na = remap@[k].1;
                    let lv = old_levels[k].1;
                    let e0 = choose|e0: int|
                        {
                            &&& #[trigger] level_blob_at(rom_before, na, e0, lv)
                            &&& lvl_base as int <= pc_of(na as int)
                            &&& pc_of(na as int) + e0 <= pc_to_write as int
                        };
                    assert(self.rom@.subrange(pc_of(na as int), pc_of(na as int) + e0)
                        =~= rom_before.subrange(pc_of(na as int), pc_of(na as int) + e0));
                    assert(level_blob_at(self.rom@, na, e0, lv));
                }
                lemma_level_chain_preserved(
                    rom_before,
                    self.rom@,
                    lvl_starts,
                    old_levels,
                    i as int,
                    pc_to_write as int,
                    pc_to_write as int + number_of_bytes as int,
                );
                crate::address_map::lemma_entries_contain_iff_index(
                    new_levels.entries@,
                    new_address,
                );
            }
            remap.push((level_address, new_address));
            let fresh = copy_level(level);
            new_levels.insert(new_address, fresh);
            proof {
                lvl_starts = lvl_starts.push(pc_to_write as int);
            }
            pc_to_write = pc_to_write + number_of_bytes;
            i += 1;
        }
        proof {
            // The cursor never leaves the free-space window.
            lemma_level_save_bound_nonneg(old_levels.skip(n as int));
            assert forall|k: int| 0 <= k < n implies level_blob_between(
                self.rom@,
                (#[trigger] remap@[k]).1,
                old_levels[k].1,
                lvl_base as int,
                lvl_base as int + level_save_bound(old_levels),
            ) by {
                let e0 = choose|e0: int|
                    {
                        &&& #[trigger] level_blob_at(self.rom@, remap@[k].1, e0, old_levels[k].1)
                        &&& lvl_base as int <= pc_of(remap@[k].1 as int)
                        &&& pc_of(remap@[k].1 as int) + e0 <= pc_to_write as int
                    };
                assert(level_blob_at(self.rom@, remap@[k].1, e0, old_levels[k].1));
            }
        }
        self.levels = new_levels;
        // Rewrite every state's level pointer through the relocation
        // table.
        let ghost old_states = self.states.entries@;
        let sn = self.states.len();
        let mut si: usize = 0;
        while si < sn
            invariant
                si <= sn,
                sn == old_states.len(),
                self.states.entries@.len() == sn,
                old(self).states.entries@ == old_states,
                remap@.len() == old_levels.len(),
                forall|k: int| 0 <= k < remap@.len() ==> (#[trigger] remap@[k]).0
                    == old_levels[k].0,
                forall|k: int|
                    0 <= k < remap@.len() ==> 0x80_8000 <= (#[trigger] remap@[k]).1 < 0x100_0000 && remap@[k].1 % 0x1_0000
                        >= 0x8000,
                remap@.len() > 0 ==> pc_of(remap@[0].1 as int) == pc_of(LEVEL_FREE_SPACE as int),
                forall|k: int|
                    0 <= k < sn ==> old(self).levels.contains(
                        (#[trigger] old_states[k]).1.level_address as usize,
                    ),
                old(self).levels.entries@ == old_levels,
                forall|k: int| si <= k < sn ==> #[trigger] self.states.entries@[k]
                    == old_states[k],
                forall|k: int|
                    0 <= k < si ==> {
                        let s0 = (#[trigger] old_states[k]).1;
                        let s1 = self.states.entries@[k].1;
                        &&& self.states.entries@[k].0 == old_states[k].0
                        &&& crate::address_map::entries_get(remap@, s0.level_address as usize)
                            == Some(s1.level_address as usize)
                        &&& s1 == State {
                            level_address: s1.level_address,
                            ..s0
                        }
                    },
                self.rom@.len() == old(self).rom@.len() <= 0x40_0000,
                self.levels.wf(),
                self.levels.entries@.len() == old_levels.len(),
                forall|k: int|
                    0 <= k < old_levels.len() ==> (#[trigger] self.levels.entries@[k]).0
                        == remap@[k].1 && level_like(self.levels.entries@[k].1, old_levels[k].1),
                forall|k: int|
                    0 <= k < old_levels.len() ==> level_blob_between(
                        self.rom@,
                        (#[trigger] remap@[k]).1,
                        old_levels[k].1,
                        pc_of(LEVEL_FREE_SPACE as int),
                        pc_of(LEVEL_FREE_SPACE as int) + level_save_bound(old_levels),
                    ),
                lvl_starts.len() == old_levels.len(),
                forall|k: int|
                    0 <= k < old_levels.len() ==> #[trigger] lvl_starts[k] == pc_of(
                        remap@[k].1 as int,
                    ),
                forall|k: int|
                    0 <= k < old_levels.len() ==> pc_of(LEVEL_FREE_SPACE as int)
                        <= #[trigger] lvl_starts[k] < pc_to_write,
                pc_to_write <= pc_of(LEVEL_FREE_SPACE as int) + level_save_bound(old_levels),
                forall|k: int|
                    0 <= k < old_levels.len() - 1 ==> level_blob_in(
                        self.rom@,
                        #[trigger] lvl_starts[k],
                        lvl_starts[k + 1] - lvl_starts[k],
                        old_levels[k].1,
                    ),
                old_levels.len() > 0 ==> level_blob_in(
                    self.rom@,
                    lvl_starts[old_levels.len() - 1],
                    pc_to_write - lvl_starts[old_levels.len() - 1],
                    old_levels[old_levels.len() - 1].1,
                ),
                unchanged_outside(
                    self.rom@,
                    old(self).rom@,
                    pc_of(LEVEL_FREE_SPACE as int),
                    pc_of(LEVEL_FREE_SPACE as int) + level_save_bound(old_levels),
                ),
                old_levels == old(self).levels.entries@,
                self.palettes == old(self).palettes,
                self.rooms == old(self).rooms,
                self.graphics == old(self).graphics,
                self.tile_tables == old(self).tile_tables,
                self.cre_gfx == old(self).cre_gfx,
                self.cre_tileset == old(self).cre_tileset,
                self.tilesets == old(self).tilesets,
                self.doors == old(self).doors,
                self.door_lists == old(self).door_lists,
                self.save_stations == old(self).save_stations,
                self.tileset_table_address == old(self).tileset_table_address,
            decreases sn - si,
        {
            let st = *self.states.entry_at(si).1;
            let key = self.states.entries[si].0;
            proof {
                crate::address_map::lemma_entries_contain_iff_index(
                    old_levels,
                    st.level_address as usize,
                );
                let w = choose|w: int|
                    0 <= w < old_levels.len() && (#[trigger] old_levels[w]).0 == st.level_address
                        as usize;
                crate::address_map::lemma_entries_contain_iff_index(
                    remap@,
                    st.level_address as usize,
                );
                assert(remap@[w].0 == st.level_address as usize);
            }
            let na = match remap_get(&remap, st.level_address as usize) {
                Option::Some(na) => na,
                Option::None => {
                    proof {
                        assert(false);
                    }
                    unreached()
                },
            };
            proof {
                lemma_remap_values_bounded(remap@, st.level_address as usize);
            }
            self.states.entries[si] = (
                key,
                State { level_address: na as u32, ..st },
            );
            si += 1;
        }
        // Rewrite every room header in place.
        let ghost old_rooms = self.rooms.entries@;
        let rn = self.rooms.len();
        let mut ri: usize = 0;
        while ri < rn
            invariant
                ri <= rn,
                rn == old_rooms.len(),
                old_levels == old(self).levels.entries@,
                self.rooms == old(self).rooms,
                self.rooms.entries@ == old_rooms,
                old(self).rooms.entries@ == old_rooms,
                self.rom@.len() == old(self).rom@.len() <= 0x40_0000,
                forall|k: int|
                    0 <= k < rn ==> pc_of((#[trigger] old_rooms[k]).0 as int) + room_image(
                        old_rooms[k].1,
                    ).len() <= pc_of(LEVEL_FREE_SPACE as int),
                forall|k: int, j: int|
                    0 <= k < j < rn ==> pc_of((#[trigger] old_rooms[k]).0 as int) + room_image(
                        old_rooms[k].1,
                    ).len() <= pc_of((#[trigger] old_rooms[j]).0 as int) || pc_of(
                        old_rooms[j].0 as int,
                    ) + room_image(old_rooms[j].1).len() <= pc_of(old_rooms[k].0 as int),
                forall|k: int|
                    0 <= k < ri ==> pc_of((#[trigger] old_rooms[k]).0 as int) + room_image(
                        old_rooms[k].1,
                    ).len() <= self.rom@.len() && self.rom@.subrange(
                        pc_of(old_rooms[k].0 as int),
                        pc_of(old_rooms[k].0 as int) + room_image(old_rooms[k].1).len() as int,
                    ) == room_image(old_rooms[k].1),
                remap@.len() == old_levels.len(),
                forall|k: int| 0 <= k < remap@.len() ==> (#[trigger] remap@[k]).0
                    == old_levels[k].0,
                forall|k: int|
                    0 <= k < remap@.len() ==> 0x80_8000 <= (#[trigger] remap@[k]).1 < 0x100_0000 && remap@[k].1 % 0x1_0000
                        >= 0x8000,
                remap@.len() > 0 ==> pc_of(remap@[0].1 as int) == pc_of(LEVEL_FREE_SPACE as int),
                forall|k: int|
                    0 <= k < old_levels.len() ==> level_blob_between(
                        self.rom@,
                        (#[trigger] remap@[k]).1,
                        old_levels[k].1,
                        pc_of(LEVEL_FREE_SPACE as int),
                        pc_of(LEVEL_FREE_SPACE as int) + level_save_bound(old_levels),
                    ),
                lvl_starts.len() == old_levels.len(),
                forall|k: int|
                    0 <= k < old_levels.len() ==> #[trigger] lvl_starts[k] == pc_of(
                        remap@[k].1 as int,
                    ),
                forall|k: int|
                    0 <= k < old_levels.len() ==> pc_of(LEVEL_FREE_SPACE as int)
                        <= #[trigger] lvl_starts[k] < pc_to_write,
                pc_to_write <= pc_of(LEVEL_FREE_SPACE as int) + level_save_bound(old_levels),
                forall|k: int|
                    0 <= k < old_levels.len() - 1 ==> level_blob_in(
                        self.rom@,
                        #[trigger] lvl_starts[k],
                        lvl_starts[k + 1] - lvl_starts[k],
                        old_levels[k].1,
                    ),
                old_levels.len() > 0 ==> level_blob_in(
                    self.rom@,
                    lvl_starts[old_levels.len() - 1],
                    pc_to_write - lvl_starts[old_levels.len() - 1],
                    old_levels[old_levels.len() - 1].1,
                ),
                forall|j: int|
                    0 <= j < old(self).rom@.len() && !(pc_of(LEVEL_FREE_SPACE as int) <= j < pc_of(
                        LEVEL_FREE_SPACE as int,
                    ) + level_save_bound(old_levels)) && !in_room_region(
                        old_rooms.take(ri as int),
                        j,
                    ) ==> #[trigger] self.rom@[j] == old(self).rom@[j],
                self.states.entries@.len() == old_states.len(),
                old(self).states.entries@ == old_states,
                forall|k: int|
                    0 <= k < old_states.len() ==> {
                        let s0 = (#[trigger] old_states[k]).1;
                        let s1 = self.states.entries@[k].1;
                        &&& self.states.entries@[k].0 == old_states[k].0
                        &&& crate::address_map::entries_get(remap@, s0.level_address as usize)
                            == Some(s1.level_address as usize)
                        &&& s1 == State {
                            level_address: s1.level_address,
                            ..s0
                        }
                    },
                self.levels.wf(),
                self.levels.entries@.len() == old_levels.len(),
                forall|k: int|
                    0 <= k < old_levels.len() ==> (#[trigger] self.levels.entries@[k]).0
                        == remap@[k].1 && level_like(self.levels.entries@[k].1, old_levels[k].1),
                self.palettes == old(self).palettes,
                self.graphics == old(self).graphics,
                self.tile_tables == old(self).tile_tables,
                self.cre_gfx == old(self).cre_gfx,
                self.cre_tileset == old(self).cre_tileset,
                self.tilesets == old(self).tilesets,
                self.doors == old(self).doors,
                self.door_lists == old(self).door_lists,
                self.save_stations == old(self).save_stations,
                self.tileset_table_address == old(self).tileset_table_address,
            decreases rn - ri,
        {
            let (room_address, room) = self.rooms.entry_at(ri);
            let room_data = room.to_bytes();
            let pc_room = Pc::from(LoRom { address: room_address }).address;
            if pc_room > self.rom.len() || self.rom.len() - pc_room < room_data.len() {
                proof {
                    lemma_level_save_bound_nonneg(old_levels);
                    assert(room_data@.len() == room_image(old_rooms[ri as int].1).len());
                    assert(self.rom@.len() < pc_of(LEVEL_FREE_SPACE as int) + level_save_bound(
                        old_levels,
                    ));
                }
                return Err(RomError::CapacityExceeded);
            }
            let ghost rom_before = self.rom@;
            write_bytes(&mut self.rom, pc_room, &room_data);
            proof {
                let me = ri as int;
                let my_pc = pc_of(old_rooms[me].0 as int);
                assert(my_pc == pc_room);
                assert(self.rom@.subrange(my_pc, my_pc + room_image(old_rooms[me].1).len() as int)
                    =~= room_data@);
                assert forall|k: int| 0 <= k < ri implies pc_of(
                    (#[trigger] old_rooms[k]).0 as int,
                ) + room_image(old_rooms[k].1).len() <= self.rom@.len() && self.rom@.subrange(
                    pc_of(old_rooms[k].0 as int),
                    pc_of(old_rooms[k].0 as int) + room_image(old_rooms[k].1).len() as int,
                ) == room_image(old_rooms[k].1) by {
                    assert(pc_of((old_rooms[k]).0 as int) + room_image(old_rooms[k].1).len()
                        <= pc_of((old_rooms[me]).0 as int) || pc_of((old_rooms[me]).0 as int)
                        + room_image(old_rooms[me].1).len() <= pc_of((old_rooms[k]).0 as int));
                    assert(self.rom@.subrange(
                        pc_of(old_rooms[k].0 as int),
                        pc_of(old_rooms[k].0 as int) + room_image(old_rooms[k].1).len() as int,
                    ) =~= rom_before.subrange(
                        pc_of(old_rooms[k].0 as int),
                        pc_of(old_rooms[k].0 as int) + room_image(old_rooms[k].1).len() as int,
                    ));
                }
                assert forall|k: int| 0 <= k < old_levels.len() implies level_blob_between(
                    self.rom@,
                    (#[trigger] remap@[k]).1,
                    old_levels[k].1,
                    pc_of(LEVEL_FREE_SPACE as int),
                    pc_of(LEVEL_FREE_SPACE as int) + level_save_bound(old_levels),
                ) by {
                    reveal(level_blob_in);
                    let na = remap@[k].1;
                    let lv = old_levels[k].1;
                    let e0 = choose|e0: int|
                        {
                            &&& #[trigger] level_blob_at(rom_before, na, e0, lv)
                            &&& pc_of(LEVEL_FREE_SPACE as int) <= pc_of(na as int)
                            &&& pc_of(na as int) + e0 <= pc_of(LEVEL_FREE_SPACE as int)
                                + level_save_bound(old_levels)
                        };
                    assert(self.rom@.subrange(pc_of(na as int), pc_of(na as int) + e0)
                        =~= rom_before.subrange(pc_of(na as int), pc_of(na as int) + e0));
                    assert(level_blob_at(self.rom@, na, e0, lv));
                }
                lemma_level_chain_above_preserved(
                    rom_before,
                    self.rom@,
                    lvl_starts,
                    old_levels,
                    old_levels.len() as int,
                    pc_of(LEVEL_FREE_SPACE as int),
                    pc_to_write as int,
                    pc_room as int,
                    pc_room as int + room_data@.len() as int,
                );
                // Bytes outside the level window and the room images
                // written so far are untouched.
                assert forall|j: int|
                    0 <= j < old(self).rom@.len() && !(pc_of(LEVEL_FREE_SPACE as int) <= j < pc_of(
                        LEVEL_FREE_SPACE as int,
                    ) + level_save_bound(old_levels)) && !in_room_region(
                        old_rooms.take(ri as int + 1),
                        j,
                    ) implies #[trigger] self.rom@[j] == old(self).rom@[j] by {
                    assert(!in_room_region(old_rooms.take(ri as int), j)) by {
                        if in_room_region(old_rooms.take(ri as int), j) {
                            let k = choose|k: int|
                                0 <= k < old_rooms.take(ri as int).len() && pc_of(
                                    (#[trigger] old_rooms.take(ri as int)[k]).0 as int,
                                ) <= j < pc_of(old_rooms.take(ri as int)[k].0 as int) + room_image(
                                    old_rooms.take(ri as int)[k].1,
                                ).len();
                            assert(old_rooms.take(ri as int + 1)[k] == old_rooms[k]);
                        }
                    }
                    assert(!(my_pc <= j < my_pc + room_image(old_rooms[me].1).len() as int)) by {
                        if my_pc <= j < my_pc + room_image(old_rooms[me].1).len() as int {
                            assert(old_rooms.take(ri as int + 1)[me] == old_rooms[me]);
                        }
                    }
                }
            }
            ri += 1;
        }
        proof {
            if old(self).states.wf() {
                assert forall|i: int, j: int|
                    0 <= i < j < self.states.entries@.len() implies (
                    #[trigger] self.states.entries@[i]).0 != (#[trigger] self.states.entries@[j]).0 by {
                    assert(old(self).states.entries@[i].0 != old(self).states.entries@[j].0);
                }
                assert(self.states.wf());
            }
            if self.states.wf() {
                assert forall|i: int, j: int|
                    0 <= i < j < old_states.len() implies (#[trigger] old(self).states.entries@[i]).0 != (#[trigger] old(self).states.entries@[j]).0 by {
                    assert(self.states.entries@[i].0 != self.states.entries@[j].0);
                }
                assert(old(self).states.wf());
            }
            assert forall|k: int| 0 <= k < old_levels.len() implies level_saved(
                self.rom@,
                (#[trigger] remap@[k]).1,
                old_levels[k].1,
            ) by {
                let na = remap@[k].1;
                let lv = old_levels[k].1;
                let e0 = choose|e0: int|
                    {
                        &&& #[trigger] level_blob_at(self.rom@, na, e0, lv)
                        &&& pc_of(LEVEL_FREE_SPACE as int) <= pc_of(na as int)
                        &&& pc_of(na as int) + e0 <= pc_of(LEVEL_FREE_SPACE as int)
                            + level_save_bound(old_levels)
                    };
                assert(level_blob_at(self.rom@, na, e0, lv));
            }
            assert forall|k: int| 0 <= k < old_levels.len() - 1 implies level_blob_at(
                self.rom@,
                (#[trigger] remap@[k]).1,
                pc_of(remap@[k + 1].1 as int) - pc_of(remap@[k].1 as int),
                old_levels[k].1,
            ) by {
                assert(lvl_starts[k] == pc_of(remap@[k].1 as int));
                assert(lvl_starts[k + 1] == pc_of(remap@[k + 1].1 as int));
                assert(level_blob_in(
                    self.rom@,
                    lvl_starts[k],
                    lvl_starts[k + 1] - lvl_starts[k],
                    old_levels[k].1,
                ));
            }
        }
        Ok(remap)
    }
}

/// Two graphics sheets with the same tiles, pixel for pixel.
pub open spec fn gfx_like(a: Gfx, b: Gfx) -> bool {
    a.tiles@.len() == b.tiles@.len() && forall|t: int|
        0 <= t < a.tiles@.len() ==> (#[trigger] a.tiles@[t]).colors@ == b.tiles@[t].colors@
}

impl SuperMetroid {
    /// Everything a renderer needs for one state: its level, its
    /// tileset entry, and that tileset's palette, graphics and tile
    /// table with the shared common resources composed in where the
    /// tileset asks for them.
    pub fn get_state_data(&self, state: &State) -> (r: (
        &LevelData,
        &Tileset,
        &Palette,
        Gfx,
        TileTable,
    ))
        requires
            self.levels.contains(state.level_address as usize),
            state.tileset < self.tilesets@.len(),
            self.palettes.contains(self.tilesets@[state.tileset as int].palette as usize),
            self.graphics.contains(self.tilesets@[state.tileset as int].graphic as usize),
            self.tile_tables.contains(self.tilesets@[state.tileset as int].tile_table as usize),
        ensures
            self.levels.spec_get(state.level_address as usize) == Some(*r.0),
            *r.1 == self.tilesets@[state.tileset as int],
            self.palettes.spec_get(r.1.palette as usize) == Some(*r.2),
            ({
                let own = self.graphics.spec_get(r.1.graphic as usize)->Some_0;
                if r.1.use_cre {
                    &&& r.3.tiles@.len() == own.tiles@.len() + 64 + self.cre_gfx.tiles@.len()
                    &&& forall|t: int|
                        0 <= t < own.tiles@.len() ==> (#[trigger] r.3.tiles@[t]).colors@
                            == own.tiles@[t].colors@
                    &&& forall|t: int|
                        own.tiles@.len() <= t < own.tiles@.len() + 64 ==> is_blank_tile(
                            #[trigger] r.3.tiles@[t],
                        )
                    &&& forall|t: int|
                        0 <= t < self.cre_gfx.tiles@.len() ==> (
                        #[trigger] self.cre_gfx.tiles@[t]).colors@ == r.3.tiles@[own.tiles@.len()
                            + 64 + t].colors@
                } else {
                    gfx_like(r.3, own)
                }
            }),
            ({
                let own = self.tile_tables.spec_get(r.1.tile_table as usize)->Some_0;
                if r.1.use_cre {
                    r.4@ == self.cre_tileset@ + own@
                } else {
                    r.4@ == own@
                }
            }),
    {
        let level_data = match self.levels.get(state.level_address as usize) {
            Option::Some(l) => l,
            Option::None => {
                proof {
                    assert(false);
                }
                unreached()
            },
        };
        let tileset = &self.tilesets[state.tileset as usize];
        let palette = match self.palettes.get(tileset.palette as usize) {
            Option::Some(p) => p,
            Option::None => {
                proof {
                    assert(false);
                }
                unreached()
            },
        };
        let graphics = if tileset.use_cre {
            self.gfx_with_cre(tileset.graphic as usize)
        } else {
            match self.graphics.get(tileset.graphic as usize) {
                Option::Some(g) => copy_gfx(g),
                Option::None => {
                    proof {
                        assert(false);
                    }
                    unreached()
                },
            }
        };
        let tile_table = if tileset.use_cre {
            self.tile_table_with_cre(tileset.tile_table as usize)
        } else {
            match self.tile_tables.get(tileset.tile_table as usize) {
                Option::Some(t) => copy_tile_table(t),
                Option::None => {
                    proof {
                        assert(false);
                    }
                    unreached()
                },
            }
        };
        (level_data, tileset, palette, graphics, tile_table)
    }

    /// Save the whole store: relocate palettes, relocate level data and
    /// rewrite rooms, then write the tileset table — with its rewritten
    /// pointers — back in place.
    #[verifier::rlimit(100)]
    pub fn save_to_rom(&mut self) -> (r: Result<(), RomError>)
        requires
            old(self).palettes.wf(),
            old(self).levels.wf(),
            old(self).rom@.len() <= 0x40_0000,
            forall|i: int|
                0 <= i < old(self).palettes.entries@.len() ==> (#[trigger] old(self).palettes.entries@[i]).1.wf(),
            forall|i: int|
                0 <= i < old(self).tilesets@.len() ==> old(self).palettes.contains(
                    (#[trigger] old(self).tilesets@[i]).palette as usize,
                ),
            forall|i: int|
                0 <= i < old(self).levels.entries@.len() ==> (#[trigger] old(self).levels.entries@[i]).1.wf() && old(self).levels.entries@[i].1.layer1@.len() * 2
                    <= u16::MAX,
            forall|i: int|
                0 <= i < old(self).states.entries@.len() ==> old(self).levels.contains(
                    (#[trigger] old(self).states.entries@[i]).1.level_address as usize,
                ),
            forall|i: int|
                0 <= i < old(self).rooms.entries@.len() ==> pc_of(
                    (#[trigger] old(self).rooms.entries@[i]).0 as int,
                ) + room_image(old(self).rooms.entries@[i].1).len() <= pc_of(
                    LEVEL_FREE_SPACE as int,
                ),
            forall|i: int, j: int|
                0 <= i < j < old(self).rooms.entries@.len() ==> pc_of(
                    (#[trigger] old(self).rooms.entries@[i]).0 as int,
                ) + room_image(old(self).rooms.entries@[i].1).len() <= pc_of(
                    (#[trigger] old(self).rooms.entries@[j]).0 as int,
                ) || pc_of(old(self).rooms.entries@[j].0 as int) + room_image(
                    old(self).rooms.entries@[j].1,
                ).len() <= pc_of(old(self).rooms.entries@[i].0 as int),
        ensures
            match r {
                Result::Ok(()) => {
                    &&& final(self).rom@.len() == old(self).rom@.len()
                    &&& final(self).tilesets@.len() == old(self).tilesets@.len()
                    // Every tileset still names its resources, with its
                    // palette pointer moved to the relocated entry that
                    // holds the same colors.
                    &&& forall|i: int|
                        0 <= i < old(self).tilesets@.len() ==> {
                            let t0 = old(self).tilesets@[i];
                            let t1 = #[trigger] final(self).tilesets@[i];
                            &&& t1.graphic == t0.graphic
                            &&& t1.tile_table == t0.tile_table
                            &&& t1.use_cre == t0.use_cre
                            &&& exists|j: int|
                                0 <= j < final(self).palettes.entries@.len() && (#[trigger] final(self).palettes.entries@[j]).0 == t1.palette as usize && palette_like(
                                    final(self).palettes.entries@[j].1,
                                    old(self).palettes.spec_get(t0.palette as usize)->Some_0,
                                )
                        }
                    // Every state still names its level, with its
                    // pointer moved to the relocated entry that holds
                    // the same grid.
                    &&& final(self).states.entries@.len() == old(self).states.entries@.len()
                    &&& forall|i: int|
                        0 <= i < old(self).states.entries@.len() ==> {
                            let s0 = (#[trigger] old(self).states.entries@[i]).1;
                            let s1 = final(self).states.entries@[i].1;
                            &&& final(self).states.entries@[i].0 == old(self).states.entries@[i].0
                            &&& exists|j: int|
                                0 <= j < final(self).levels.entries@.len() && (#[trigger] final(self).levels.entries@[j]).0 == s1.level_address as usize && level_like(
                                    final(self).levels.entries@[j].1,
                                    old(self).levels.spec_get(s0.level_address as usize)->Some_0,
                                )
                        }
                    // The tileset table region holds the rewritten
                    // entries.
                    &&& pc_of(final(self).tileset_table_address as int) + 9 * final(self).tilesets@.len() <= final(self).rom@.len()
                    &&& forall|i: int|
                        0 <= i < final(self).tilesets@.len() ==> {
                            let t = #[trigger] final(self).tilesets@[i];
                            let p = pc_of(final(self).tileset_table_address as int) + 9 * i;
                            &&& le24_at(final(self).rom@, p) == t.tile_table % 0x100_0000
                            &&& le24_at(final(self).rom@, p + 3) == t.graphic % 0x100_0000
                            &&& le24_at(final(self).rom@, p + 6) == t.palette % 0x100_0000
                        }
                    &&& final(self).tileset_table_address == old(self).tileset_table_address
                    // Only the palette window, the level window, the
                    // room images and the tileset table change.
                    &&& forall|j: int|
                        0 <= j < old(self).rom@.len() && !(pc_of(PALETTE_FREE_SPACE as int) <= j
                            < pc_of(PALETTE_FREE_SPACE as int) + 769 * old(self).palettes.entries@.len()) && !(pc_of(LEVEL_FREE_SPACE as int) <= j < pc_of(
                            LEVEL_FREE_SPACE as int,
                        ) + level_save_bound(old(self).levels.entries@)) && !in_room_region(
                            old(self).rooms.entries@,
                            j,
                        ) && !(pc_of(old(self).tileset_table_address as int) <= j < pc_of(
                            old(self).tileset_table_address as int,
                        ) + 9 * old(self).tilesets@.len()) ==> #[trigger] final(self).rom@[j]
                            == old(self).rom@[j]
                    // When the written regions cannot collide, the
                    // relocated palettes and levels stand in the final
                    // image under the rekeyed maps' addresses.
                    &&& (769 * old(self).palettes.entries@.len() <= pc_of(LEVEL_FREE_SPACE as int)
                        - pc_of(PALETTE_FREE_SPACE as int) && (forall|k: int|
                        0 <= k < old(self).rooms.entries@.len() ==> pc_of(
                            (#[trigger] old(self).rooms.entries@[k]).0 as int,
                        ) + room_image(old(self).rooms.entries@[k].1).len() <= pc_of(
                            PALETTE_FREE_SPACE as int,
                        )) && pc_of(old(self).tileset_table_address as int) + 9 * old(self).tilesets@.len() <= pc_of(PALETTE_FREE_SPACE as int)) ==> {
                        &&& forall|i: int|
                            0 <= i < final(self).palettes.entries@.len() ==> palette_saved(
                                final(self).rom@,
                                (#[trigger] final(self).palettes.entries@[i]).0,
                                old(self).palettes.entries@[i].1,
                            )
                        &&& forall|i: int|
                            0 <= i < final(self).levels.entries@.len() ==> level_saved(
                                final(self).rom@,
                                (#[trigger] final(self).levels.entries@[i]).0,
                                old(self).levels.entries@[i].1,
                            )
                    }
                },
                Result::Err(e) => e == RomError::CapacityExceeded,
            },
            // Success is owed whenever every region fits its worst
            // case.
            ({
                &&& old(self).rom@.len() >= pc_of(PALETTE_FREE_SPACE as int) + 769 * old(self).palettes.entries@.len()
                &&& old(self).rom@.len() >= pc_of(LEVEL_FREE_SPACE as int) + level_save_bound(
                    old(self).levels.entries@,
                )
                &&& pc_of(old(self).tileset_table_address as int) + 9 * old(self).tilesets@.len()
                    <= old(self).rom@.len()
            }) ==> r is Ok,
    {
        let ghost old_palettes = self.palettes.entries@;
        let remap = match self.save_palettes_to_rom() {
            Result::Ok(m) => m,
            Result::Err(e) => {
                return Err(e);
            },
        };
        let ghost mid = *self;
        let level_remap = match self.save_level_data_to_rom() {
            Result::Ok(m) => m,
            Result::Err(e) => {
                return Err(e);
            },
        };
        // Write the tileset table back in place.
        let table_pc = Pc::from(LoRom { address: self.tileset_table_address }).address;
        let tn = self.tilesets.len();
        if table_pc > self.rom.len() || (self.rom.len() - table_pc) / 9 < tn {
            proof {
                assert(self.rom@.len() < table_pc + 9 * tn) by (nonlinear_arith)
                    requires
                        table_pc > self.rom@.len() || (self.rom@.len() - table_pc as int) / 9
                            < tn,
                ;
            }
            return Err(RomError::CapacityExceeded);
        }
        proof {
            assert(table_pc + 9 * tn <= self.rom@.len()) by (nonlinear_arith)
                requires
                    table_pc <= self.rom@.len(),
                    (self.rom@.len() - table_pc as int) / 9 >= tn,
            ;
        }
        let ghost before_table = *self;
        let rlen = self.rom.len();
        proof {
            reveal(unchanged_outside);
            assert(unchanged_outside(
                self.rom@,
                before_table.rom@,
                table_pc as int,
                table_pc as int + 9 * tn,
            ));
        }
        let mut ti: usize = 0;
        while ti < tn
            invariant
                ti <= tn,
                tn == self.tilesets@.len(),
                table_pc + 9 * tn <= rlen,
                rlen == self.rom@.len(),
                self.rom@.len() == before_table.rom@.len(),
                self.tilesets@ == before_table.tilesets@,
                self.palettes == before_table.palettes,
                self.levels == before_table.levels,
                self.states == before_table.states,
                self.rooms == before_table.rooms,
                self.graphics == before_table.graphics,
                self.tile_tables == before_table.tile_tables,
                self.cre_gfx == before_table.cre_gfx,
                self.cre_tileset == before_table.cre_tileset,
                self.tileset_table_address == before_table.tileset_table_address,
                unchanged_outside(
                    self.rom@,
                    before_table.rom@,
                    table_pc as int,
                    table_pc as int + 9 * tn,
                ),
                forall|i: int|
                    0 <= i < ti ==> {
                        let t = #[trigger] self.tilesets@[i];
                        let p = table_pc as int + 9 * i;
                        &&& le24_at(self.rom@, p) == t.tile_table % 0x100_0000
                        &&& le24_at(self.rom@, p + 3) == t.graphic % 0x100_0000
                        &&& le24_at(self.rom@, p + 6) == t.palette % 0x100_0000
                    },
            decreases tn - ti,
        {
            let b = self.tilesets[ti].to_bytes();
            proof {
                assert(table_pc + 9 * ti + 9 <= table_pc + 9 * tn) by (nonlinear_arith)
                    requires
                        ti < tn,
                ;
            }
            let ghost rom_before = self.rom@;
            write_bytes(&mut self.rom, table_pc + 9 * ti, &b);
            proof {
                lemma_unchanged_outside_within(
                    self.rom@,
                    rom_before,
                    before_table.rom@,
                    table_pc as int + 9 * ti,
                    table_pc as int + 9 * ti + 9,
                    table_pc as int,
                    table_pc as int + 9 * tn,
                );
                let p = table_pc as int + 9 * ti;
                assert(self.rom@[p] == b@[0] && self.rom@[p + 1] == b@[1] && self.rom@[p + 2]
                    == b@[2] && self.rom@[p + 3] == b@[3] && self.rom@[p + 4] == b@[4]
                    && self.rom@[p + 5] == b@[5] && self.rom@[p + 6] == b@[6] && self.rom@[p + 7]
                    == b@[7] && self.rom@[p + 8] == b@[8]);
                assert forall|k: int| 0 <= k < ti implies {
                    let t = #[trigger] self.tilesets@[k];
                    let q = table_pc as int + 9 * k;
                    &&& le24_at(self.rom@, q) == t.tile_table % 0x100_0000
                    &&& le24_at(self.rom@, q + 3) == t.graphic % 0x100_0000
                    &&& le24_at(self.rom@, q + 6) == t.palette % 0x100_0000
                } by {
                    assert(9 * k + 9 <= 9 * ti) by (nonlinear_arith)
                        requires
                            k < ti,
                    ;
                    let q = table_pc as int + 9 * k;
                    assert(self.rom@[q] == rom_before[q] && self.rom@[q + 1] == rom_before[q + 1]
                        && self.rom@[q + 2] == rom_before[q + 2] && self.rom@[q + 3]
                        == rom_before[q + 3] && self.rom@[q + 4] == rom_before[q + 4]
                        && self.rom@[q + 5] == rom_before[q + 5] && self.rom@[q + 6]
                        == rom_before[q + 6] && self.rom@[q + 7] == rom_before[q + 7]
                        && self.rom@[q + 8] == rom_before[q + 8]);
                }
            }
            ti += 1;
        }
        proof {
            // Chain the two relocation passes into the pointer-
            // integrity claim.
            assert forall|i: int| 0 <= i < old(self).tilesets@.len() implies {
                let t0 = old(self).tilesets@[i];
                let t1 = #[trigger] self.tilesets@[i];
                &&& t1.graphic == t0.graphic
                &&& t1.tile_table == t0.tile_table
                &&& t1.use_cre == t0.use_cre
                &&& exists|j: int|
                    0 <= j < self.palettes.entries@.len() && (
                    #[trigger] self.palettes.entries@[j]).0 == t1.palette as usize && palette_like(
                        self.palettes.entries@[j].1,
                        old(self).palettes.spec_get(t0.palette as usize)->Some_0,
                    )
            } by {
                let t0 = old(self).tilesets@[i];
                let t1 = self.tilesets@[i];
                crate::address_map::lemma_entries_contain_iff_index(
                    old_palettes,
                    t0.palette as usize,
                );
                let w = choose|w: int|
                    0 <= w < old_palettes.len() && (#[trigger] old_palettes[w]).0 == t0.palette
                        as usize;
                assert(old(self).palettes.wf());
                crate::address_map::lemma_entries_get_at_index(old_palettes, w);
                assert(remap@[w].0 == old_palettes[w].0);
                assert forall|a: int, b: int|
                    0 <= a < b < remap@.len() implies (#[trigger] remap@[a]).0 != (
                    #[trigger] remap@[b]).0 by {
                    assert(remap@[a].0 == old_palettes[a].0 && remap@[b].0 == old_palettes[b].0);
                    assert(old_palettes[a].0 != old_palettes[b].0);
                }
                crate::address_map::lemma_entries_get_at_index(remap@, w);
                assert(mid.palettes.entries@[w].0 == remap@[w].1 && palette_like(
                    mid.palettes.entries@[w].1,
                    old_palettes[w].1,
                ));
                assert(self.palettes.entries@[w] == mid.palettes.entries@[w]);
                assert(crate::address_map::entries_get(remap@, t0.palette as usize) == Some(
                    t1.palette as usize,
                ));
                assert(old(self).palettes.spec_get(t0.palette as usize) == Some(
                    old_palettes[w].1,
                ));
            }
            // Compose the three passes' frames: outside the four written
            // regions the image is untouched.
            let pal_lo = pc_of(PALETTE_FREE_SPACE as int);
            let pal_hi = pal_lo + 769 * old(self).palettes.entries@.len();
            let lvl_lo = pc_of(LEVEL_FREE_SPACE as int);
            let lvl_hi = lvl_lo + level_save_bound(old(self).levels.entries@);
            let tab_lo = pc_of(old(self).tileset_table_address as int);
            let tab_hi = tab_lo + 9 * old(self).tilesets@.len();
            assert(mid.rooms.entries@ == old(self).rooms.entries@);
            lemma_save_frames_compose(
                old(self).rom@,
                mid.rom@,
                before_table.rom@,
                self.rom@,
                pal_lo,
                pal_hi,
                lvl_lo,
                lvl_hi,
                old(self).rooms.entries@,
                tab_lo,
                tab_hi,
            );
            // When the regions cannot collide, the blobs both passes
            // laid keep their bytes to the end.
            if 769 * old(self).palettes.entries@.len() <= lvl_lo - pal_lo && (forall|k: int|
                0 <= k < old(self).rooms.entries@.len() ==> pc_of(
                    (#[trigger] old(self).rooms.entries@[k]).0 as int,
                ) + room_image(old(self).rooms.entries@[k].1).len() <= pal_lo) && tab_hi <= pal_lo {
                assert(pal_lo < lvl_lo);
                assert forall|i: int| 0 <= i < self.palettes.entries@.len() implies palette_saved(
                    self.rom@,
                    (#[trigger] self.palettes.entries@[i]).0,
                    old(self).palettes.entries@[i].1,
                ) by {
                    let na = self.palettes.entries@[i].0;
                    let p = old(self).palettes.entries@[i].1;
                    assert(na == remap@[i].1);
                    let e0 = choose|e0: int|
                        {
                            &&& #[trigger] palette_blob_at(mid.rom@, na, e0, p)
                            &&& pc_of(na as int) + e0 <= pal_hi
                        };
                    lemma_palette_blob_survives(
                        mid.rom@,
                        before_table.rom@,
                        self.rom@,
                        na,
                        p,
                        e0,
                        pal_lo,
                        pal_hi,
                        lvl_lo,
                        lvl_hi,
                        old(self).rooms.entries@,
                        tab_lo,
                        tab_hi,
                    );
                }
                assert forall|i: int| 0 <= i < self.levels.entries@.len() implies level_saved(
                    self.rom@,
                    (#[trigger] self.levels.entries@[i]).0,
                    old(self).levels.entries@[i].1,
                ) by {
                    let na = self.levels.entries@[i].0;
                    let lv = old(self).levels.entries@[i].1;
                    assert(na == level_remap@[i].1);
                    assert(mid.levels.entries@ == old(self).levels.entries@);
                    let e0 = choose|e0: int|
                        {
                            &&& #[trigger] level_blob_at(before_table.rom@, na, e0, lv)
                            &&& lvl_lo <= pc_of(na as int)
                            &&& pc_of(na as int) + e0 <= lvl_hi
                        };
                    lemma_level_blob_survives(
                        before_table.rom@,
                        self.rom@,
                        na,
                        lv,
                        e0,
                        lvl_lo,
                        lvl_hi,
                        tab_lo,
                        tab_hi,
                    );
                }
            }
            let ghost old_levels = old(self).levels.entries@;
            assert forall|i: int| 0 <= i < old(self).states.entries@.len() implies {
                let s0 = (#[trigger] old(self).states.entries@[i]).1;
                let s1 = self.states.entries@[i].1;
                &&& self.states.entries@[i].0 == old(self).states.entries@[i].0
                &&& exists|j: int|
                    0 <= j < self.levels.entries@.len() && (
                    #[trigger] self.levels.entries@[j]).0 == s1.level_address as usize
                        && level_like(
                        self.levels.entries@[j].1,
                        old(self).levels.spec_get(s0.level_address as usize)->Some_0,
                    )
            } by {
                let s0 = old(self).states.entries@[i].1;
                let s1 = self.states.entries@[i].1;
                crate::address_map::lemma_entries_contain_iff_index(
                    old_levels,
                    s0.level_address as usize,
                );
                let w = choose|w: int|
                    0 <= w < old_levels.len() && (#[trigger] old_levels[w]).0 == s0.level_address
                        as usize;
                assert(old(self).levels.wf());
                crate::address_map::lemma_entries_get_at_index(old_levels, w);
                assert(level_remap@[w].0 == old_levels[w].0);
                assert forall|a: int, b: int|
                    0 <= a < b < level_remap@.len() implies (#[trigger] level_remap@[a]).0 != (
                    #[trigger] level_remap@[b]).0 by {
                    assert(level_remap@[a].0 == old_levels[a].0 && level_remap@[b].0
                        == old_levels[b].0);
                    assert(old_levels[a].0 != old_levels[b].0);
                }
                crate::address_map::lemma_entries_get_at_index(level_remap@, w);
                assert(self.levels.entries@[w].0 == level_remap@[w].1 && level_like(
                    self.levels.entries@[w].1,
                    old_levels[w].1,
                ));
                assert(crate::address_map::entries_get(level_remap@, s0.level_address as usize)
                    == Some(s1.level_address as usize));
                assert(old(self).levels.spec_get(s0.level_address as usize) == Some(
                    old_levels[w].1,
                ));
            }
        }
        Ok(())
    }
}

/// The whole compressed stream standing at banked address `a`, decoded.
pub open spec fn decompressed_at(rom: Seq<u8>, a: usize) -> Option<Seq<u8>> {
    if pc_of(a as int) <= rom.len() {
        lz5_decode(rom.skip(pc_of(a as int)), Seq::<u8>::empty())
    } else {
        None
    }
}

/// The palette stored under `a` decodes from the image there.
pub open spec fn palette_entry_ok(rom: Seq<u8>, a: usize, p: Palette) -> bool {
    decompressed_at(rom, a) matches Some(b) && palette_decodes(b) && is_decoded_palette(b, p)
        && p.wf()
}

/// The graphics sheet stored under `a` decodes from the image there.
pub open spec fn gfx_entry_ok(rom: Seq<u8>, a: usize, g: Gfx) -> bool {
    decompressed_at(rom, a) matches Some(b) && b.len() % 32 == 0 && g.tiles@.len() == b.len() / 32
        && (forall|t: int|
        0 <= t < g.tiles@.len() ==> (#[trigger] g.tiles@[t]).colors@ == tile_colors_spec(
            b,
            32 * t,
        )) && g.wf()
}

/// The tile table stored under `a` decodes from the image there.
pub open spec fn tile_table_entry_ok(rom: Seq<u8>, a: usize, tt: TileTable) -> bool {
    decompressed_at(rom, a) matches Some(b) && tt@.len() == (b.len() + 1) / 2 && (forall|i: int|
        0 <= i < b.len() as int / 2 ==> #[trigger] tt@[i] == tile_from_word(le16_at(b, 2 * i))) && (
    b.len() % 2 == 1 ==> tt@[b.len() as int / 2] == tile_from_word(b[b.len() - 1] as int))
}

/// The level stored under `a` decodes from the image there, with or
/// without its second layer.
pub open spec fn level_entry_ok(rom: Seq<u8>, a: usize, lv: LevelData) -> bool {
    decompressed_at(rom, a) matches Some(b) && (is_decoded_level(b, true, lv) || is_decoded_level(
        b,
        false,
        lv,
    ))
}

/// The room stored under `a` decodes from the image there.
pub open spec fn room_entry_ok(rom: Seq<u8>, a: usize, room: Room) -> bool {
    &&& pc_of(a as int) + 11 <= rom.len()
    &&& (a as u16) + 11 <= 0xFFFF
    &&& {
        let s = rom.skip(pc_of(a as int));
        &&& room.index == s[0]
        &&& room.area == s[1]
        &&& room.map_position.0 == s[2]
        &&& room.map_position.1 == s[3]
        &&& room.width == s[4]
        &&& room.height == s[5]
        &&& room.up_scroller == s[6]
        &&& room.down_scroller == s[7]
        &&& room.cre_bitset == s[8]
        &&& room.doors == le16_at(s, 9)
        &&& state_conditions_spec((a as u16) as int + 11, s.skip(11)) == Some(
            room.state_conditions@,
        )
    }
}

/// The state stored under the in-bank address `a` decodes from the
/// image there.
pub open spec fn state_entry_ok(rom: Seq<u8>, a: usize, st: State) -> bool {
    &&& a <= 0xFFFF
    &&& pc_of(0x8F_0000 + a as int) + 26 <= rom.len()
    &&& crate::state::is_decoded_state(rom.skip(pc_of(0x8F_0000 + a as int)), st)
}

/// A palette blob can be loaded from `a`: it decompresses and decodes.
pub open spec fn palette_loadable(rom: Seq<u8>, a: usize) -> bool {
    decompressed_at(rom, a) matches Some(b) && palette_decodes(b)
}

/// A graphics blob can be loaded from `a`: it decompresses into whole
/// tiles.
pub open spec fn gfx_loadable(rom: Seq<u8>, a: usize) -> bool {
    decompressed_at(rom, a) matches Some(b) && b.len() % 32 == 0
}

/// A tile table blob can be loaded from `a`: it decompresses.
pub open spec fn tile_table_loadable(rom: Seq<u8>, a: usize) -> bool {
    decompressed_at(rom, a) is Some
}

/// Every resource the tileset entries name can be loaded.
pub open spec fn resources_loadable(rom: Seq<u8>, tilesets: Seq<Tileset>) -> bool {
    forall|k: int|
        0 <= k < tilesets.len() ==> palette_loadable(rom, (#[trigger] tilesets[k]).palette as usize)
            && gfx_loadable(rom, tilesets[k].graphic as usize) && tile_table_loadable(
            rom,
            tilesets[k].tile_table as usize,
        )
}

/// A room header and its whole condition chain can be loaded from `a`.
pub open spec fn room_loadable(rom: Seq<u8>, a: usize) -> bool {
    &&& pc_of(a as int) + 11 <= rom.len()
    &&& (a as u16) + 11 <= 0xFFFF
    &&& state_conditions_spec(
        (a as u16) as int + 11,
        rom.skip(pc_of(a as int)).skip(11),
    ) is Some
}

/// The fixed-size state record at in-bank address `sa` lies inside the
/// image.
pub open spec fn state_loadable(rom: Seq<u8>, sa: usize) -> bool {
    pc_of(0x8F_0000 + sa as int) + 26 <= rom.len()
}

/// Every state a room's chain names lies inside the image.
pub open spec fn room_states_loadable(rom: Seq<u8>, room: Room) -> bool {
    forall|j: int|
        0 <= j < room.state_conditions@.len() ==> state_loadable(
            rom,
            (#[trigger] room.state_conditions@[j]).state_address as usize,
        )
}

/// Every door list of the root table lies inside the image.
pub open spec fn door_lists_loadable(rom: Seq<u8>, table: Seq<(usize, u16)>) -> bool {
    forall|k: int|
        0 <= k < table.len() ==> pc_of(0x8F_0000 + (#[trigger] table[k]).1 as int) + 2 * table[k].0
            <= rom.len()
}

/// The door records lie inside the image.
pub open spec fn doors_loadable(rom: Seq<u8>, count: int, base: usize) -> bool {
    &&& base <= 0xFF_FFFF
    &&& pc_of(base as int) + 12 * count <= rom.len()
}

/// The save-station table is well formed and its records lie inside the
/// image.
pub open spec fn stations_loadable(rom: Seq<u8>, st_addr: usize, li_addr: usize, areas: int) -> bool {
    let li = rom.skip(pc_of(li_addr as int));
    &&& 1 <= areas <= 0x8000
    &&& pc_of(li_addr as int) + 2 * areas <= rom.len()
    &&& pc_of(st_addr as int) <= rom.len()
    &&& crate::save_station::area_table_wf(li, areas)
    &&& crate::save_station::area_offset(li, 0) <= crate::save_station::area_offset(li, areas - 1)
    &&& crate::save_station::area_offset(li, areas - 1) - crate::save_station::area_offset(li, 0)
        <= rom.len() - pc_of(st_addr as int)
}

/// The whole object graph can be loaded: the digest matches and every
/// root record decodes.
pub open spec fn rom_loadable(rom: Seq<u8>, roots: RomRoots) -> bool {
    &&& md5_of(rom) == unheadered_md5_seq()
    &&& pc_of(roots.tilesets as int) + 261 <= rom.len()
    &&& resources_loadable(
        rom,
        Seq::new(29, |i: int| tileset_at(rom.skip(pc_of(roots.tilesets as int)), i)),
    )
    &&& gfx_loadable(rom, roots.cre_gfx)
    &&& tile_table_loadable(rom, roots.cre_tileset)
    &&& forall|k: int|
        0 <= k < roots.rooms@.len() ==> room_loadable(rom, #[trigger] roots.rooms@[k])
            && (forall|j: int|
            0 <= j < state_conditions_spec(
                (roots.rooms@[k] as u16) as int + 11,
                rom.skip(pc_of(roots.rooms@[k] as int)).skip(11),
            )->Some_0.len() ==> state_loadable(
                rom,
                (#[trigger] state_conditions_spec(
                    (roots.rooms@[k] as u16) as int + 11,
                    rom.skip(pc_of(roots.rooms@[k] as int)).skip(11),
                )->Some_0[j]).state_address as usize,
            ))
    &&& door_lists_loadable(rom, roots.door_lists@)
    &&& doors_loadable(rom, roots.doors.0 as int, roots.doors.1)
    &&& stations_loadable(rom, roots.save_stations, roots.save_station_list, roots.number_of_areas as int)
}

/// The bytes from banked `address` to the end of the image, at least
/// `need` of them.
fn suffix_at<'a>(rom: &'a Vec<u8>, address: usize, need: usize) -> (r: Result<&'a [u8], RomError>)
    ensures
        match r {
            Result::Ok(s) => pc_of(address as int) + need <= rom@.len() && s@ == rom@.skip(
                pc_of(address as int),
            ),
            Result::Err(e) => e == RomError::MalformedRecord && pc_of(address as int) + need
                > rom@.len(),
        },
{
    let pc = Pc::from(LoRom { address });
    if pc.address > rom.len() || rom.len() - pc.address < need {
        return Err(RomError::MalformedRecord);
    }
    Ok(rom.offset(pc))
}

/// Decompress the blob standing at banked `address`.
fn decompress_at(rom: &Vec<u8>, address: usize) -> (r: Result<Vec<u8>, RomError>)
    ensures
        match r {
            Result::Ok(b) => decompressed_at(rom@, address) == Some(b@),
            Result::Err(e) => (e == RomError::MalformedCompressedStream || e
                == RomError::MalformedRecord) && decompressed_at(rom@, address) is None,
        },
{
    let s = match suffix_at(rom, address, 0) {
        Result::Ok(s) => s,
        Result::Err(e) => {
            return Err(e);
        },
    };
    match crate::lz5_decompress::decompress(s) {
        Result::Ok(b) => Ok(b),
        Result::Err(_) => Err(RomError::MalformedCompressedStream),
    }
}

/// A value found in a bounded relocation table is itself bounded.
proof fn lemma_remap_values_bounded(s: Seq<(usize, usize)>, k: usize)
    requires
        forall|i: int| 0 <= i < s.len() ==> (#[trigger] s[i]).1 < 0x100_0000,
        crate::address_map::entries_get(s, k) is Some,
    ensures
        crate::address_map::entries_get(s, k)->Some_0 < 0x100_0000,
    decreases s.len(),
{
    if s.len() > 0 {
        if s[0].0 == k {
        } else {
            let d = s.drop_first();
            assert forall|i: int| 0 <= i < d.len() implies (#[trigger] d[i]).1 < 0x100_0000 by {
                assert(d[i] == s[i + 1]);
            }
            lemma_remap_values_bounded(s.drop_first(), k);
        }
    }
}


/// Every stored palette decodes from the image under its key.
pub open spec fn palettes_all_ok(rom: Seq<u8>, m: AddressMap<Palette>) -> bool {
    forall|e: int|
        0 <= e < m.entries@.len() ==> palette_entry_ok(
            rom,
            (#[trigger] m.entries@[e]).0,
            m.entries@[e].1,
        )
}

/// Every stored graphics sheet decodes from the image under its key.
pub open spec fn graphics_all_ok(rom: Seq<u8>, m: AddressMap<Gfx>) -> bool {
    forall|e: int|
        0 <= e < m.entries@.len() ==> gfx_entry_ok(
            rom,
            (#[trigger] m.entries@[e]).0,
            m.entries@[e].1,
        )
}

/// Every stored tile table decodes from the image under its key.
pub open spec fn tile_tables_all_ok(rom: Seq<u8>, m: AddressMap<TileTable>) -> bool {
    forall|e: int|
        0 <= e < m.entries@.len() ==> tile_table_entry_ok(
            rom,
            (#[trigger] m.entries@[e]).0,
            m.entries@[e].1,
        )
}

/// Every stored level decodes from the image under its key.
pub open spec fn levels_all_ok(rom: Seq<u8>, m: AddressMap<LevelData>) -> bool {
    forall|e: int|
        0 <= e < m.entries@.len() ==> level_entry_ok(
            rom,
            (#[trigger] m.entries@[e]).0,
            m.entries@[e].1,
        )
}

/// Every stored room decodes from the image under its key.
pub open spec fn rooms_all_ok(rom: Seq<u8>, m: AddressMap<Room>) -> bool {
    forall|e: int|
        0 <= e < m.entries@.len() ==> room_entry_ok(
            rom,
            (#[trigger] m.entries@[e]).0,
            m.entries@[e].1,
        )
}

/// Every stored state decodes from the image under its key.
pub open spec fn states_all_ok(rom: Seq<u8>, m: AddressMap<State>) -> bool {
    forall|e: int|
        0 <= e < m.entries@.len() ==> state_entry_ok(
            rom,
            (#[trigger] m.entries@[e]).0,
            m.entries@[e].1,
        )
}

/// Every stored door list matches a root-table entry and the pointer
/// run at its in-bank address.
pub open spec fn door_lists_all_ok(
    rom: Seq<u8>,
    table: Seq<(usize, u16)>,
    m: AddressMap<DoorList>,
) -> bool {
    forall|e: int|
        0 <= e < m.entries@.len() ==> exists|k: int|
            {
                let key = (#[trigger] m.entries@[e]).0;
                let dl = m.entries@[e].1;
                &&& 0 <= k < table.len()
                &&& (#[trigger] table[k]).1 as usize == key
                &&& dl@.len() == table[k].0
                &&& pc_of(0x8F_0000 + key as int) + 2 * dl@.len() <= rom.len()
                &&& forall|j: int|
                    0 <= j < dl@.len() ==> #[trigger] dl@[j] == le16_at(
                        rom.skip(pc_of(0x8F_0000 + key as int)),
                        2 * j,
                    )
            }
}

/// The door map holds the `count` records standing at `base`, keyed by
/// their banked addresses.
pub open spec fn doors_loaded_ok(rom: Seq<u8>, count: int, base: usize, m: AddressMap<Door>) -> bool {
    &&& m.entries@.len() == count
    &&& pc_of(base as int) + 12 * count <= rom.len()
    &&& forall|i: int|
        0 <= i < m.entries@.len() ==> (#[trigger] m.entries@[i]).0 == base + 12 * i
            && m.entries@[i].1 == crate::door::door_at(rom.skip(pc_of(base as int)), 12 * i)
}

/// The per-area station slices match the offset table and records in
/// the image.
pub open spec fn stations_loaded_ok(
    rom: Seq<u8>,
    st_addr: usize,
    li_addr: usize,
    areas: int,
    out: Seq<Vec<SaveStation>>,
) -> bool {
    let st = rom.skip(pc_of(st_addr as int));
    let li = rom.skip(pc_of(li_addr as int));
    &&& out.len() == areas - 1
    &&& forall|a: int|
        0 <= a < areas - 1 ==> 14 * (#[trigger] out[a])@.len() == crate::save_station::area_offset(
            li,
            a + 1,
        ) - crate::save_station::area_offset(li, a)
    &&& forall|a: int, k: int|
        0 <= a < areas - 1 && 0 <= k < out[a]@.len() ==> #[trigger] out[a]@[k]
            == crate::save_station::station_at(
            st,
            crate::save_station::area_offset(li, a) - crate::save_station::area_offset(li, 0) + 14
                * k,
        )
}

/// Decode every resource the tileset table names, once per address.
fn load_resources(rom: &Vec<u8>, tilesets: &Vec<Tileset>) -> (r: Result<
    (AddressMap<Palette>, AddressMap<Gfx>, AddressMap<TileTable>),
    RomError,
>)
    ensures
        r matches Ok(maps) ==> {
            &&& maps.0.wf() && palettes_all_ok(rom@, maps.0)
            &&& maps.1.wf() && graphics_all_ok(rom@, maps.1)
            &&& maps.2.wf() && tile_tables_all_ok(rom@, maps.2)
            &&& forall|k: int|
                0 <= k < tilesets@.len() ==> maps.0.contains(
                    (#[trigger] tilesets@[k]).palette as usize,
                ) && maps.1.contains(tilesets@[k].graphic as usize) && maps.2.contains(
                    tilesets@[k].tile_table as usize,
                )
        },
        r matches Err(e) ==> e == RomError::MalformedCompressedStream || e
            == RomError::MalformedRecord,
        resources_loadable(rom@, tilesets@) ==> r is Ok,
{
    let mut palettes: AddressMap<Palette> = AddressMap::new();
    let mut graphics: AddressMap<Gfx> = AddressMap::new();
    let mut tile_tables: AddressMap<TileTable> = AddressMap::new();
    let tn = tilesets.len();
    let mut ti: usize = 0;
    while ti < tn
        invariant
            ti <= tn,
            tn == tilesets@.len(),
            palettes.wf() && palettes_all_ok(rom@, palettes),
            graphics.wf() && graphics_all_ok(rom@, graphics),
            tile_tables.wf() && tile_tables_all_ok(rom@, tile_tables),
            forall|k: int|
                0 <= k < ti ==> palettes.contains((#[trigger] tilesets@[k]).palette as usize)
                    && graphics.contains(tilesets@[k].graphic as usize) && tile_tables.contains(
                    tilesets@[k].tile_table as usize,
                ),
        decreases tn - ti,
    {
        let ts = tilesets[ti];
        let pa = ts.palette as usize;
        if !palettes.contains_key(pa) {
            let blob = match decompress_at(rom, pa) {
                Result::Ok(b) => b,
                Result::Err(e) => {
                    proof {
                        assert(!palette_loadable(rom@, pa));
                    }
                    return Err(e);
                },
            };
            let pal = match crate::palette::from_bytes(blob.as_slice()) {
                Result::Ok(p) => p,
                Result::Err(_) => {
                    proof {
                        assert(!palette_loadable(rom@, pa));
                    }
                    return Err(RomError::MalformedRecord);
                },
            };
            let ghost pre = palettes.entries@;
            palettes.insert(pa, pal);
            proof {
                crate::address_map::lemma_entries_get_push(pre, pa, pal);
            }
        }
        let ga = ts.graphic as usize;
        if !graphics.contains_key(ga) {
            let blob = match decompress_at(rom, ga) {
                Result::Ok(b) => b,
                Result::Err(e) => {
                    proof {
                        assert(!gfx_loadable(rom@, ga));
                    }
                    return Err(e);
                },
            };
            if blob.len() % 32 != 0 {
                proof {
                    assert(!gfx_loadable(rom@, ga));
                }
                return Err(RomError::MalformedRecord);
            }
            let g = crate::gfx::from_4bpp(blob.as_slice());
            let ghost pre = graphics.entries@;
            graphics.insert(ga, g);
            proof {
                crate::address_map::lemma_entries_get_push(pre, ga, graphics.entries@.last().1);
            }
        }
        let ta = ts.tile_table as usize;
        if !tile_tables.contains_key(ta) {
            let blob = match decompress_at(rom, ta) {
                Result::Ok(b) => b,
                Result::Err(e) => {
                    proof {
                        assert(!tile_table_loadable(rom@, ta));
                    }
                    return Err(e);
                },
            };
            let tt = crate::tile_table::from_bytes(blob.as_slice());
            let ghost pre = tile_tables.entries@;
            tile_tables.insert(ta, tt);
            proof {
                crate::address_map::lemma_entries_get_push(
                    pre,
                    ta,
                    tile_tables.entries@.last().1,
                );
            }
        }
        ti += 1;
    }
    Ok((palettes, graphics, tile_tables))
}

/// Decode every room the root list names, once per address.
fn load_rooms(rom: &Vec<u8>, roots: &RomRoots) -> (r: Result<AddressMap<Room>, RomError>)
    ensures
        r matches Ok(rooms) ==> {
            &&& rooms.wf() && rooms_all_ok(rom@, rooms)
            &&& forall|e: int|
                0 <= e < rooms.entries@.len() ==> roots.rooms@.contains(
                    (#[trigger] rooms.entries@[e]).0,
                )
        },
        r matches Err(e) ==> e == RomError::MalformedCompressedStream || e
            == RomError::MalformedRecord,
        (forall|k: int|
            0 <= k < roots.rooms@.len() ==> room_loadable(rom@, #[trigger] roots.rooms@[k]))
            ==> r is Ok,
{
    let mut rooms: AddressMap<Room> = AddressMap::new();
    let rn = roots.rooms.len();
    let mut ri: usize = 0;
    while ri < rn
        invariant
            ri <= rn,
            rn == roots.rooms@.len(),
            rooms.wf() && rooms_all_ok(rom@, rooms),
            forall|e: int|
                0 <= e < rooms.entries@.len() ==> roots.rooms@.contains(
                    (#[trigger] rooms.entries@[e]).0,
                ),
        decreases rn - ri,
    {
        let address = roots.rooms[ri];
        if !rooms.contains_key(address) {
            let s = match suffix_at(rom, address, 11) {
                Result::Ok(s) => s,
                Result::Err(e) => {
                    proof {
                        assert(!room_loadable(rom@, address));
                        assert(roots.rooms@[ri as int] == address);
                    }
                    return Err(e);
                },
            };
            let room = match crate::room::from_bytes(address as u16, s) {
                Result::Ok(r) => r,
                Result::Err(_) => {
                    proof {
                        assert(s@.skip(11) =~= rom@.skip(pc_of(address as int)).skip(11));
                        assert(!room_loadable(rom@, address));
                        assert(roots.rooms@[ri as int] == address);
                    }
                    return Err(RomError::MalformedRecord);
                },
            };
            let ghost pre = rooms.entries@;
            rooms.insert(address, room);
            proof {
                crate::address_map::lemma_entries_get_push(pre, address, rooms.entries@.last().1);
                assert(roots.rooms@[ri as int] == address);
            }
        }
        ri += 1;
    }
    Ok(rooms)
}

/// Walk every room's condition chain: decode each named state once, and
/// each state's level once; a level that does not decode is skipped.
fn load_states_and_levels(rom: &Vec<u8>, rooms: &AddressMap<Room>) -> (r: Result<
    (AddressMap<State>, AddressMap<LevelData>),
    RomError,
>)
    ensures
        r matches Ok(maps) ==> {
            &&& maps.0.wf() && states_all_ok(rom@, maps.0)
            &&& maps.1.wf() && levels_all_ok(rom@, maps.1)
        },
        r matches Err(e) ==> e == RomError::MalformedCompressedStream || e
            == RomError::MalformedRecord,
        (forall|e: int|
            0 <= e < rooms.entries@.len() ==> room_states_loadable(
                rom@,
                (#[trigger] rooms.entries@[e]).1,
            )) ==> r is Ok,
{
    let mut states: AddressMap<State> = AddressMap::new();
    let mut levels: AddressMap<LevelData> = AddressMap::new();
    let rooms_n = rooms.len();
    let mut ri: usize = 0;
    while ri < rooms_n
        invariant
            ri <= rooms_n,
            rooms_n == rooms.entries@.len(),
            states.wf() && states_all_ok(rom@, states),
            levels.wf() && levels_all_ok(rom@, levels),
        decreases rooms_n - ri,
    {
        let room = rooms.entry_at(ri).1;
        let cn = room.state_conditions.len();
        let mut ci: usize = 0;
        while ci < cn
            invariant
                ci <= cn,
                cn == room.state_conditions@.len(),
                ri < rooms.entries@.len(),
                *room == rooms.entries@[ri as int].1,
                states.wf() && states_all_ok(rom@, states),
                levels.wf() && levels_all_ok(rom@, levels),
            decreases cn - ci,
        {
            let state_address = room.state_conditions[ci].state_address as usize;
            if !states.contains_key(state_address) {
                let s = match suffix_at(rom, 0x8F_0000 + state_address, 26) {
                    Result::Ok(s) => s,
                    Result::Err(e) => {
                        proof {
                            assert(!state_loadable(rom@, state_address));
                            assert(room.state_conditions@[ci as int].state_address as usize
                                == state_address);
                            assert(!room_states_loadable(rom@, *room));
                            assert(*room == rooms.entries@[ri as int].1);
                        }
                        return Err(e);
                    },
                };
                let st = crate::state::load_bytes(s);
                let ghost pre = states.entries@;
                states.insert(state_address, st);
                proof {
                    crate::address_map::lemma_entries_get_push(pre, state_address, st);
                }
            }
            let st = match states.get(state_address) {
                Option::Some(st) => *st,
                Option::None => {
                    proof {
                        assert(false);
                    }
                    unreached()
                },
            };
            let level_address = st.level_address as usize;
            if !levels.contains_key(level_address) {
                match decompress_at(rom, level_address) {
                    Result::Ok(blob) => {
                        let has_layer2 = st.layer_2_x_scroll & st.layer_2_y_scroll & 1 == 0;
                        match crate::level_data::load_from_bytes(blob.as_slice(), has_layer2) {
                            Result::Ok(level) => {
                                let ghost pre = levels.entries@;
                                levels.insert(level_address, level);
                                proof {
                                    crate::address_map::lemma_entries_get_push(
                                        pre,
                                        level_address,
                                        levels.entries@.last().1,
                                    );
                                }
                            },
                            Result::Err(_) => {},
                        }
                    },
                    Result::Err(_) => {},
                }
            }
            ci += 1;
        }
        ri += 1;
    }
    Ok((states, levels))
}

/// Decode every door list the root table names, once per address.
fn load_door_lists(rom: &Vec<u8>, roots: &RomRoots) -> (r: Result<AddressMap<DoorList>, RomError>)
    ensures
        r matches Ok(door_lists) ==> door_lists.wf() && door_lists_all_ok(
            rom@,
            roots.door_lists@,
            door_lists,
        ),
        r matches Err(e) ==> e == RomError::MalformedCompressedStream || e
            == RomError::MalformedRecord,
        door_lists_loadable(rom@, roots.door_lists@) ==> r is Ok,
{
    let mut door_lists: AddressMap<DoorList> = AddressMap::new();
    let dln = roots.door_lists.len();
    let mut di: usize = 0;
    while di < dln
        invariant
            di <= dln,
            dln == roots.door_lists@.len(),
            door_lists.wf(),
            door_lists_all_ok(rom@, roots.door_lists@, door_lists),
        decreases dln - di,
    {
        let (count, addr16) = roots.door_lists[di];
        let key = addr16 as usize;
        if !door_lists.contains_key(key) {
            let s = match suffix_at(rom, 0x8F_0000 + key, 0) {
                Result::Ok(s) => s,
                Result::Err(e) => {
                    proof {
                        assert(roots.door_lists@[di as int].1 as usize == key);
                    }
                    return Err(e);
                },
            };
            if s.len() / 2 < count {
                proof {
                    assert(2 * count > s@.len()) by (nonlinear_arith)
                        requires
                            s@.len() as int / 2 < count,
                    ;
                    assert(roots.door_lists@[di as int].1 as usize == key);
                }
                return Err(RomError::MalformedRecord);
            }
            proof {
                assert(count * 2 <= s@.len()) by (nonlinear_arith)
                    requires
                        s@.len() as int / 2 >= count,
                ;
            }
            let dl = crate::door_list::load_bytes(count, s);
            let ghost pre = door_lists.entries@;
            door_lists.insert(key, dl);
            proof {
                crate::address_map::lemma_entries_get_push(
                    pre,
                    key,
                    door_lists.entries@.last().1,
                );
                assert(roots.door_lists@[di as int].1 as usize == key);
            }
        }
        di += 1;
    }
    Ok(door_lists)
}

/// Decode the door records, keyed by their banked addresses in record
/// order.
fn load_doors(rom: &Vec<u8>, roots: &RomRoots) -> (r: Result<AddressMap<Door>, RomError>)
    requires
        rom@.len() <= 0x40_0000,
    ensures
        r matches Ok(doors) ==> doors.wf() && doors_loaded_ok(
            rom@,
            roots.doors.0 as int,
            roots.doors.1,
            doors,
        ),
        r matches Err(e) ==> e == RomError::MalformedCompressedStream || e
            == RomError::MalformedRecord,
        doors_loadable(rom@, roots.doors.0 as int, roots.doors.1) ==> r is Ok,
{
    let mut doors: AddressMap<Door> = AddressMap::new();
    let door_count = roots.doors.0;
    let doors_base = roots.doors.1;
    if doors_base > 0xFF_FFFF {
        return Err(RomError::MalformedRecord);
    }
    let doors_slice = match suffix_at(rom, doors_base, 0) {
        Result::Ok(s) => s,
        Result::Err(e) => {
            return Err(e);
        },
    };
    if doors_slice.len() / 12 < door_count {
        proof {
            assert(12 * door_count > doors_slice@.len()) by (nonlinear_arith)
                requires
                    doors_slice@.len() as int / 12 < door_count,
            ;
        }
        return Err(RomError::MalformedRecord);
    }
    proof {
        assert(door_count * 12 <= doors_slice@.len()) by (nonlinear_arith)
            requires
                doors_slice@.len() as int / 12 >= door_count,
        ;
    }
    let door_records = crate::door::load_bytes(door_count, doors_slice);
    let dslen = doors_slice.len();
    let mut doi: usize = 0;
    while doi < door_count
        invariant
            doi <= door_count,
            door_count == door_records@.len(),
            doors_base <= 0xFF_FFFF,
            rom@.len() <= 0x40_0000,
            dslen <= rom@.len(),
            door_count * 12 <= dslen,
            forall|i: int|
                0 <= i < door_count ==> #[trigger] door_records@[i] == crate::door::door_at(
                    rom@.skip(pc_of(doors_base as int)),
                    12 * i,
                ),
            doors.wf(),
            doors.entries@.len() == doi,
            forall|i: int|
                0 <= i < doi ==> (#[trigger] doors.entries@[i]).0 == doors_base + 12 * i
                    && doors.entries@[i].1 == door_records@[i],
        decreases door_count - doi,
    {
        proof {
            crate::address_map::lemma_entries_contain_iff_index(
                doors.entries@,
                (doors_base + 12 * doi) as usize,
            );
        }
        doors.insert(doors_base + 12 * doi, door_records[doi]);
        doi += 1;
    }
    Ok(doors)
}

/// Decode the per-area save stations behind the area-offset table.
#[verifier::rlimit(100)]
fn load_save_stations(rom: &Vec<u8>, roots: &RomRoots) -> (r: Result<
    Vec<Vec<SaveStation>>,
    RomError,
>)
    ensures
        r matches Ok(out) ==> stations_loaded_ok(
            rom@,
            roots.save_stations,
            roots.save_station_list,
            roots.number_of_areas as int,
            out@,
        ),
        r matches Err(e) ==> e == RomError::MalformedCompressedStream || e
            == RomError::MalformedRecord,
        stations_loadable(
            rom@,
            roots.save_stations,
            roots.save_station_list,
            roots.number_of_areas as int,
        ) ==> r is Ok,
{
    if roots.number_of_areas < 1 || roots.number_of_areas > 0x8000 {
        return Err(RomError::MalformedRecord);
    }
    let areas = roots.number_of_areas;
    let list_slice = match suffix_at(rom, roots.save_station_list, 2 * areas) {
        Result::Ok(s) => s,
        Result::Err(e) => {
            return Err(e);
        },
    };
    let stations_slice = match suffix_at(rom, roots.save_stations, 0) {
        Result::Ok(s) => s,
        Result::Err(e) => {
            return Err(e);
        },
    };
    let llen = list_slice.len();
    let mut ai: usize = 0;
    while ai < areas - 1
        invariant
            ai <= areas - 1,
            1 <= areas,
            areas == roots.number_of_areas,
            list_slice@ == rom@.skip(pc_of(roots.save_station_list as int)),
            2 * areas <= llen,
            llen == list_slice@.len(),
            forall|a: int|
                0 <= a < ai ==> #[trigger] crate::save_station::area_offset(list_slice@, a)
                    <= crate::save_station::area_offset(list_slice@, a + 1)
                    && (crate::save_station::area_offset(list_slice@, a + 1)
                    - crate::save_station::area_offset(list_slice@, a)) % 14 == 0,
        decreases areas - 1 - ai,
    {
        let here = crate::read_le16(list_slice, 2 * ai);
        let next = crate::read_le16(list_slice, 2 * ai + 2);
        if here > next || (next - here) % 14 != 0 {
            proof {
                if crate::save_station::area_table_wf(list_slice@, areas as int) {
                    crate::save_station::lemma_area_step(list_slice@, areas as int, ai as int);
                }
            }
            return Err(RomError::MalformedRecord);
        }
        ai += 1;
    }
    proof {
        reveal(crate::save_station::area_table_wf);
        assert(crate::save_station::area_table_wf(list_slice@, areas as int));
    }
    let first = crate::read_le16(list_slice, 0) as usize;
    let last = crate::read_le16(list_slice, 2 * (areas - 1)) as usize;
    if last < first || stations_slice.len() < last - first {
        return Err(RomError::MalformedRecord);
    }
    Ok(crate::save_station::load_all_from_list(stations_slice, list_slice, areas))
}

/// Decode the 29-entry tileset table standing at its root address.
fn load_tileset_table(rom: &Vec<u8>, roots: &RomRoots) -> (r: Result<Vec<Tileset>, RomError>)
    ensures
        r matches Ok(tilesets) ==> {
            &&& pc_of(roots.tilesets as int) + 261 <= rom@.len()
            &&& tilesets@.len() == 29
            &&& forall|i: int|
                0 <= i < 29 ==> #[trigger] tilesets@[i] == tileset_at(
                    rom@.skip(pc_of(roots.tilesets as int)),
                    i,
                )
            &&& tilesets@ == Seq::new(
                29,
                |i: int| tileset_at(rom@.skip(pc_of(roots.tilesets as int)), i),
            )
        },
        r matches Err(e) ==> e == RomError::MalformedRecord && pc_of(roots.tilesets as int) + 261
            > rom@.len(),
{
    let table_slice = match suffix_at(rom, roots.tilesets, 261) {
        Result::Ok(s) => s,
        Result::Err(_) => {
            return Err(RomError::MalformedRecord);
        },
    };
    let table_exact = vstd::slice::slice_subrange(table_slice, 0, 261);
    let tilesets = crate::tileset::from_bytes(table_exact);
    proof {
        let sk = rom@.skip(pc_of(roots.tilesets as int));
        assert forall|i: int| 0 <= i < 29 implies #[trigger] tilesets@[i] == tileset_at(
            sk,
            i,
        ) by {
            assert(table_exact@[9 * i] == sk[9 * i] && table_exact@[9 * i + 1] == sk[9 * i + 1]
                && table_exact@[9 * i + 2] == sk[9 * i + 2] && table_exact@[9 * i + 3] == sk[9 * i
                + 3] && table_exact@[9 * i + 4] == sk[9 * i + 4] && table_exact@[9 * i + 5] == sk[9
                * i + 5] && table_exact@[9 * i + 6] == sk[9 * i + 6] && table_exact@[9 * i + 7]
                == sk[9 * i + 7] && table_exact@[9 * i + 8] == sk[9 * i + 8]);
            assert(le24_at(table_exact@, 9 * i) == le24_at(sk, 9 * i) && le24_at(
                table_exact@,
                9 * i + 3,
            ) == le24_at(sk, 9 * i + 3) && le24_at(table_exact@, 9 * i + 6) == le24_at(
                sk,
                9 * i + 6,
            ));
        }
        assert(tilesets@ =~= Seq::new(29, |i: int| tileset_at(sk, i)));
    }
    Ok(tilesets)
}

/// Under a loadable image, every loaded room's chain names only states
/// that lie inside the image.
proof fn lemma_rooms_states_loadable(rom: Seq<u8>, roots: RomRoots, rooms: AddressMap<Room>)
    requires
        rom_loadable(rom, roots),
        rooms_all_ok(rom, rooms),
        forall|e: int|
            0 <= e < rooms.entries@.len() ==> roots.rooms@.contains(
                (#[trigger] rooms.entries@[e]).0,
            ),
    ensures
        forall|e: int|
            0 <= e < rooms.entries@.len() ==> room_states_loadable(
                rom,
                (#[trigger] rooms.entries@[e]).1,
            ),
{
    assert forall|e: int| 0 <= e < rooms.entries@.len() implies room_states_loadable(
        rom,
        (#[trigger] rooms.entries@[e]).1,
    ) by {
        let a = rooms.entries@[e].0;
        let room = rooms.entries@[e].1;
        assert(room_entry_ok(rom, a, room));
        assert(roots.rooms@.contains(a));
        let k = choose|k: int| 0 <= k < roots.rooms@.len() && roots.rooms@[k] == a;
        assert(room_loadable(rom, #[trigger] roots.rooms@[k]));
        assert(state_conditions_spec((a as u16) as int + 11, rom.skip(pc_of(a as int)).skip(11))
            == Some(room.state_conditions@));
        assert forall|j: int| 0 <= j < room.state_conditions@.len() implies state_loadable(
            rom,
            (#[trigger] room.state_conditions@[j]).state_address as usize,
        ) by {
            assert(state_conditions_spec(
                (roots.rooms@[k] as u16) as int + 11,
                rom.skip(pc_of(roots.rooms@[k] as int)).skip(11),
            )->Some_0[j] == room.state_conditions@[j]);
        }
    }
}

/// Build the object graph from an unheadered image: check the digest,
/// decode the tileset table and every resource it names once per
/// address, the shared common-resource pair, the rooms with their
/// condition chains, the states those chains name and the level each
/// state names (a level that fails to decode is skipped), the door
/// lists, the doors, and the save stations.
#[verifier::rlimit(100)]
pub fn load_unheadered_rom(data: Vec<u8>, roots: &RomRoots) -> (r: Result<SuperMetroid, RomError>)
    requires
        data@.len() <= 0x40_0000,
    ensures
        r == Err::<SuperMetroid, RomError>(RomError::ChecksumMismatch) <==> md5_of(data@)
            != unheadered_md5_seq(),
        // A load is owed whenever the digest matches and every root
        // record decodes.
        rom_loadable(data@, *roots) ==> r is Ok,
        r matches Ok(sm) ==> {
            &&& sm.rom@ == data@
            &&& sm.tileset_table_address == roots.tilesets
            &&& sm.tilesets@.len() == crate::tileset::NUMBER_OF_TILESETS
            &&& pc_of(roots.tilesets as int) + 261 <= sm.rom@.len()
            &&& forall|i: int|
                0 <= i < sm.tilesets@.len() ==> #[trigger] sm.tilesets@[i] == tileset_at(
                    sm.rom@.skip(pc_of(roots.tilesets as int)),
                    i,
                )
            &&& forall|i: int|
                0 <= i < sm.tilesets@.len() ==> sm.palettes.contains(
                    (#[trigger] sm.tilesets@[i]).palette as usize,
                ) && sm.graphics.contains(sm.tilesets@[i].graphic as usize)
                    && sm.tile_tables.contains(sm.tilesets@[i].tile_table as usize)
            &&& sm.palettes.wf() && palettes_all_ok(sm.rom@, sm.palettes)
            &&& sm.graphics.wf() && graphics_all_ok(sm.rom@, sm.graphics)
            &&& sm.tile_tables.wf() && tile_tables_all_ok(sm.rom@, sm.tile_tables)
            &&& sm.levels.wf() && levels_all_ok(sm.rom@, sm.levels)
            &&& sm.rooms.wf() && rooms_all_ok(sm.rom@, sm.rooms)
            &&& sm.states.wf() && states_all_ok(sm.rom@, sm.states)
            &&& gfx_entry_ok(sm.rom@, roots.cre_gfx, sm.cre_gfx)
            &&& tile_table_entry_ok(sm.rom@, roots.cre_tileset, sm.cre_tileset)
            &&& forall|e: int|
                0 <= e < sm.rooms.entries@.len() ==> roots.rooms@.contains(
                    (#[trigger] sm.rooms.entries@[e]).0,
                )
            &&& sm.doors.wf() && doors_loaded_ok(
                sm.rom@,
                roots.doors.0 as int,
                roots.doors.1,
                sm.doors,
            )
            &&& sm.door_lists.wf() && door_lists_all_ok(sm.rom@, roots.door_lists@, sm.door_lists)
            &&& stations_loaded_ok(
                sm.rom@,
                roots.save_stations,
                roots.save_station_list,
                roots.number_of_areas as int,
                sm.save_stations@,
            )
        },
{
    let rom = data;
    if !rom_checksum_ok(&rom) {
        return Err(RomError::ChecksumMismatch);
    }
    // The tileset table.
    let tilesets = match load_tileset_table(&rom, roots) {
        Result::Ok(t) => t,
        Result::Err(e) => {
            return Err(e);
        },
    };
    let (palettes, graphics, tile_tables) = match load_resources(&rom, &tilesets) {
        Result::Ok(maps) => maps,
        Result::Err(e) => {
            return Err(e);
        },
    };
    // The shared common-resource pair.
    let cre_gfx_blob = match decompress_at(&rom, roots.cre_gfx) {
        Result::Ok(b) => b,
        Result::Err(e) => {
            return Err(e);
        },
    };
    if cre_gfx_blob.len() % 32 != 0 {
        return Err(RomError::MalformedRecord);
    }
    let cre_gfx = crate::gfx::from_4bpp(cre_gfx_blob.as_slice());
    let cre_tileset_blob = match decompress_at(&rom, roots.cre_tileset) {
        Result::Ok(b) => b,
        Result::Err(e) => {
            return Err(e);
        },
    };
    let cre_tileset = crate::tile_table::from_bytes(cre_tileset_blob.as_slice());
    let rooms = match load_rooms(&rom, roots) {
        Result::Ok(m) => m,
        Result::Err(e) => {
            return Err(e);
        },
    };
    proof {
        if rom_loadable(rom@, *roots) {
            lemma_rooms_states_loadable(rom@, *roots, rooms);
        }
    }
    let (states, levels) = match load_states_and_levels(&rom, &rooms) {
        Result::Ok(maps) => maps,
        Result::Err(e) => {
            return Err(e);
        },
    };
    let door_lists = match load_door_lists(&rom, roots) {
        Result::Ok(m) => m,
        Result::Err(e) => {
            return Err(e);
        },
    };
    let doors = match load_doors(&rom, roots) {
        Result::Ok(m) => m,
        Result::Err(e) => {
            return Err(e);
        },
    };
    let save_stations = match load_save_stations(&rom, roots) {
        Result::Ok(v) => v,
        Result::Err(e) => {
            return Err(e);
        },
    };
    Ok(
        SuperMetroid {
            rom,
            cre_gfx,
            cre_tileset,
            tilesets,
            tileset_table_address: roots.tilesets,
            palettes,
            graphics,
            tile_tables,
            levels,
            rooms,
            states,
            doors,
            door_lists,
            save_stations,
        },
    )
}

} // verus!
