//! Room states: a fixed 26-byte record of pointers and play parameters,
//! pure field extraction.
use vstd::prelude::*;

use crate::{le16_at, le24_at};

verus! {

/// One room state.
#[derive(Debug, Default, Clone, Copy, PartialEq, Eq, Structural)]
pub struct State {
    /// Banked address of the compressed level data; only 24 bits used.
    pub level_address: u32,
    pub tileset: u8,
    pub music_data_index: u8,
    pub music_track: u8,
    pub fx: u16,
    pub enemy_population: u16,
    pub enemy_set: u16,
    pub layer_2_x_scroll: u8,
    pub layer_2_y_scroll: u8,
    pub scroll: u16,
    pub special_x_ray_blocks: u16,
    pub main_asm: u16,
    pub plm_population: u16,
    pub library_background: u16,
    pub setup_asm: u16,
}

/// `r` holds the fields packed at the head of `s`.
pub open spec fn is_decoded_state(s: Seq<u8>, r: State) -> bool {
    &&& r.level_address == le24_at(s, 0)
    &&& r.tileset == s[3]
    &&& r.music_data_index == s[4]
    &&& r.music_track == s[5]
    &&& r.fx == le16_at(s, 6)
    &&& r.enemy_population == le16_at(s, 8)
    &&& r.enemy_set == le16_at(s, 10)
    &&& r.layer_2_x_scroll == s[12]
    &&& r.layer_2_y_scroll == s[13]
    &&& r.scroll == le16_at(s, 14)
    &&& r.special_x_ray_blocks == le16_at(s, 16)
    &&& r.main_asm == le16_at(s, 18)
    &&& r.plm_population == le16_at(s, 20)
    &&& r.library_background == le16_at(s, 22)
    &&& r.setup_asm == le16_at(s, 24)
}

/// Decode the fixed-size state record at the head of `source`.
pub fn load_bytes(source: &[u8]) -> (r: State)
    requires
        source@.len() >= 26,
    ensures
        is_decoded_state(source@, r),
{
    State {
        level_address: crate::read_le24(source, 0),
        tileset: source[3],
        music_data_index: source[4],
        music_track: source[5],
        fx: crate::read_le16(source, 6),
        enemy_population: crate::read_le16(source, 8),
        enemy_set: crate::read_le16(source, 10),
        layer_2_x_scroll: source[12],
        layer_2_y_scroll: source[13],
        scroll: crate::read_le16(source, 14),
        special_x_ray_blocks: crate::read_le16(source, 16),
        main_asm: crate::read_le16(source, 18),
        plm_population: crate::read_le16(source, 20),
        library_background: crate::read_le16(source, 22),
        setup_asm: crate::read_le16(source, 24),
    }
}

} // verus!
