//! Save stations: fixed 14-byte records, grouped into per-area slices
//! delimited by a table of area-start offsets.
use vstd::prelude::*;

use crate::le16_at;

verus! {

/// One save station.
#[derive(Debug, Default, Clone, Copy, PartialEq, Eq, Structural)]
pub struct SaveStation {
    pub room_pointer: u16,
    pub door_pointer: u16,
    pub door_bts: u16,
    pub screen_x_position: u16,
    pub screen_y_position: u16,
    /// Player offset relative to the screen top.
    pub samus_y_offset: u16,
    /// Player offset relative to the screen center.
    pub samus_x_offset: u16,
}

pub const SAVE_STATION_BYTE_SIZE: usize = 14;

/// The save station record starting at byte `off`.
pub open spec fn station_at(s: Seq<u8>, off: int) -> SaveStation {
    SaveStation {
        room_pointer: le16_at(s, off) as u16,
        door_pointer: le16_at(s, off + 2) as u16,
        door_bts: le16_at(s, off + 4) as u16,
        screen_x_position: le16_at(s, off + 6) as u16,
        screen_y_position: le16_at(s, off + 8) as u16,
        samus_y_offset: le16_at(s, off + 10) as u16,
        samus_x_offset: le16_at(s, off + 12) as u16,
    }
}

/// The start offset of area `a` in the station-list table.
pub open spec fn area_offset(addresses: Seq<u8>, a: int) -> int {
    le16_at(addresses, 2 * a)
}

/// Decode the fixed-size save-station record at the head of `bytes`.
pub fn load_bytes(bytes: &[u8]) -> (r: SaveStation)
    requires
        bytes@.len() >= 14,
    ensures
        r == station_at(bytes@, 0),
{
    SaveStation {
        room_pointer: crate::read_le16(bytes, 0),
        door_pointer: crate::read_le16(bytes, 2),
        door_bts: crate::read_le16(bytes, 4),
        screen_x_position: crate::read_le16(bytes, 6),
        screen_y_position: crate::read_le16(bytes, 8),
        samus_y_offset: crate::read_le16(bytes, 10),
        samus_x_offset: crate::read_le16(bytes, 12),
    }
}

impl SaveStation {
    /// Pack the record back to its 14 bytes; decoding them yields the
    /// record back.
    pub fn to_bytes(&self) -> (r: Vec<u8>)
        ensures
            r@.len() == 14,
            station_at(r@, 0) == *self,
    {
        let mut output: Vec<u8> = Vec::new();
        output.push((self.room_pointer % 256) as u8);
        output.push((self.room_pointer / 256) as u8);
        output.push((self.door_pointer % 256) as u8);
        output.push((self.door_pointer / 256) as u8);
        output.push((self.door_bts % 256) as u8);
        output.push((self.door_bts / 256) as u8);
        output.push((self.screen_x_position % 256) as u8);
        output.push((self.screen_x_position / 256) as u8);
        output.push((self.screen_y_position % 256) as u8);
        output.push((self.screen_y_position / 256) as u8);
        output.push((self.samus_y_offset % 256) as u8);
        output.push((self.samus_y_offset / 256) as u8);
        output.push((self.samus_x_offset % 256) as u8);
        output.push((self.samus_x_offset / 256) as u8);
        output
    }
}

/// A well-formed area table: offsets never step backward, and each
/// area's span is whole stations.
#[verifier::opaque]
pub open spec fn area_table_wf(addresses: Seq<u8>, count: int) -> bool {
    forall|a: int|
        0 <= a < count - 1 ==> #[trigger] area_offset(addresses, a) <= area_offset(addresses, a + 1)
            && (area_offset(addresses, a + 1) - area_offset(addresses, a)) % 14 == 0
}

/// One step of a well-formed table.
pub proof fn lemma_area_step(addresses: Seq<u8>, count: int, a: int)
    requires
        area_table_wf(addresses, count),
        0 <= a < count - 1,
    ensures
        area_offset(addresses, a) <= area_offset(addresses, a + 1),
        (area_offset(addresses, a + 1) - area_offset(addresses, a)) % 14 == 0,
{
    reveal(area_table_wf);
}

/// Area offsets never step backward across the table's span.
pub proof fn lemma_area_offsets_monotonic(addresses: Seq<u8>, count: int, i: int, j: int)
    requires
        0 <= i <= j < count,
        area_table_wf(addresses, count),
    ensures
        area_offset(addresses, i) <= area_offset(addresses, j),
    decreases j - i,
{
    if i < j {
        lemma_area_offsets_monotonic(addresses, count, i, j - 1);
        lemma_area_step(addresses, count, j - 1);
    }
}

/// Load the save stations of every area but the last: area `a` runs
/// from its table offset to the next area's, 14 bytes per station,
/// positioned in `bytes` relative to the first area's offset.
#[verifier::rlimit(60)]
pub fn load_all_from_list(bytes: &[u8], addresses: &[u8], number_of_areas: usize) -> (r: Vec<
    Vec<SaveStation>,
>)
    requires
        1 <= number_of_areas,
        number_of_areas * 2 <= addresses@.len(),
        area_table_wf(addresses@, number_of_areas as int),
        area_offset(addresses@, number_of_areas - 1) - area_offset(addresses@, 0) <= bytes@.len(),
    ensures
        r@.len() == number_of_areas - 1,
        forall|a: int|
            0 <= a < number_of_areas - 1 ==> 14 * (#[trigger] r@[a])@.len() == area_offset(
                addresses@,
                a + 1,
            ) - area_offset(addresses@, a),
        forall|a: int, k: int|
            0 <= a < number_of_areas - 1 && 0 <= k < r@[a]@.len() ==> #[trigger] r@[a]@[k]
                == station_at(
                bytes@,
                area_offset(addresses@, a) - area_offset(addresses@, 0) + 14 * k,
            ),
{
    let blen = bytes.len();
    let alen = addresses.len();
    let base = crate::read_le16(addresses, 0) as usize;
    let mut output: Vec<Vec<SaveStation>> = Vec::new();
    let mut area: usize = 0;
    while area < number_of_areas - 1
        invariant
            area <= number_of_areas - 1,
            number_of_areas * 2 <= alen,
            alen == addresses@.len(),
            blen == bytes@.len(),
            base == area_offset(addresses@, 0),
            area_table_wf(addresses@, number_of_areas as int),
            area_offset(addresses@, number_of_areas as int - 1) - area_offset(addresses@, 0)
                <= blen,
            output@.len() == area,
            forall|a: int|
                0 <= a < area ==> 14 * (#[trigger] output@[a])@.len() == area_offset(
                    addresses@,
                    a + 1,
                ) - area_offset(addresses@, a),
            forall|a: int, k: int|
                0 <= a < area && 0 <= k < output@[a]@.len() ==> #[trigger] output@[a]@[k]
                    == station_at(
                    bytes@,
                    area_offset(addresses@, a) - area_offset(addresses@, 0) + 14 * k,
                ),
        decreases number_of_areas - 1 - area,
    {
        let mut current_area_address = crate::read_le16(addresses, 2 * area) as usize;
        let next_area_address = crate::read_le16(addresses, 2 * (area + 1)) as usize;
        proof {
            lemma_area_offsets_monotonic(addresses@, number_of_areas as int, 0, area as int);
            lemma_area_step(addresses@, number_of_areas as int, area as int);
            lemma_area_offsets_monotonic(
                addresses@,
                number_of_areas as int,
                area as int + 1,
                number_of_areas as int - 1,
            );
        }
        let ghost a_start = current_area_address as int;
        let mut area_stations: Vec<SaveStation> = Vec::new();
        while current_area_address != next_area_address
            invariant
                blen == bytes@.len(),
                base <= a_start <= current_area_address <= next_area_address,
                next_area_address - base <= blen,
                (next_area_address - current_area_address) % 14 == 0,
                14 * area_stations@.len() == current_area_address - a_start,
                forall|k: int|
                    0 <= k < area_stations@.len() ==> #[trigger] area_stations@[k] == station_at(
                        bytes@,
                        a_start - base + 14 * k,
                    ),
            decreases next_area_address - current_area_address,
        {
            let off = current_area_address - base;
            let sub = vstd::slice::slice_subrange(bytes, off, off + 14);
            let station = load_bytes(sub);
            proof {
                assert(station_at(sub@, 0) == station_at(bytes@, off as int));
            }
            area_stations.push(station);
            current_area_address += SAVE_STATION_BYTE_SIZE;
        }
        output.push(area_stations);
        area += 1;
    }
    output
}

} // verus!
