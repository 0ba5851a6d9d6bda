//! Doors: fixed 12-byte records naming a destination room and where the
//! transit lands.
use vstd::prelude::*;

use crate::le16_at;

verus! {

/// One door record.
#[derive(Debug, Default, Clone, Copy, PartialEq, Eq, Structural)]
pub struct Door {
    /// Destination room header pointer within its bank.
    pub destination_room: u16,
    pub elevator_property: u8,
    pub orientation: u8,
    pub x_low_byte: u8,
    pub y_low_byte: u8,
    pub x_high_byte: u8,
    pub y_high_byte: u8,
    /// Distance from the door at which the player spawns.
    pub samus_door_distance: u16,
    /// Pointer to custom code run on transit.
    pub custom_asm: u16,
}

pub const DOOR_BYTE_SIZE: usize = 12;

/// The door record starting at byte `off`.
pub open spec fn door_at(s: Seq<u8>, off: int) -> Door {
    Door {
        destination_room: le16_at(s, off) as u16,
        elevator_property: s[off + 2],
        orientation: s[off + 3],
        x_low_byte: s[off + 4],
        y_low_byte: s[off + 5],
        x_high_byte: s[off + 6],
        y_high_byte: s[off + 7],
        samus_door_distance: le16_at(s, off + 8) as u16,
        custom_asm: le16_at(s, off + 10) as u16,
    }
}

/// Decode `number_of_doors` consecutive door records.
pub fn load_bytes(number_of_doors: usize, source: &[u8]) -> (r: Vec<Door>)
    requires
        number_of_doors * 12 <= source@.len(),
    ensures
        r@.len() == number_of_doors,
        forall|i: int| 0 <= i < number_of_doors ==> #[trigger] r@[i] == door_at(source@, 12 * i),
{
    let len = source.len();
    let mut r: Vec<Door> = Vec::new();
    let mut i: usize = 0;
    while i < number_of_doors
        invariant
            i <= number_of_doors,
            number_of_doors * 12 <= len,
            len == source@.len(),
            r@.len() == i,
            forall|k: int| 0 <= k < i ==> #[trigger] r@[k] == door_at(source@, 12 * k),
        decreases number_of_doors - i,
    {
        proof {
            assert(12 * i + 12 <= len) by (nonlinear_arith)
                requires
                    i < number_of_doors,
                    number_of_doors * 12 <= len,
            ;
        }
        let off = 12 * i;
        r.push(
            Door {
                destination_room: crate::read_le16(source, off),
                elevator_property: source[off + 2],
                orientation: source[off + 3],
                x_low_byte: source[off + 4],
                y_low_byte: source[off + 5],
                x_high_byte: source[off + 6],
                y_high_byte: source[off + 7],
                samus_door_distance: crate::read_le16(source, off + 8),
                custom_asm: crate::read_le16(source, off + 10),
            },
        );
        i += 1;
    }
    r
}

} // verus!
