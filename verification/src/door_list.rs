//! Door lists: a counted run of little-endian 16-bit door pointers.
use vstd::prelude::*;

use crate::le16_at;

verus! {

pub type DoorList = Vec<u16>;

/// Decode `number_of_doors` door pointers.
pub fn load_bytes(number_of_doors: usize, source: &[u8]) -> (r: DoorList)
    requires
        number_of_doors * 2 <= source@.len(),
    ensures
        r@.len() == number_of_doors,
        forall|i: int| 0 <= i < number_of_doors ==> #[trigger] r@[i] == le16_at(source@, 2 * i),
{
    let len = source.len();
    let mut r: Vec<u16> = Vec::new();
    let mut i: usize = 0;
    while i < number_of_doors
        invariant
            i <= number_of_doors,
            number_of_doors * 2 <= len,
            len == source@.len(),
            r@.len() == i,
            forall|k: int| 0 <= k < i ==> #[trigger] r@[k] == le16_at(source@, 2 * k),
        decreases number_of_doors - i,
    {
        r.push(crate::read_le16(source, 2 * i));
        i += 1;
    }
    r
}

} // verus!
