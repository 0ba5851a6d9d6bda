//! Translation between the cartridge's banked addressing scheme and a
//! flat linear offset into the byte image.
//!
//! A banked address is a 24-bit value whose high bank bit is mirrored:
//! banks 0x00-0x7F alias banks 0x80-0xFF. In every bank only the upper
//! half 0x8000-0xFFFF addresses image bytes, so each bank contributes
//! 0x8000 bytes to the flat offset. The inverse always canonicalizes
//! into the mirrored half (bank 0x80 upward).
use vstd::prelude::*;

verus! {

/// A banked cartridge address.
#[derive(Debug, Clone, Copy, PartialEq, Eq, Structural)]
pub struct LoRom {
    pub address: usize,
}

/// A flat linear offset into the byte image.
#[derive(Debug, Clone, Copy, PartialEq, Eq, Structural)]
pub struct Pc {
    pub address: usize,
}

/// The flat offset that a banked address denotes: the mirror bit and
/// any bits above the 24-bit range are ignored, and each bank maps its
/// upper half onto a 0x8000-byte span.
pub open spec fn pc_of(banked: int) -> int {
    (banked / 0x1_0000) % 0x80 * 0x8000 + banked % 0x8000
}

/// The canonical banked address of a flat offset, always in the
/// mirrored region (bank 0x80 upward).
pub open spec fn lorom_of(linear: int) -> int {
    0x80_0000 + linear / 0x8000 * 0x1_0000 + 0x8000 + linear % 0x8000
}

/// Every translated offset fits the 0x80-bank * 0x8000-byte image.
pub proof fn lemma_pc_of_in_range(banked: int)
    requires
        banked >= 0,
    ensures
        0 <= pc_of(banked) < 0x40_0000,
{
}

/// Canonicalization is right-inverse to translation: the banked
/// address written for a flat offset denotes that same offset, even
/// though an aliased input bank is not restored.
pub proof fn lemma_lorom_of_round_trip(linear: int)
    requires
        0 <= linear < 0x40_0000,
    ensures
        0x80_8000 <= lorom_of(linear) < 0x100_0000,
        lorom_of(linear) % 0x1_0000 >= 0x8000,
        pc_of(lorom_of(linear)) == linear,
{
    let banks = linear / 0x8000;
    let rest = linear % 0x8000;
    let b = lorom_of(linear);
    assert(0 <= banks < 0x80 && 0 <= rest < 0x8000);
    assert(b == 0x80_0000 + banks * 0x1_0000 + 0x8000 + rest);
    assert(b / 0x1_0000 == 0x80 + banks && b % 0x8000 == rest && b % 0x1_0000 == 0x8000 + rest)
        by (nonlinear_arith)
        requires
            b == 0x80_0000 + banks * 0x1_0000 + 0x8000 + rest,
            0 <= banks < 0x80,
            0 <= rest < 0x8000,
    ;
}

impl Pc {
    /// Translate a banked address to its flat offset.
    pub fn from(lo_rom: LoRom) -> (r: Pc)
        ensures
            r.address == pc_of(lo_rom.address as int),
            r.address < 0x40_0000,
    {
        let number_of_banks = (lo_rom.address / 0x1_0000) % 0x80;
        let offset = lo_rom.address % 0x8000;
        proof {
            lemma_pc_of_in_range(lo_rom.address as int);
        }
        Pc {
            address: number_of_banks * 0x8000 + offset,
        }
    }
}

impl LoRom {
    /// Write a flat offset as a canonical banked address in the
    /// mirrored region; translating the result back yields the input.
    pub fn from(pc: Pc) -> (r: LoRom)
        requires
            pc.address < 0x40_0000,
        ensures
            r.address == lorom_of(pc.address as int),
            0x80_8000 <= r.address < 0x100_0000,
            r.address % 0x1_0000 >= 0x8000,
            pc_of(r.address as int) == pc.address,
    {
        let number_of_banks = pc.address / 0x8000;
        let offset = pc.address % 0x8000;
        proof {
            lemma_lorom_of_round_trip(pc.address as int);
        }
        LoRom {
            address: 0x80_0000 + number_of_banks * 0x1_0000 + 0x8000 + offset,
        }
    }
}

} // verus!
