use zen::address::{LoRom, Pc};

/// Both banked 00:8000 and 80:8000 translate to flat 0x000000, but the
/// flat offset always canonicalizes back into the mirrored bank 0x80.
#[test]
fn convert_lo_rom_and_pc_address_betweem_themselves() {
    let addresses = [
        (LoRom { address: 0x008000 }, Pc { address: 0x000000 }, LoRom { address: 0x808000 }),
        (LoRom { address: 0x07ABDF }, Pc { address: 0x03ABDF }, LoRom { address: 0x87ABDF }),
        (LoRom { address: 0x128897 }, Pc { address: 0x090897 }, LoRom { address: 0x928897 }),
        (LoRom { address: 0x5C0DD7 }, Pc { address: 0x2E0DD7 }, LoRom { address: 0xDC8DD7 }),
        (LoRom { address: 0x692DE8 }, Pc { address: 0x34ADE8 }, LoRom { address: 0xE9ADE8 }),
        (LoRom { address: 0x808000 }, Pc { address: 0x000000 }, LoRom { address: 0x808000 }),
        (LoRom { address: 0x97ED8A }, Pc { address: 0x0BED8A }, LoRom { address: 0x97ED8A }),
        (LoRom { address: 0xA8A2C4 }, Pc { address: 0x1422C4 }, LoRom { address: 0xA8A2C4 }),
        (LoRom { address: 0xB0948B }, Pc { address: 0x18148B }, LoRom { address: 0xB0948B }),
        (LoRom { address: 0xF94A53 }, Pc { address: 0x3CCA53 }, LoRom { address: 0xF9CA53 }),
        (LoRom { address: 0xFFFFFF }, Pc { address: 0x3FFFFF }, LoRom { address: 0xFFFFFF }),
    ];

    for (original_lo_rom, pc, expected_lo_rom) in addresses {
        assert_eq!(Pc::from(original_lo_rom), pc);
        assert_eq!(LoRom::from(pc), expected_lo_rom);
    }
}
