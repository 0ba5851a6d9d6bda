use zen::address::{LoRom, Pc};
use zen::address_map::AddressMap;
use zen::gfx::{Gfx, TileGfx};
use zen::palette::{from_bytes as palette_from_bytes, Bgr555, Palette, Rgb888, SubPalette};
use zen::super_metroid::{
    load_unheadered_rom, RomError, RomRoots, SuperMetroid, PALETTE_FREE_SPACE,
};
use zen::tile_table::Tile;
use zen::tileset::{tileset_to_colors, Tileset};

fn empty_store() -> SuperMetroid {
    SuperMetroid {
        rom: Vec::new(),
        cre_gfx: Gfx { tiles: Vec::new() },
        cre_tileset: Vec::new(),
        tilesets: Vec::new(),
        tileset_table_address: 0,
        palettes: AddressMap { entries: Vec::new() },
        graphics: AddressMap { entries: Vec::new() },
        tile_tables: AddressMap { entries: Vec::new() },
        levels: AddressMap { entries: Vec::new() },
        rooms: AddressMap { entries: Vec::new() },
        states: AddressMap { entries: Vec::new() },
        doors: AddressMap { entries: Vec::new() },
        door_lists: AddressMap { entries: Vec::new() },
        save_stations: Vec::new(),
    }
}

fn test_roots() -> RomRoots {
    RomRoots {
        tilesets: 0x8F_8000,
        cre_gfx: 0x8F_8000,
        cre_tileset: 0x8F_8000,
        rooms: Vec::new(),
        door_lists: Vec::new(),
        doors: (0, 0x83_8000),
        save_stations: 0x80_8000,
        save_station_list: 0x80_8000,
        number_of_areas: 1,
    }
}

/// An area's graphics gains 64 blank tiles and the shared tiles behind
/// its own.
#[test]
fn get_gfx_with_cre() {
    let own_tile = TileGfx { colors: vec![
        0b1110, 0b1101, 0b1100, 0b1011, 0b1010, 0b1001, 0b1000, 0b0111,
        0b1101, 0b1100, 0b1011, 0b1010, 0b1001, 0b1000, 0b0111, 0b0110,
        0b1100, 0b1011, 0b1010, 0b1001, 0b1000, 0b0111, 0b0110, 0b0101,
        0b1011, 0b1010, 0b1001, 0b1000, 0b0111, 0b0110, 0b0101, 0b0100,
        0b1010, 0b1001, 0b1000, 0b0111, 0b0110, 0b0101, 0b0100, 0b0011,
        0b1001, 0b1000, 0b0111, 0b0110, 0b0101, 0b0100, 0b0011, 0b0010,
        0b1000, 0b0111, 0b0110, 0b0101, 0b0100, 0b0011, 0b0010, 0b0001,
        0b0111, 0b0110, 0b0101, 0b0100, 0b0011, 0b0010, 0b0001, 0b0000,
    ]};
    let cre_tile = TileGfx { colors: vec![
        0b0001, 0b0010, 0b0011, 0b0100, 0b0101, 0b0110, 0b0111, 0b1000,
        0b0010, 0b0011, 0b0100, 0b0101, 0b0110, 0b0111, 0b1000, 0b1001,
        0b0011, 0b0100, 0b0101, 0b0110, 0b0111, 0b1000, 0b1001, 0b1010,
        0b0100, 0b0101, 0b0110, 0b0111, 0b1000, 0b1001, 0b1010, 0b1011,
        0b0101, 0b0110, 0b0111, 0b1000, 0b1001, 0b1010, 0b1011, 0b1100,
        0b0110, 0b0111, 0b1000, 0b1001, 0b1010, 0b1011, 0b1100, 0b1101,
        0b0111, 0b1000, 0b1001, 0b1010, 0b1011, 0b1100, 0b1101, 0b1110,
        0b1000, 0b1001, 0b1010, 0b1011, 0b1100, 0b1101, 0b1110, 0b1111,
    ]};

    let mut sm = empty_store();
    sm.cre_gfx = Gfx { tiles: vec![cre_tile.clone()] };
    sm.graphics = AddressMap { entries: vec![(0xFF, Gfx { tiles: vec![own_tile.clone()] })] };

    let expected_gfx_with_cre = Gfx {
        tiles: [
            vec![own_tile],
            vec![TileGfx { colors: vec![0; 64] }; 64],
            vec![cre_tile],
        ]
        .concat(),
    };

    assert_eq!(sm.gfx_with_cre(0xFF), expected_gfx_with_cre);
}

/// An area's tile table gains the shared table before its own.
#[test]
fn get_tile_table_with_cre() {
    let own = vec![
        Tile { y_flip: false, x_flip: false, unknown: false, sub_palette: 0, gfx_index: 0 },
        Tile {
            y_flip: false,
            x_flip: true,
            unknown: false,
            sub_palette: 0b101,
            gfx_index: 0b01_1010_0101,
        },
    ];
    let cre = vec![
        Tile {
            y_flip: true,
            x_flip: false,
            unknown: true,
            sub_palette: 0b010,
            gfx_index: 0b10_0101_1010,
        },
        Tile {
            y_flip: true,
            x_flip: true,
            unknown: true,
            sub_palette: 0b111,
            gfx_index: 0b11_1111_1111,
        },
    ];

    let mut sm = empty_store();
    sm.cre_tileset = cre.clone();
    sm.tile_tables = AddressMap { entries: vec![(0xFF, own.clone())] };

    let expected_tile_table_with_cre = [cre, own].concat();

    assert_eq!(sm.tile_table_with_cre(0xFF), expected_tile_table_with_cre);
}

/// Render one composite block's tile table through a palette and
/// graphics into colors.
#[test]
fn convert_tileset_to_colors() {
    let sub_palette_0 = SubPalette {
        colors: [
            Bgr555 { r: 1, g: 2, b: 3, u: 0 },
            Bgr555 { r: 4, g: 5, b: 6, u: 0 },
        ]
        .repeat(8),
    };
    let sub_palette_1 = SubPalette {
        colors: [
            Bgr555 { r: 7, g: 8, b: 9, u: 0 },
            Bgr555 { r: 10, g: 11, b: 12, u: 0 },
        ]
        .repeat(8),
    };
    let palette = Palette {
        sub_palettes: vec![
            sub_palette_0.clone(),
            sub_palette_1.clone(),
            sub_palette_0.clone(),
            sub_palette_1.clone(),
            sub_palette_0.clone(),
            sub_palette_1.clone(),
            sub_palette_0,
            sub_palette_1,
        ],
    };

    let graphics = Gfx { tiles: vec![
        TileGfx { colors: vec![
            1, 1, 1, 1, 0, 0, 0, 0,
            1, 1, 1, 1, 0, 0, 0, 0,
            0, 0, 0, 0, 0, 0, 0, 0,
            0, 0, 0, 0, 0, 0, 0, 0,
            0, 0, 0, 0, 0, 0, 1, 1,
            0, 0, 0, 0, 0, 0, 1, 1,
            0, 0, 0, 0, 0, 0, 1, 1,
            0, 0, 0, 0, 0, 0, 1, 1,
        ]},
        TileGfx { colors: vec![
            1, 1, 1, 0, 0, 0, 0, 0,
            1, 1, 1, 0, 0, 0, 0, 0,
            0, 0, 0, 0, 0, 0, 0, 0,
            0, 0, 0, 0, 0, 0, 0, 0,
            0, 0, 0, 0, 0, 0, 0, 0,
            0, 0, 0, 0, 0, 0, 1, 1,
            0, 0, 0, 0, 0, 0, 1, 1,
            0, 0, 0, 0, 0, 0, 1, 1,
        ]},
    ]};

    let tile_table = vec![
        Tile { y_flip: false, x_flip: false, unknown: false, sub_palette: 0, gfx_index: 0 },
        Tile { y_flip: false, x_flip: true, unknown: false, sub_palette: 0, gfx_index: 1 },
        Tile { y_flip: true, x_flip: false, unknown: true, sub_palette: 1, gfx_index: 1 },
        Tile { y_flip: true, x_flip: true, unknown: true, sub_palette: 1, gfx_index: 0 },
    ];

    let p0c0 = Rgb888 { r: 8, g: 16, b: 24 };
    let p0c1 = Rgb888 { r: 32, g: 40, b: 48 };
    let p1c0 = Rgb888 { r: 56, g: 64, b: 72 };
    let p1c1 = Rgb888 { r: 80, g: 88, b: 96 };

    let expected_colors = [
        p0c1, p0c1, p0c1, p0c1, p0c0, p0c0, p0c0, p0c0,   p0c0, p0c0, p0c0, p0c0, p0c0, p0c1, p0c1, p0c1,
        p0c1, p0c1, p0c1, p0c1, p0c0, p0c0, p0c0, p0c0,   p0c0, p0c0, p0c0, p0c0, p0c0, p0c1, p0c1, p0c1,
        p0c0, p0c0, p0c0, p0c0, p0c0, p0c0, p0c0, p0c0,   p0c0, p0c0, p0c0, p0c0, p0c0, p0c0, p0c0, p0c0,
        p0c0, p0c0, p0c0, p0c0, p0c0, p0c0, p0c0, p0c0,   p0c0, p0c0, p0c0, p0c0, p0c0, p0c0, p0c0, p0c0,
        p0c0, p0c0, p0c0, p0c0, p0c0, p0c0, p0c1, p0c1,   p0c0, p0c0, p0c0, p0c0, p0c0, p0c0, p0c0, p0c0,
        p0c0, p0c0, p0c0, p0c0, p0c0, p0c0, p0c1, p0c1,   p0c1, p0c1, p0c0, p0c0, p0c0, p0c0, p0c0, p0c0,
        p0c0, p0c0, p0c0, p0c0, p0c0, p0c0, p0c1, p0c1,   p0c1, p0c1, p0c0, p0c0, p0c0, p0c0, p0c0, p0c0,
        p0c0, p0c0, p0c0, p0c0, p0c0, p0c0, p0c1, p0c1,   p0c1, p0c1, p0c0, p0c0, p0c0, p0c0, p0c0, p0c0,
        p1c0, p1c0, p1c0, p1c0, p1c0, p1c0, p1c1, p1c1,   p1c1, p1c1, p1c0, p1c0, p1c0, p1c0, p1c0, p1c0,
        p1c0, p1c0, p1c0, p1c0, p1c0, p1c0, p1c1, p1c1,   p1c1, p1c1, p1c0, p1c0, p1c0, p1c0, p1c0, p1c0,
        p1c0, p1c0, p1c0, p1c0, p1c0, p1c0, p1c1, p1c1,   p1c1, p1c1, p1c0, p1c0, p1c0, p1c0, p1c0, p1c0,
        p1c0, p1c0, p1c0, p1c0, p1c0, p1c0, p1c0, p1c0,   p1c1, p1c1, p1c0, p1c0, p1c0, p1c0, p1c0, p1c0,
        p1c0, p1c0, p1c0, p1c0, p1c0, p1c0, p1c0, p1c0,   p1c0, p1c0, p1c0, p1c0, p1c0, p1c0, p1c0, p1c0,
        p1c0, p1c0, p1c0, p1c0, p1c0, p1c0, p1c0, p1c0,   p1c0, p1c0, p1c0, p1c0, p1c0, p1c0, p1c0, p1c0,
        p1c1, p1c1, p1c1, p1c0, p1c0, p1c0, p1c0, p1c0,   p1c0, p1c0, p1c0, p1c0, p1c1, p1c1, p1c1, p1c1,
        p1c1, p1c1, p1c1, p1c0, p1c0, p1c0, p1c0, p1c0,   p1c0, p1c0, p1c0, p1c0, p1c1, p1c1, p1c1, p1c1,
    ];

    assert_eq!(tileset_to_colors(&tile_table, &palette, &graphics), expected_colors);
}

/// Saving relocates a palette to a fresh address, rekeys the map,
/// rewrites the tileset pointer, and the bytes at the new address
/// decompress back to the same colors.
#[test]
fn save_palettes_relocates_and_rewrites_pointers() {
    let palette = palette_from_bytes(&[0x55u8; 32]).unwrap();
    let old_address = 0xC0_8000usize;

    let mut sm = empty_store();
    sm.rom = vec![0; 0x22_0000];
    sm.palettes = AddressMap { entries: vec![(old_address, palette.clone())] };
    sm.tilesets = vec![Tileset {
        palette: old_address as u32,
        graphic: 1,
        tile_table: 2,
        use_cre: true,
    }];

    let remap = sm.save_palettes_to_rom().unwrap();
    assert_eq!(remap.len(), 1);
    assert_eq!(remap[0].0, old_address);
    let new_address = remap[0].1;
    assert_ne!(new_address, old_address);
    assert_eq!(new_address, PALETTE_FREE_SPACE);

    // The map is rekeyed and the tileset pointer rewritten.
    assert_eq!(sm.palettes.entries[0].0, new_address);
    assert_eq!(sm.palettes.entries[0].1, palette);
    assert_eq!(sm.tilesets[0].palette, new_address as u32);

    // The bytes written at the new address decompress to the palette's
    // packed form, so a re-load sees the same colors.
    let pc = Pc::from(LoRom { address: new_address });
    let reloaded = zen::lz5_decompress::decompress(&sm.rom[pc.address..]).unwrap();
    assert_eq!(reloaded, palette.to_bytes());
    assert_eq!(palette_from_bytes(&reloaded).unwrap(), palette);
}

/// A save that cannot fit its region fails as a capacity fault.
#[test]
fn save_palettes_without_room_is_a_capacity_fault() {
    let palette = palette_from_bytes(&[0u8; 32]).unwrap();
    let mut sm = empty_store();
    sm.rom = vec![0; 16];
    sm.palettes = AddressMap { entries: vec![(0xC0_8000, palette)] };

    assert_eq!(sm.save_palettes_to_rom().unwrap_err(), RomError::CapacityExceeded);
}

/// An image with the wrong content digest is refused outright.
#[test]
fn load_refuses_an_image_with_a_wrong_digest() {
    let roots = test_roots();
    let refused = match load_unheadered_rom(vec![1, 2, 3], &roots) {
        Err(e) => e,
        Ok(_) => panic!("a wrong digest must be refused"),
    };
    assert_eq!(refused, RomError::ChecksumMismatch);
    // Even an image that spells out the expected digest bytes is
    // refused: what counts is its own digest.
    let expected_digest_bytes = vec![
        33u8, 243, 233, 141, 244, 120, 14, 225, 198, 103, 184, 78, 87, 216, 134, 117,
    ];
    let refused = match load_unheadered_rom(expected_digest_bytes, &roots) {
        Err(e) => e,
        Ok(_) => panic!("a wrong digest must be refused"),
    };
    assert_eq!(refused, RomError::ChecksumMismatch);
}

/// Levels pack back to bytes that decode to the same level.
#[test]
fn level_data_packs_and_reloads() {
    let level = zen::level_data::LevelData {
        layer1: vec![
            zen::level_data::Block {
                block_type: zen::level_data::BlockType::from(9u16),
                y_flip: true,
                x_flip: false,
                block_number: 0x123,
            },
            zen::level_data::Block {
                block_type: zen::level_data::BlockType::from(0u16),
                y_flip: false,
                x_flip: true,
                block_number: 0x3FF,
            },
        ],
        bts: vec![0xAB, 0xCD],
        layer2: None,
    };
    let bytes = level.to_bytes();
    assert_eq!(zen::level_data::load_from_bytes(&bytes, false).unwrap(), level);
}

/// A decoded room packs back to the bytes it came from.
#[test]
fn room_packs_back_to_its_bytes() {
    let data = vec![
        0x12, 0x34, 0x56, 0x78, 0x9A, 0xBC, 0xDE, 0xED, 0xFF, 0x34, 0x12, 0xE6, 0xE5,
    ];
    let room = zen::room::from_bytes(7, &data).unwrap();
    assert_eq!(room.to_bytes(), data);
}

/// One state's renderer bundle: its level, tileset entry, palette, and
/// the composed graphics and tile table.
#[test]
fn get_state_data_returns_the_named_resources() {
    let level = zen::level_data::LevelData {
        layer1: vec![zen::level_data::Block {
            block_type: zen::level_data::BlockType::from(8u16),
            y_flip: false,
            x_flip: false,
            block_number: 1,
        }],
        bts: vec![0x07],
        layer2: None,
    };
    let palette = palette_from_bytes(&[0x11u8; 32]).unwrap();
    let own_gfx = Gfx { tiles: vec![TileGfx { colors: vec![3; 64] }] };
    let own_table = vec![Tile {
        y_flip: false,
        x_flip: false,
        unknown: false,
        sub_palette: 1,
        gfx_index: 0,
    }];

    let mut sm = empty_store();
    sm.levels = AddressMap { entries: vec![(0x123456, level.clone())] };
    sm.palettes = AddressMap { entries: vec![(0xC08000, palette.clone())] };
    sm.graphics = AddressMap { entries: vec![(0xB98000, own_gfx.clone())] };
    sm.tile_tables = AddressMap { entries: vec![(0xB9A000, own_table.clone())] };
    sm.tilesets = vec![Tileset {
        palette: 0xC08000,
        graphic: 0xB98000,
        tile_table: 0xB9A000,
        use_cre: false,
    }];

    let state = zen::state::State { level_address: 0x123456, tileset: 0, ..Default::default() };
    let (got_level, got_tileset, got_palette, got_gfx, got_table) = sm.get_state_data(&state);
    assert_eq!(*got_level, level);
    assert_eq!(*got_tileset, sm.tilesets[0]);
    assert_eq!(*got_palette, palette);
    assert_eq!(got_gfx, own_gfx);
    assert_eq!(got_table, own_table);
}

/// Save the whole store: palettes and levels relocate, the state and
/// tileset pointers follow, rooms and the tileset table are rewritten
/// in place, and everything reloads from the image byte-identically.
#[test]
fn save_to_rom_relocates_and_rewrites_everything() {
    let palette = palette_from_bytes(&[0x33u8; 32]).unwrap();
    let level = zen::level_data::LevelData {
        layer1: vec![zen::level_data::Block {
            block_type: zen::level_data::BlockType::from(8u16),
            y_flip: false,
            x_flip: true,
            block_number: 0x21,
        }],
        bts: vec![0x05],
        layer2: None,
    };
    let room_data = vec![
        0x01, 0x02, 0x03, 0x04, 0x05, 0x06, 0x07, 0x08, 0x09, 0x34, 0x12, 0xE6, 0xE5,
    ];
    let room = zen::room::from_bytes(0x91F8, &room_data).unwrap();
    let state = zen::state::State {
        level_address: 0xC1_8000,
        tileset: 0,
        ..Default::default()
    };

    let mut sm = empty_store();
    sm.rom = vec![0; 0x22_0000];
    sm.tileset_table_address = 0x8F_E6A2;
    sm.palettes = AddressMap { entries: vec![(0xC0_8000, palette.clone())] };
    sm.levels = AddressMap { entries: vec![(0xC1_8000, level.clone())] };
    sm.rooms = AddressMap { entries: vec![(0x8F_91F8, room)] };
    sm.states = AddressMap { entries: vec![(0xE612, state)] };
    sm.tilesets = vec![Tileset {
        palette: 0xC0_8000,
        graphic: 0xB9_8000,
        tile_table: 0xB9_A09D,
        use_cre: true,
    }];

    sm.save_to_rom().unwrap();

    // The palette moved to the free-space base and the tileset points
    // at it.
    let new_pal = sm.palettes.entries[0].0;
    assert_eq!(new_pal, PALETTE_FREE_SPACE);
    assert_eq!(sm.tilesets[0].palette, new_pal as u32);
    let pal_pc = Pc::from(LoRom { address: new_pal });
    let reloaded = zen::lz5_decompress::decompress(&sm.rom[pal_pc.address..]).unwrap();
    assert_eq!(palette_from_bytes(&reloaded).unwrap(), palette);

    // The level moved to its free-space base and the state points at
    // it.
    let new_lvl = sm.levels.entries[0].0;
    assert_eq!(new_lvl, zen::super_metroid::LEVEL_FREE_SPACE);
    assert_eq!(sm.states.entries[0].1.level_address, new_lvl as u32);
    let lvl_pc = Pc::from(LoRom { address: new_lvl });
    let lvl_bytes = zen::lz5_decompress::decompress(&sm.rom[lvl_pc.address..]).unwrap();
    assert_eq!(zen::level_data::load_from_bytes(&lvl_bytes, false).unwrap(), level);

    // The room was rewritten in place and the tileset table holds the
    // rewritten entry.
    let room_pc = Pc::from(LoRom { address: 0x8F_91F8 });
    assert_eq!(&sm.rom[room_pc.address..room_pc.address + room_data.len()], &room_data[..]);
    let table_pc = Pc::from(LoRom { address: 0x8F_E6A2 });
    let entry = &sm.rom[table_pc.address..table_pc.address + 9];
    assert_eq!(entry, &sm.tilesets[0].to_bytes()[..]);

    // A byte far from every written region is untouched.
    assert_eq!(sm.rom[0x10_0000], 0);
}
