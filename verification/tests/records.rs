use zen::door::{load_bytes as load_doors, Door};
use zen::door_list::load_bytes as load_door_list;
use zen::level_data::{layer_from_bytes, load_from_bytes, Block, BlockType, LevelData};
use zen::room::{from_bytes as room_from_bytes, state_conditions_from_bytes, Room, StateCondition};
use zen::save_station::{
    load_all_from_list, load_bytes as load_station, SaveStation, SAVE_STATION_BYTE_SIZE,
};
use zen::state::load_bytes as load_state;
use zen::tile_table::{from_bytes as tile_table_from_bytes, Tile};
use zen::tileset::{from_bytes as tileset_from_bytes, Tileset};

/// Load 3 doors from bytes, 12 bytes each.
#[test]
fn load_doors_from_bytes() {
    let data = [0xF8, 0x91, 0x00, 0x03, 0x00, 0x00, 0x04, 0x00, 0x00, 0x80, 0x00, 0x00,
                0xF8, 0x91, 0x01, 0x03, 0x00, 0x00, 0x04, 0x02, 0xF0, 0x80, 0xF0, 0x00,
                0xFD, 0x92, 0x02, 0x05, 0x4E, 0x06, 0x04, 0x00, 0x0F, 0x80, 0x0F, 0xF0];
    let doors = load_doors(3, &data);

    let expected_doors = [
        Door {
            destination_room: 0x91F8,
            elevator_property: 0x00,
            orientation: 0x03,
            x_low_byte: 0x00,
            y_low_byte: 0x00,
            x_high_byte: 0x04,
            y_high_byte: 0x00,
            samus_door_distance: 0x8000,
            custom_asm: 0x0000,
        },
        Door {
            destination_room: 0x91F8,
            elevator_property: 0x01,
            orientation: 0x03,
            x_low_byte: 0x00,
            y_low_byte: 0x00,
            x_high_byte: 0x04,
            y_high_byte: 0x02,
            samus_door_distance: 0x80F0,
            custom_asm: 0x00F0,
        },
        Door {
            destination_room: 0x92FD,
            elevator_property: 0x02,
            orientation: 0x05,
            x_low_byte: 0x4E,
            y_low_byte: 0x06,
            x_high_byte: 0x04,
            y_high_byte: 0x00,
            samus_door_distance: 0x800F,
            custom_asm: 0xF00F,
        },
    ];
    assert_eq!(doors, expected_doors);
}

/// Load a door list of 3 two-byte little-endian pointers.
#[test]
fn load_door_list_from_bytes() {
    let data = [0x34, 0x12, 0x78, 0x56, 0xBC, 0x9A];
    let door_list = load_door_list(3, &data);

    let expected_door_list = [0x1234, 0x5678, 0x9ABC];
    assert_eq!(door_list, expected_door_list);
}

/// Load one level layer from bytes.
#[test]
fn load_one_level_layer_from_bytes() {
    let expected_blocks = vec![
        Block {
            block_type: BlockType::from(0b0000u16),
            y_flip: false,
            x_flip: false,
            block_number: 0b00_0000_0000,
        },
        Block {
            block_type: BlockType::from(0b0101u16),
            y_flip: true,
            x_flip: false,
            block_number: 0b01_0101_0101,
        },
        Block {
            block_type: BlockType::from(0b1010u16),
            y_flip: false,
            x_flip: true,
            block_number: 0b10_1010_1010,
        },
        Block {
            block_type: BlockType::from(0b1111u16),
            y_flip: true,
            x_flip: true,
            block_number: 0b11_1111_1111,
        },
    ];

    let data = [
        0b00000000, 0b0000_0_0_00,
        0b01010101, 0b0101_1_0_01,
        0b10101010, 0b1010_0_1_10,
        0b11111111, 0b1111_1_1_11,
    ];

    assert_eq!(layer_from_bytes(&data), expected_blocks);
}

/// Load a full level from bytes, with one and with two layers.
#[test]
fn load_level_data_from_bytes() {
    let mut expected_level_data = LevelData {
        layer1: vec![
            Block {
                block_type: BlockType::from(0b0000u16),
                y_flip: false,
                x_flip: false,
                block_number: 0b00_0000_0000,
            },
            Block {
                block_type: BlockType::from(0b1111u16),
                y_flip: true,
                x_flip: true,
                block_number: 0b11_1111_1111,
            },
        ],
        bts: vec![0b1010_1010, 0b0101_0101],
        layer2: None,
    };

    let data_one_layer = vec![
        0b0000_0100, 0b0000_0000,
        0b00000000, 0b0000_0_0_00,
        0b11111111, 0b1111_1_1_11,
        0b1010_1010,
        0b0101_0101,
    ];

    let level_result = load_from_bytes(&data_one_layer, false);
    assert!(level_result.is_ok());
    assert_eq!(level_result.unwrap(), expected_level_data);

    expected_level_data.layer2 = Some(vec![
        Block {
            block_type: BlockType::from(0b0101u16),
            y_flip: true,
            x_flip: false,
            block_number: 0b01_0101_0101,
        },
        Block {
            block_type: BlockType::from(0b1010u16),
            y_flip: false,
            x_flip: true,
            block_number: 0b10_1010_1010,
        },
    ]);

    let data_two_layer = [
        data_one_layer,
        vec![0b01010101, 0b0101_1_0_01,
             0b10101010, 0b1010_0_1_10,],
    ]
    .concat();

    let level_result = load_from_bytes(&data_two_layer, true);
    assert!(level_result.is_ok());
    assert_eq!(level_result.unwrap(), expected_level_data);
}

/// A buffer shorter than the declared layer size is refused.
#[test]
fn load_level_data_with_incorrect_data_size() {
    let data_empty: &[u8] = &[];
    let data_without_minimal_size: &[u8] = &[0xFF];
    let data_with_incorrect_size_header: &[u8] = &[0x02, 0x00];

    assert!(load_from_bytes(data_empty, false).is_err());
    assert!(load_from_bytes(data_without_minimal_size, false).is_err());
    assert!(load_from_bytes(data_with_incorrect_size_header, false).is_err());
}

/// Load a state-condition chain: the terminator comes first, then the
/// stored conditions from last to first, each with its code-determined
/// payload width.
#[test]
fn load_state_condition_from_bytes() {
    let data = [
        0xCB, 0xED,
        0xBB, 0xAA,
        0x29, 0xE6,
        0xF0,
        0x77, 0x66,
        0x12, 0xE6,
        0x42,
        0x55, 0x44,
        0xEB, 0xE5,
        0xCD, 0xAB,
        0x33, 0x22,
        0xE6, 0xE5,
        0x86,
    ];

    let expected_state_conditions = vec![
        StateCondition { condition: 0xE5E6, parameter: None, state_address: 38 },
        StateCondition { condition: 0xE5EB, parameter: Some(0xABCD), state_address: 0x2233 },
        StateCondition { condition: 0xE612, parameter: Some(0x42), state_address: 0x4455 },
        StateCondition { condition: 0xE629, parameter: Some(0xF0), state_address: 0x6677 },
        StateCondition { condition: 0xEDCB, parameter: None, state_address: 0xAABB },
    ];

    assert_eq!(state_conditions_from_bytes(16, &data).unwrap(), expected_state_conditions);
}

/// Load a room header and its chain from bytes.
#[test]
fn load_room_from_bytes() {
    let data = [
        0x12, // index
        0x34, // area
        0x56, // map position x
        0x78, // map position y
        0x9A, // width
        0xBC, // height
        0xDE, // up scroller
        0xED, // down scroller
        0xFF, // common-resource bitset
        0x34, 0x12, // door list pointer
        0xE6, 0xE5, // chain terminator
    ];

    let expected_room = Room {
        index:         0x12,
        area:          0x34,
        map_position: (0x56, 0x78),
        width:         0x9A,
        height:        0xBC,
        up_scroller:   0xDE,
        down_scroller: 0xED,
        cre_bitset:    0xFF,
        doors:         0x1234,
        state_conditions: vec![StateCondition {
                                    condition: 0xE5E6,
                                    parameter: None,
                                    state_address: 20
                                }
                            ],
    };

    assert_eq!(room_from_bytes(7, &data).unwrap(), expected_room);
}

/// Load 3 save stations from bytes.
#[test]
fn load_stations_from_bytes() {
    let data = [[0x93, 0xD5, 0x89, 0x9A, 0x00, 0x01, 0x10, 0x00, 0x01, 0x20, 0x00, 0x98, 0xFF, 0xE0],
                [0x94, 0xCC, 0x8A, 0xBA, 0x00, 0x00, 0x00, 0x00, 0x00, 0x00, 0x00, 0xA8, 0x00, 0x00],
                [0x00, 0x00, 0x00, 0x00, 0x00, 0x00, 0x04, 0x00, 0x04, 0x00, 0x00, 0xB0, 0xAB, 0xCD],];

    let expected_save_stations = [
        SaveStation {
            room_pointer:      0xD593,
            door_pointer:      0x9A89,
            door_bts:          0x0100,
            screen_x_position: 0x0010,
            screen_y_position: 0x2001,
            samus_y_offset:    0x9800,
            samus_x_offset:    0xE0FF,
        },
        SaveStation {
            room_pointer:      0xCC94,
            door_pointer:      0xBA8A,
            door_bts:          0x0000,
            screen_x_position: 0x0000,
            screen_y_position: 0x0000,
            samus_y_offset:    0xA800,
            samus_x_offset:    0x0000,
        },
        SaveStation {
            room_pointer:      0x0000,
            door_pointer:      0x0000,
            door_bts:          0x0000,
            screen_x_position: 0x0004,
            screen_y_position: 0x0004,
            samus_y_offset:    0xB000,
            samus_x_offset:    0xCDAB,
        },
    ];

    let save_stations = data.map(|bytes| load_station(&bytes));
    assert_eq!(save_stations, expected_save_stations);
}

/// Load 6 save stations divided into areas of 3, 2 and 1.
#[test]
fn load_all_stations_from_bytes() {
    let data = [// 3 save stations of the first area.
                0x93, 0xD5, 0x89, 0x9A, 0x00, 0x01, 0x10, 0x00, 0x01, 0x20, 0x00, 0x98, 0xFF, 0xE0,
                0x94, 0xCC, 0x8A, 0xBA, 0x00, 0x00, 0x00, 0x00, 0x00, 0x00, 0x00, 0xA8, 0x00, 0x00,
                0x00, 0x00, 0x00, 0x00, 0x00, 0x00, 0x04, 0x00, 0x04, 0x00, 0x00, 0xB0, 0xAB, 0xCD,
                // 2 save stations of the second area.
                0x00, 0x01, 0x20, 0x00, 0x98, 0xFF, 0xE0, 0x93, 0xD5, 0x89, 0x9A, 0x00, 0x01, 0x10,
                0x00, 0x00, 0x00, 0x00, 0xA8, 0x00, 0x00, 0x94, 0xCC, 0x8A, 0xBA, 0x00, 0x00, 0x00,
                // 1 save station of the third area.
                0x00, 0x04, 0x00, 0x00, 0xB0, 0xAB, 0xCD, 0x00, 0x00, 0x00, 0x00, 0x00, 0x00, 0x04,
                ];

    let expected_save_stations = [
        vec![
            SaveStation {
                room_pointer:      0xD593,
                door_pointer:      0x9A89,
                door_bts:          0x0100,
                screen_x_position: 0x0010,
                screen_y_position: 0x2001,
                samus_y_offset:    0x9800,
                samus_x_offset:    0xE0FF,
            },
            SaveStation {
                room_pointer:      0xCC94,
                door_pointer:      0xBA8A,
                door_bts:          0x0000,
                screen_x_position: 0x0000,
                screen_y_position: 0x0000,
                samus_y_offset:    0xA800,
                samus_x_offset:    0x0000,
            },
            SaveStation {
                room_pointer:      0x0000,
                door_pointer:      0x0000,
                door_bts:          0x0000,
                screen_x_position: 0x0004,
                screen_y_position: 0x0004,
                samus_y_offset:    0xB000,
                samus_x_offset:    0xCDAB,
            },
        ],
        vec![
            SaveStation {
                room_pointer:      0x0100,
                door_pointer:      0x0020,
                door_bts:          0xFF98,
                screen_x_position: 0x93E0,
                screen_y_position: 0x89D5,
                samus_y_offset:    0x009A,
                samus_x_offset:    0x1001,
            },
            SaveStation {
                room_pointer:      0x0000,
                door_pointer:      0x0000,
                door_bts:          0x00A8,
                screen_x_position: 0x9400,
                screen_y_position: 0x8ACC,
                samus_y_offset:    0x00BA,
                samus_x_offset:    0x0000,
            },
        ],
        vec![
            SaveStation {
                room_pointer:      0x0400,
                door_pointer:      0x0000,
                door_bts:          0xABB0,
                screen_x_position: 0x00CD,
                screen_y_position: 0x0000,
                samus_y_offset:    0x0000,
                samus_x_offset:    0x0400,
            },
        ],
    ];

    let save_station_list = vec![
        (0 as u16).to_le_bytes(),
        ((SAVE_STATION_BYTE_SIZE * 3) as u16).to_le_bytes(),
        ((SAVE_STATION_BYTE_SIZE * 5) as u16).to_le_bytes(),
        ((SAVE_STATION_BYTE_SIZE * 6) as u16).to_le_bytes(),
    ];
    let save_station_list_bytes = save_station_list.iter().fold(Vec::new(), |mut acc, bytes| {
        acc.extend(bytes);
        acc
    });

    let save_stations = load_all_from_list(&data, &save_station_list_bytes, 4);
    assert_eq!(save_stations, expected_save_stations);
}

/// Load a state record from its 26 bytes.
#[test]
fn load_state_from_bytes() {
    let data = [
        0x56, 0x34, 0x12, // level data address
        0xA2,             // tileset
        0x9D,             // music data index
        0x38,             // music track
        0x34, 0x12,       // fx
        0x78, 0x56,       // enemy population
        0xBC, 0x9A,       // enemy set
        0x00,             // layer 2 x scroll
        0xFF,             // layer 2 y scroll
        0x23, 0x01,       // scroll
        0x67, 0x45,       // special x-ray blocks
        0xAB, 0x89,       // main asm
        0xEF, 0xCD,       // plm population
        0x77, 0x66,       // library background
        0xBB, 0xAA,       // setup asm
    ];

    let expected_state = zen::state::State {
        level_address: 0x123456,
        tileset: 0xA2,
        music_data_index: 0x9D,
        music_track: 0x38,
        fx: 0x1234,
        enemy_population: 0x5678,
        enemy_set: 0x9ABC,
        layer_2_x_scroll: 0x00,
        layer_2_y_scroll: 0xFF,
        scroll: 0x0123,
        special_x_ray_blocks: 0x4567,
        main_asm: 0x89AB,
        plm_population: 0xCDEF,
        library_background: 0x6677,
        setup_asm: 0xAABB,
    };

    assert_eq!(load_state(&data), expected_state);
}

/// Load a tile table from bytes, each descriptor two bytes.
#[test]
fn load_tile_table_from_bytes() {
    let data: Vec<u8> = [
        [0b0000_0000, 0b0_0_0_000_00],
        [0b1010_0101, 0b0_1_0_101_01],
        [0b0101_1010, 0b1_0_1_010_10],
        [0b1111_1111, 0b1_1_1_111_11],
    ]
    .concat();

    let expected_tile_table = [
        Tile { y_flip: false, x_flip: false, unknown: false, sub_palette: 0, gfx_index: 0 },
        Tile {
            y_flip: false,
            x_flip: true,
            unknown: false,
            sub_palette: 0b101,
            gfx_index: 0b01_1010_0101,
        },
        Tile {
            y_flip: true,
            x_flip: false,
            unknown: true,
            sub_palette: 0b010,
            gfx_index: 0b10_0101_1010,
        },
        Tile {
            y_flip: true,
            x_flip: true,
            unknown: true,
            sub_palette: 0b111,
            gfx_index: 0b11_1111_1111,
        },
    ];

    assert_eq!(tile_table_from_bytes(&data), expected_tile_table);
}

/// Load tilesets from 9-byte entries and pack them back.
#[test]
fn load_tileset_from_bytes() {
    let tilesets_data: Vec<u8> = [
        [0b01010101, 0b00000000, 0b00000000],
        [0b10101010, 0b00100010, 0b00000000],
        [0b10111101, 0b10011001, 0b01100110],
        [0b00000000, 0b00000000, 0b01010101],
        [0b00000000, 0b00100010, 0b10101010],
        [0b01100110, 0b10011001, 0b10111101],
    ]
    .concat();

    let tilesets = vec![
        Tileset {
            palette: 0b01100110_10011001_10111101,
            graphic: 0b00100010_10101010,
            tile_table: 0b01010101,
            use_cre: true,
        },
        Tileset {
            palette: 0b10111101_10011001_01100110,
            graphic: 0b10101010_00100010_00000000,
            tile_table: 0b01010101_00000000_00000000,
            use_cre: true,
        },
    ];
    assert_eq!(tileset_from_bytes(&tilesets_data), tilesets);

    let tilesets_to_bytes = tilesets.iter().fold(Vec::new(), |mut accum, tileset| {
        accum.extend(tileset.to_bytes());
        accum
    });
    assert_eq!(tilesets_to_bytes, tilesets_data);
}
