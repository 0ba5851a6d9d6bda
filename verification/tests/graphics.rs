use zen::gfx::{from_4bpp, Gfx, TileGfx, GFX_TILE_WIDTH};
use zen::palette::{
    from_bytes, Bgr555, Palette, Rgb888, SubPalette, COLORS_BY_SUB_PALETTE, NUMBER_OF_SUB_PALETTES,
};

/// Load a single 8x8 tile from bytes with 4 bits per plane.
#[test]
fn load_tile_gfx_from_4bpp() {
    let expected_tile_gfx = TileGfx { colors: vec![
        0b0001, 0b0010, 0b0011, 0b0100, 0b0101, 0b0110, 0b0111, 0b1000,
        0b0010, 0b0011, 0b0100, 0b0101, 0b0110, 0b0111, 0b1000, 0b1001,
        0b0011, 0b0100, 0b0101, 0b0110, 0b0111, 0b1000, 0b1001, 0b1010,
        0b0100, 0b0101, 0b0110, 0b0111, 0b1000, 0b1001, 0b1010, 0b1011,
        0b0101, 0b0110, 0b0111, 0b1000, 0b1001, 0b1010, 0b1011, 0b1100,
        0b0110, 0b0111, 0b1000, 0b1001, 0b1010, 0b1011, 0b1100, 0b1101,
        0b0111, 0b1000, 0b1001, 0b1010, 0b1011, 0b1100, 0b1101, 0b1110,
        0b1000, 0b1001, 0b1010, 0b1011, 0b1100, 0b1101, 0b1110, 0b1111,
    ]};

    let tile_gfx_in_4bpp = [
        0b1010_1010, 0b0110_0110,
        0b0101_0101, 0b1100_1100,
        0b1010_1010, 0b1001_1001,
        0b0101_0101, 0b0011_0011,
        0b1010_1010, 0b0110_0110,
        0b0101_0101, 0b1100_1100,
        0b1010_1010, 0b1001_1001,
        0b0101_0101, 0b0011_0011,
        0b0001_1110, 0b0000_0001,
        0b0011_1100, 0b0000_0011,
        0b0111_1000, 0b0000_0111,
        0b1111_0000, 0b0000_1111,
        0b1110_0001, 0b0001_1111,
        0b1100_0011, 0b0011_1111,
        0b1000_0111, 0b0111_1111,
        0b0000_1111, 0b1111_1111,
    ];

    assert_eq!(TileGfx::tile_4bpp(&tile_gfx_in_4bpp, 0), expected_tile_gfx);
}

/// Flip a tile horizontally, vertically, and across both axes.
#[test]
fn flip_tile_gfx_horizontally_vertically_and_both() {
    let tile_gfx = TileGfx { colors: vec![
        0b0001, 0b0010, 0b0011, 0b0100, 0b0101, 0b0110, 0b0111, 0b1000,
        0b0010, 0b0011, 0b0100, 0b0101, 0b0110, 0b0111, 0b1000, 0b1001,
        0b0011, 0b0100, 0b0101, 0b0110, 0b0111, 0b1000, 0b1001, 0b1010,
        0b0100, 0b0101, 0b0110, 0b0111, 0b1000, 0b1001, 0b1010, 0b1011,
        0b0101, 0b0110, 0b0111, 0b1000, 0b1001, 0b1010, 0b1011, 0b1100,
        0b0110, 0b0111, 0b1000, 0b1001, 0b1010, 0b1011, 0b1100, 0b1101,
        0b0111, 0b1000, 0b1001, 0b1010, 0b1011, 0b1100, 0b1101, 0b1110,
        0b1000, 0b1001, 0b1010, 0b1011, 0b1100, 0b1101, 0b1110, 0b1111,
    ]};

    let colors_flipped_horizontally = vec![
        0b1000, 0b0111, 0b0110, 0b0101, 0b0100, 0b0011, 0b0010, 0b0001,
        0b1001, 0b1000, 0b0111, 0b0110, 0b0101, 0b0100, 0b0011, 0b0010,
        0b1010, 0b1001, 0b1000, 0b0111, 0b0110, 0b0101, 0b0100, 0b0011,
        0b1011, 0b1010, 0b1001, 0b1000, 0b0111, 0b0110, 0b0101, 0b0100,
        0b1100, 0b1011, 0b1010, 0b1001, 0b1000, 0b0111, 0b0110, 0b0101,
        0b1101, 0b1100, 0b1011, 0b1010, 0b1001, 0b1000, 0b0111, 0b0110,
        0b1110, 0b1101, 0b1100, 0b1011, 0b1010, 0b1001, 0b1000, 0b0111,
        0b1111, 0b1110, 0b1101, 0b1100, 0b1011, 0b1010, 0b1001, 0b1000,
    ];

    let colors_flipped_vertically = vec![
        0b1000, 0b1001, 0b1010, 0b1011, 0b1100, 0b1101, 0b1110, 0b1111,
        0b0111, 0b1000, 0b1001, 0b1010, 0b1011, 0b1100, 0b1101, 0b1110,
        0b0110, 0b0111, 0b1000, 0b1001, 0b1010, 0b1011, 0b1100, 0b1101,
        0b0101, 0b0110, 0b0111, 0b1000, 0b1001, 0b1010, 0b1011, 0b1100,
        0b0100, 0b0101, 0b0110, 0b0111, 0b1000, 0b1001, 0b1010, 0b1011,
        0b0011, 0b0100, 0b0101, 0b0110, 0b0111, 0b1000, 0b1001, 0b1010,
        0b0010, 0b0011, 0b0100, 0b0101, 0b0110, 0b0111, 0b1000, 0b1001,
        0b0001, 0b0010, 0b0011, 0b0100, 0b0101, 0b0110, 0b0111, 0b1000,
    ];

    let colors_flipped_both_axis = vec![
        0b1111, 0b1110, 0b1101, 0b1100, 0b1011, 0b1010, 0b1001, 0b1000,
        0b1110, 0b1101, 0b1100, 0b1011, 0b1010, 0b1001, 0b1000, 0b0111,
        0b1101, 0b1100, 0b1011, 0b1010, 0b1001, 0b1000, 0b0111, 0b0110,
        0b1100, 0b1011, 0b1010, 0b1001, 0b1000, 0b0111, 0b0110, 0b0101,
        0b1011, 0b1010, 0b1001, 0b1000, 0b0111, 0b0110, 0b0101, 0b0100,
        0b1010, 0b1001, 0b1000, 0b0111, 0b0110, 0b0101, 0b0100, 0b0011,
        0b1001, 0b1000, 0b0111, 0b0110, 0b0101, 0b0100, 0b0011, 0b0010,
        0b1000, 0b0111, 0b0110, 0b0101, 0b0100, 0b0011, 0b0010, 0b0001,
    ];

    assert_eq!(tile_gfx.flip((false, false)), tile_gfx.colors);
    assert_eq!(tile_gfx.flip((true, false)), colors_flipped_horizontally);
    assert_eq!(tile_gfx.flip((false, true)), colors_flipped_vertically);
    assert_eq!(tile_gfx.flip((true, true)), colors_flipped_both_axis);
}

/// Load a graphics sheet composed of two tiles in 4bpp format.
#[test]
fn load_gfx_from_4bpp() {
    let expected_gfx = Gfx { tiles: vec![
        TileGfx { colors: vec![
            0b0001, 0b0010, 0b0011, 0b0100, 0b0101, 0b0110, 0b0111, 0b1000,
            0b0010, 0b0011, 0b0100, 0b0101, 0b0110, 0b0111, 0b1000, 0b1001,
            0b0011, 0b0100, 0b0101, 0b0110, 0b0111, 0b1000, 0b1001, 0b1010,
            0b0100, 0b0101, 0b0110, 0b0111, 0b1000, 0b1001, 0b1010, 0b1011,
            0b0101, 0b0110, 0b0111, 0b1000, 0b1001, 0b1010, 0b1011, 0b1100,
            0b0110, 0b0111, 0b1000, 0b1001, 0b1010, 0b1011, 0b1100, 0b1101,
            0b0111, 0b1000, 0b1001, 0b1010, 0b1011, 0b1100, 0b1101, 0b1110,
            0b1000, 0b1001, 0b1010, 0b1011, 0b1100, 0b1101, 0b1110, 0b1111,
        ]},
        TileGfx { colors: vec![
            0b1110, 0b1101, 0b1100, 0b1011, 0b1010, 0b1001, 0b1000, 0b0111,
            0b1101, 0b1100, 0b1011, 0b1010, 0b1001, 0b1000, 0b0111, 0b0110,
            0b1100, 0b1011, 0b1010, 0b1001, 0b1000, 0b0111, 0b0110, 0b0101,
            0b1011, 0b1010, 0b1001, 0b1000, 0b0111, 0b0110, 0b0101, 0b0100,
            0b1010, 0b1001, 0b1000, 0b0111, 0b0110, 0b0101, 0b0100, 0b0011,
            0b1001, 0b1000, 0b0111, 0b0110, 0b0101, 0b0100, 0b0011, 0b0010,
            0b1000, 0b0111, 0b0110, 0b0101, 0b0100, 0b0011, 0b0010, 0b0001,
            0b0111, 0b0110, 0b0101, 0b0100, 0b0011, 0b0010, 0b0001, 0b0000,
        ]},
    ]};

    let gfx_in_4bpp = [
        0b1010_1010, 0b0110_0110,
        0b0101_0101, 0b1100_1100,
        0b1010_1010, 0b1001_1001,
        0b0101_0101, 0b0011_0011,
        0b1010_1010, 0b0110_0110,
        0b0101_0101, 0b1100_1100,
        0b1010_1010, 0b1001_1001,
        0b0101_0101, 0b0011_0011,
        0b0001_1110, 0b0000_0001,
        0b0011_1100, 0b0000_0011,
        0b0111_1000, 0b0000_0111,
        0b1111_0000, 0b0000_1111,
        0b1110_0001, 0b0001_1111,
        0b1100_0011, 0b0011_1111,
        0b1000_0111, 0b0111_1111,
        0b0000_1111, 0b1111_1111,
        0b0101_0101, 0b1001_1001,
        0b1010_1010, 0b0011_0011,
        0b0101_0101, 0b0110_0110,
        0b1010_1010, 0b1100_1100,
        0b0101_0101, 0b1001_1001,
        0b1010_1010, 0b0011_0011,
        0b0101_0101, 0b0110_0110,
        0b1010_1010, 0b1100_1100,
        0b1110_0001, 0b1111_1110,
        0b1100_0011, 0b1111_1100,
        0b1000_0111, 0b1111_1000,
        0b0000_1111, 0b1111_0000,
        0b0001_1110, 0b1110_0000,
        0b0011_1100, 0b1100_0000,
        0b0111_1000, 0b1000_0000,
        0b1111_0000, 0b0000_0000,
    ];

    assert_eq!(from_4bpp(&gfx_in_4bpp), expected_gfx);
}

/// Convert a graphics sheet into a flat run of indexed colors, pixel
/// row by pixel row.
#[test]
fn convert_gfx_to_indexed_colors() {
    let expected_indexed_colors = [
        [[0b0001, 0b0010, 0b0011, 0b0100, 0b0101, 0b0110, 0b0111, 0b1000]; GFX_TILE_WIDTH / 2].concat(),
        [[0b1110, 0b1101, 0b1100, 0b1011, 0b1010, 0b1001, 0b1000, 0b0111]; GFX_TILE_WIDTH / 2].concat(),
        [[0b0010, 0b0011, 0b0100, 0b0101, 0b0110, 0b0111, 0b1000, 0b1001]; GFX_TILE_WIDTH / 2].concat(),
        [[0b1101, 0b1100, 0b1011, 0b1010, 0b1001, 0b1000, 0b0111, 0b0110]; GFX_TILE_WIDTH / 2].concat(),
        [[0b0011, 0b0100, 0b0101, 0b0110, 0b0111, 0b1000, 0b1001, 0b1010]; GFX_TILE_WIDTH / 2].concat(),
        [[0b1100, 0b1011, 0b1010, 0b1001, 0b1000, 0b0111, 0b0110, 0b0101]; GFX_TILE_WIDTH / 2].concat(),
        [[0b0100, 0b0101, 0b0110, 0b0111, 0b1000, 0b1001, 0b1010, 0b1011]; GFX_TILE_WIDTH / 2].concat(),
        [[0b1011, 0b1010, 0b1001, 0b1000, 0b0111, 0b0110, 0b0101, 0b0100]; GFX_TILE_WIDTH / 2].concat(),
        [[0b0101, 0b0110, 0b0111, 0b1000, 0b1001, 0b1010, 0b1011, 0b1100]; GFX_TILE_WIDTH / 2].concat(),
        [[0b1010, 0b1001, 0b1000, 0b0111, 0b0110, 0b0101, 0b0100, 0b0011]; GFX_TILE_WIDTH / 2].concat(),
        [[0b0110, 0b0111, 0b1000, 0b1001, 0b1010, 0b1011, 0b1100, 0b1101]; GFX_TILE_WIDTH / 2].concat(),
        [[0b1001, 0b1000, 0b0111, 0b0110, 0b0101, 0b0100, 0b0011, 0b0010]; GFX_TILE_WIDTH / 2].concat(),
        [[0b0111, 0b1000, 0b1001, 0b1010, 0b1011, 0b1100, 0b1101, 0b1110]; GFX_TILE_WIDTH / 2].concat(),
        [[0b1000, 0b0111, 0b0110, 0b0101, 0b0100, 0b0011, 0b0010, 0b0001]; GFX_TILE_WIDTH / 2].concat(),
        [[0b1000, 0b1001, 0b1010, 0b1011, 0b1100, 0b1101, 0b1110, 0b1111]; GFX_TILE_WIDTH / 2].concat(),
        [[0b0111, 0b0110, 0b0101, 0b0100, 0b0011, 0b0010, 0b0001, 0b0000]; GFX_TILE_WIDTH / 2].concat(),
        [[0b1110, 0b1101, 0b1100, 0b1011, 0b1010, 0b1001, 0b1000, 0b0111]; GFX_TILE_WIDTH / 2].concat(),
        [[0b0001, 0b0010, 0b0011, 0b0100, 0b0101, 0b0110, 0b0111, 0b1000]; GFX_TILE_WIDTH / 2].concat(),
        [[0b1101, 0b1100, 0b1011, 0b1010, 0b1001, 0b1000, 0b0111, 0b0110]; GFX_TILE_WIDTH / 2].concat(),
        [[0b0010, 0b0011, 0b0100, 0b0101, 0b0110, 0b0111, 0b1000, 0b1001]; GFX_TILE_WIDTH / 2].concat(),
        [[0b1100, 0b1011, 0b1010, 0b1001, 0b1000, 0b0111, 0b0110, 0b0101]; GFX_TILE_WIDTH / 2].concat(),
        [[0b0011, 0b0100, 0b0101, 0b0110, 0b0111, 0b1000, 0b1001, 0b1010]; GFX_TILE_WIDTH / 2].concat(),
        [[0b1011, 0b1010, 0b1001, 0b1000, 0b0111, 0b0110, 0b0101, 0b0100]; GFX_TILE_WIDTH / 2].concat(),
        [[0b0100, 0b0101, 0b0110, 0b0111, 0b1000, 0b1001, 0b1010, 0b1011]; GFX_TILE_WIDTH / 2].concat(),
        [[0b1010, 0b1001, 0b1000, 0b0111, 0b0110, 0b0101, 0b0100, 0b0011]; GFX_TILE_WIDTH / 2].concat(),
        [[0b0101, 0b0110, 0b0111, 0b1000, 0b1001, 0b1010, 0b1011, 0b1100]; GFX_TILE_WIDTH / 2].concat(),
        [[0b1001, 0b1000, 0b0111, 0b0110, 0b0101, 0b0100, 0b0011, 0b0010]; GFX_TILE_WIDTH / 2].concat(),
        [[0b0110, 0b0111, 0b1000, 0b1001, 0b1010, 0b1011, 0b1100, 0b1101]; GFX_TILE_WIDTH / 2].concat(),
        [[0b1000, 0b0111, 0b0110, 0b0101, 0b0100, 0b0011, 0b0010, 0b0001]; GFX_TILE_WIDTH / 2].concat(),
        [[0b0111, 0b1000, 0b1001, 0b1010, 0b1011, 0b1100, 0b1101, 0b1110]; GFX_TILE_WIDTH / 2].concat(),
        [[0b0111, 0b0110, 0b0101, 0b0100, 0b0011, 0b0010, 0b0001, 0b0000]; GFX_TILE_WIDTH / 2].concat(),
        [[0b1000, 0b1001, 0b1010, 0b1011, 0b1100, 0b1101, 0b1110, 0b1111]; GFX_TILE_WIDTH / 2].concat(),
    ]
    .concat();

    let half_size_tile_gfx = vec![TileGfx { colors: vec![
        0b0001, 0b0010, 0b0011, 0b0100, 0b0101, 0b0110, 0b0111, 0b1000,
        0b0010, 0b0011, 0b0100, 0b0101, 0b0110, 0b0111, 0b1000, 0b1001,
        0b0011, 0b0100, 0b0101, 0b0110, 0b0111, 0b1000, 0b1001, 0b1010,
        0b0100, 0b0101, 0b0110, 0b0111, 0b1000, 0b1001, 0b1010, 0b1011,
        0b0101, 0b0110, 0b0111, 0b1000, 0b1001, 0b1010, 0b1011, 0b1100,
        0b0110, 0b0111, 0b1000, 0b1001, 0b1010, 0b1011, 0b1100, 0b1101,
        0b0111, 0b1000, 0b1001, 0b1010, 0b1011, 0b1100, 0b1101, 0b1110,
        0b1000, 0b1001, 0b1010, 0b1011, 0b1100, 0b1101, 0b1110, 0b1111,
    ]}; GFX_TILE_WIDTH / 2];

    let half_size_inverted_tile_gfx = vec![TileGfx { colors: vec![
        0b1110, 0b1101, 0b1100, 0b1011, 0b1010, 0b1001, 0b1000, 0b0111,
        0b1101, 0b1100, 0b1011, 0b1010, 0b1001, 0b1000, 0b0111, 0b0110,
        0b1100, 0b1011, 0b1010, 0b1001, 0b1000, 0b0111, 0b0110, 0b0101,
        0b1011, 0b1010, 0b1001, 0b1000, 0b0111, 0b0110, 0b0101, 0b0100,
        0b1010, 0b1001, 0b1000, 0b0111, 0b0110, 0b0101, 0b0100, 0b0011,
        0b1001, 0b1000, 0b0111, 0b0110, 0b0101, 0b0100, 0b0011, 0b0010,
        0b1000, 0b0111, 0b0110, 0b0101, 0b0100, 0b0011, 0b0010, 0b0001,
        0b0111, 0b0110, 0b0101, 0b0100, 0b0011, 0b0010, 0b0001, 0b0000,
    ]}; GFX_TILE_WIDTH / 2];

    let gfx = Gfx {
        tiles: [
            half_size_tile_gfx.clone(),
            half_size_inverted_tile_gfx.clone(),
            half_size_inverted_tile_gfx.clone(),
            half_size_tile_gfx.clone(),
        ]
        .concat(),
    };

    assert_eq!(gfx.to_indexed_colors(), expected_indexed_colors);
}

fn repeated_sub_palette() -> SubPalette {
    SubPalette { colors: vec![Bgr555 { r: 4, g: 10, b: 21, u: 0 }; COLORS_BY_SUB_PALETTE] }
}

/// Load a palette from packed two-byte colors, with and without the
/// "TPL" header, and pack it back.
#[test]
fn convert_palette_from_and_into_two_bytes_bgr555_format() {
    let sub_palettes: Vec<SubPalette> = vec![repeated_sub_palette(); NUMBER_OF_SUB_PALETTES];
    let expected_palette = Palette { sub_palettes };
    let palette_bytes = [0b010_00100u8, 0b0_10101_01]
        .repeat(COLORS_BY_SUB_PALETTE)
        .repeat(NUMBER_OF_SUB_PALETTES);

    let palette = from_bytes(&palette_bytes).unwrap();
    assert_eq!(palette, expected_palette);
    assert_eq!(palette.to_bytes(), palette_bytes);

    let mut palette_bytes_with_header_for_two_bytes = b"TPL".to_vec();
    palette_bytes_with_header_for_two_bytes.push(0x02);
    palette_bytes_with_header_for_two_bytes.extend(&palette_bytes);

    let palette = from_bytes(&palette_bytes_with_header_for_two_bytes).unwrap();
    assert_eq!(palette, expected_palette);
    assert_eq!(palette.to_bytes(), palette_bytes);
}

/// Missing sub-palettes are padded with the all-black default.
#[test]
fn load_palette_from_two_bytes_bgr555_format_with_missing_sub_palettes() {
    let sub_palettes: Vec<SubPalette> = vec![
        repeated_sub_palette(),
        repeated_sub_palette(),
        repeated_sub_palette(),
        SubPalette::default(),
        SubPalette::default(),
        SubPalette::default(),
        SubPalette::default(),
        SubPalette::default(),
    ];

    let expected_palette = Palette { sub_palettes };
    let palette_bytes = [0b010_00100u8, 0b0_10101_01].repeat(COLORS_BY_SUB_PALETTE).repeat(3);

    let palette = from_bytes(&palette_bytes).unwrap();
    assert_eq!(palette, expected_palette);
}

/// More than 8 sub-palettes' worth of data is refused.
#[test]
fn load_palette_from_two_bytes_bgr555_format_with_exceeding_sub_palettes() {
    let palette_bytes = [0b010_00100u8, 0b0_10101_01]
        .repeat(COLORS_BY_SUB_PALETTE)
        .repeat(NUMBER_OF_SUB_PALETTES + 1);
    assert!(from_bytes(&palette_bytes).is_err());
}

/// The 5-bit and 8-bit channel forms convert between themselves.
#[test]
fn convert_bgr555_and_rgb888_between_themselves() {
    let bgr555_and_rgb888_colors = [
        (
            Bgr555 { r: 0b00000, g: 0b00000, b: 0b00000, u: 0 },
            Rgb888 { r: 0b00000000, g: 0b00000000, b: 0b00000000 },
        ),
        (
            Bgr555 { r: 0b10111, g: 0b11011, b: 0b11101, u: 0 },
            Rgb888 { r: 0b10111000, g: 0b11011000, b: 0b11101000 },
        ),
        (
            Bgr555 { r: 0b01010, g: 0b10101, b: 0b00111, u: 0 },
            Rgb888 { r: 0b01010000, g: 0b10101000, b: 0b00111000 },
        ),
        (
            Bgr555 { r: 0b11111, g: 0b11111, b: 0b11111, u: 0 },
            Rgb888 { r: 0b11111000, g: 0b11111000, b: 0b11111000 },
        ),
    ];

    for (bgr555, rgb888) in bgr555_and_rgb888_colors {
        assert_eq!(bgr555, Bgr555::from(rgb888));
        assert_eq!(rgb888, Rgb888::from(bgr555));
    }
}

/// Load a packed two-byte color and pack it back.
#[test]
fn convert_bgr555_from_and_into_two_bytes() {
    let bytes_and_expected_bgr555 = [
        (Bgr555 { r: 0b00000, g: 0b00000, b: 0b00000, u: 0 }, [0b0_00000_00u8, 0b000_00000]),
        (Bgr555 { r: 0b10111, g: 0b11011, b: 0b11101, u: 1 }, [0b011_10111, 0b1_11101_11]),
        (Bgr555 { r: 0b01010, g: 0b10101, b: 0b00111, u: 0 }, [0b1_01010_10, 0b000_11110]),
        (Bgr555 { r: 0b11111, g: 0b11111, b: 0b11111, u: 1 }, [0b1_11111_11, 0b111_11111]),
    ];

    for (bgr555, bytes) in bytes_and_expected_bgr555 {
        assert_eq!(bgr555, Bgr555::from_bytes(&bytes).unwrap());
        assert_eq!(bytes.to_vec(), bgr555.to_bytes());
    }
}

/// Load a color from the three-byte, 8-bit-channel form.
#[test]
fn load_bgr555_from_three_bytes() {
    let bytes_and_expected_bgr555 = [
        (Bgr555 { r: 0b00000, g: 0b00000, b: 0b00000, u: 0 }, [0b00000_000u8, 0b00000_000, 0b00000_000]),
        (Bgr555 { r: 0b10111, g: 0b11011, b: 0b11101, u: 0 }, [0b10111_000, 0b11011_000, 0b11101_000]),
        (Bgr555 { r: 0b01010, g: 0b10101, b: 0b00111, u: 0 }, [0b01010_000, 0b10101_000, 0b00111_000]),
        (Bgr555 { r: 0b11111, g: 0b11111, b: 0b11111, u: 0 }, [0b11111_000, 0b11111_000, 0b11111_000]),
    ];

    for (bgr555, bytes) in bytes_and_expected_bgr555 {
        assert_eq!(bgr555, Bgr555::from_bytes(&bytes).unwrap());
    }
}

/// A color is exactly two or three bytes; other sizes are refused.
#[test]
fn fail_to_load_bgr555_from_incorrect_sized_bytes() {
    assert!(Bgr555::from_bytes(&[]).is_err());
    assert!(Bgr555::from_bytes(&[0x00]).is_err());
    assert!(Bgr555::from_bytes(&[0x00, 0x00, 0x00, 0x00]).is_err());
}
