//! Palettes: 8 sub-palettes of 16 colors, each color 5 bits per
//! channel. The packed form is a little-endian 16-bit word per color
//! (`UBBB_BBGG GGGR_RRRR`); an optional "TPL" header with a type byte
//! selects an alternative 3-byte, 8-bit-per-channel form that is
//! right-shifted into 5 bits on decode.
use vstd::prelude::*;

use crate::{le16_at, ParseError};

verus! {

pub const NUMBER_OF_SUB_PALETTES: usize = 8;

pub const COLORS_BY_SUB_PALETTE: usize = 16;

/// A color with 5-bit red, green and blue channels and one unused bit.
#[derive(Debug, Clone, Copy, PartialEq, Eq, Structural)]
pub struct Bgr555 {
    pub r: u8,
    pub g: u8,
    pub b: u8,
    pub u: u8,
}

/// One bank of 16 colors.
#[derive(Debug, Clone, PartialEq)]
pub struct SubPalette {
    pub colors: Vec<Bgr555>,
}

/// A full palette: exactly 8 sub-palettes after decoding.
#[derive(Debug, Clone, PartialEq)]
pub struct Palette {
    pub sub_palettes: Vec<SubPalette>,
}

/// A color with 8-bit channels, the 5-bit channels shifted up.
#[derive(Debug, Clone, Copy, PartialEq, Eq, Structural)]
pub struct Rgb888 {
    pub r: u8,
    pub g: u8,
    pub b: u8,
}

impl Bgr555 {
    /// Channels fit 5 bits; the unused bit fits 1.
    pub open spec fn wf(self) -> bool {
        self.r < 32 && self.g < 32 && self.b < 32 && self.u < 2
    }
}

impl SubPalette {
    pub open spec fn wf(self) -> bool {
        self.colors@.len() == 16 && forall|i: int|
            0 <= i < 16 ==> (#[trigger] self.colors@[i]).wf()
    }
}

impl Palette {
    pub open spec fn wf(self) -> bool {
        self.sub_palettes@.len() == 8 && forall|i: int|
            0 <= i < 8 ==> (#[trigger] self.sub_palettes@[i]).wf()
    }
}

/// The all-black color.
pub open spec fn bgr555_zero() -> Bgr555 {
    Bgr555 { r: 0, g: 0, b: 0, u: 0 }
}

/// A sub-palette of 16 all-black colors, used to pad short palettes.
pub open spec fn is_default_sub_palette(sp: SubPalette) -> bool {
    sp.colors@.len() == 16 && forall|i: int| 0 <= i < 16 ==> #[trigger] sp.colors@[i]
        == bgr555_zero()
}

/// The color packed in the 16-bit word `w`: bit 15 unused, then 5 bits
/// each of blue, green and red down from the top.
pub open spec fn bgr555_from_word(w: int) -> Bgr555 {
    Bgr555 {
        u: (w / 0x8000 % 2) as u8,
        b: (w / 0x400 % 32) as u8,
        g: (w / 0x20 % 32) as u8,
        r: (w % 32) as u8,
    }
}

/// The color held in three 8-bit channel bytes, reduced to 5 bits each.
pub open spec fn bgr555_from_rgb_bytes(b0: u8, b1: u8, b2: u8) -> Bgr555 {
    Bgr555 { u: 0, r: b0 / 8, g: b1 / 8, b: b2 / 8 }
}

/// Low byte of a color's packed 16-bit word.
pub open spec fn bgr555_low(c: Bgr555) -> u8 {
    (c.g % 8 * 32 + c.r) as u8
}

/// High byte of a color's packed 16-bit word.
pub open spec fn bgr555_high(c: Bgr555) -> u8 {
    (c.u * 128 + c.b * 4 + c.g / 8) as u8
}

/// The 8-bit-channel rendering of a 5-bit-channel color.
pub open spec fn rgb888_of(c: Bgr555) -> Rgb888 {
    Rgb888 { r: c.r << 3, g: c.g << 3, b: c.b << 3 }
}

/// The 5-bit-channel reduction of an 8-bit-channel color.
pub open spec fn bgr555_of_rgb888(c: Rgb888) -> Bgr555 {
    Bgr555 { r: c.r >> 3, g: c.g >> 3, b: c.b >> 3, u: 0 }
}

/// Byte `j` of a palette packed to little-endian words.
pub open spec fn palette_byte(p: Palette, j: int) -> u8 {
    let c = p.sub_palettes@[j / 32].colors@[j / 2 % 16];
    if j % 2 == 0 {
        bgr555_low(c)
    } else {
        bgr555_high(c)
    }
}

impl Bgr555 {
    /// Decode one color: two bytes are the packed little-endian word,
    /// three bytes are 8-bit channels; any other size is malformed.
    pub fn from_bytes(source: &[u8]) -> (r: Result<Bgr555, ParseError>)
        ensures
            r is Ok <==> (source@.len() == 2 || source@.len() == 3),
            source@.len() == 2 ==> r == Ok::<Bgr555, ParseError>(
                bgr555_from_word(le16_at(source@, 0)),
            ),
            source@.len() == 3 ==> r == Ok::<Bgr555, ParseError>(
                bgr555_from_rgb_bytes(source@[0], source@[1], source@[2]),
            ),
            r matches Ok(c) ==> c.wf(),
    {
        if source.len() == 2 {
            let two_bytes = crate::read_le16(source, 0);
            Ok(
                Self {
                    u: (two_bytes / 0x8000 % 2) as u8,
                    b: (two_bytes / 0x400 % 32) as u8,
                    g: (two_bytes / 0x20 % 32) as u8,
                    r: (two_bytes % 32) as u8,
                },
            )
        } else if source.len() == 3 {
            Ok(Self { u: 0, r: source[0] / 8, g: source[1] / 8, b: source[2] / 8 })
        } else {
            Err(ParseError)
        }
    }

    /// Encode one color as its packed little-endian word; decoding the
    /// two bytes yields the color back.
    pub fn to_bytes(&self) -> (r: Vec<u8>)
        requires
            self.wf(),
        ensures
            r@.len() == 2,
            r@[0] == bgr555_low(*self),
            r@[1] == bgr555_high(*self),
            bgr555_from_word(le16_at(r@, 0)) == *self,
    {
        let high_byte = self.u * 128 + self.b * 4 + self.g / 8;
        let low_byte = self.g % 8 * 32 + self.r;
        let mut out: Vec<u8> = Vec::new();
        out.push(low_byte);
        out.push(high_byte);
        proof {
            let w = le16_at(out@, 0);
            assert(w == low_byte + 0x100 * high_byte);
            assert(w / 0x8000 % 2 == self.u && w / 0x400 % 32 == self.b && w / 0x20 % 32 == self.g
                && w % 32 == self.r) by (nonlinear_arith)
                requires
                    w == (self.g % 8 * 32 + self.r) + 0x100 * (self.u * 128 + self.b * 4 + self.g
                        / 8),
                    self.r < 32,
                    self.g < 32,
                    self.b < 32,
                    self.u < 2,
            ;
        }
        out
    }
}

impl Default for Bgr555 {
    /// The all-black color.
    fn default() -> (r: Bgr555)
        ensures
            r == bgr555_zero(),
    {
        Bgr555 { r: 0, g: 0, b: 0, u: 0 }
    }
}

impl Default for SubPalette {
    /// Sixteen all-black colors.
    fn default() -> (r: SubPalette)
        ensures
            is_default_sub_palette(r),
            r.wf(),
    {
        let mut colors: Vec<Bgr555> = Vec::new();
        let mut i: usize = 0;
        while i < 16
            invariant
                i <= 16,
                colors@.len() == i,
                forall|k: int| 0 <= k < i ==> #[trigger] colors@[k] == bgr555_zero(),
            decreases 16 - i,
        {
            colors.push(Bgr555 { r: 0, g: 0, b: 0, u: 0 });
            i += 1;
        }
        SubPalette { colors }
    }
}

impl From<Bgr555> for Rgb888 {
    fn from(color: Bgr555) -> (r: Rgb888)
        ensures
            r == rgb888_of(color),
    {
        Rgb888 { r: color.r << 3u8, g: color.g << 3u8, b: color.b << 3u8 }
    }
}

impl vstd::std_specs::convert::FromSpecImpl<Bgr555> for Rgb888 {
    open spec fn obeys_from_spec() -> bool {
        true
    }

    open spec fn from_spec(color: Bgr555) -> Rgb888 {
        rgb888_of(color)
    }
}

impl From<Rgb888> for Bgr555 {
    fn from(color: Rgb888) -> (r: Bgr555)
        ensures
            r == bgr555_of_rgb888(color),
    {
        Bgr555 { r: color.r >> 3u8, g: color.g >> 3u8, b: color.b >> 3u8, u: 0 }
    }
}

impl vstd::std_specs::convert::FromSpecImpl<Rgb888> for Bgr555 {
    open spec fn obeys_from_spec() -> bool {
        true
    }

    open spec fn from_spec(color: Rgb888) -> Bgr555 {
        bgr555_of_rgb888(color)
    }
}

/// Whether `source` starts with the "TPL" header magic.
pub open spec fn has_tpl_header(s: Seq<u8>) -> bool {
    s.len() >= 3 && s[0] == 0x54 && s[1] == 0x50 && s[2] == 0x4C
}

/// Whether the header is well formed: either no magic, or the magic
/// followed by a known type byte.
pub open spec fn palette_header_ok(s: Seq<u8>) -> bool {
    has_tpl_header(s) ==> s.len() >= 4 && (s[3] == 0 || s[3] == 2)
}

/// Bytes per packed color, from the header: the 3-byte form only under
/// a "TPL" header with type byte 0.
pub open spec fn palette_bpc(s: Seq<u8>) -> int {
    if has_tpl_header(s) && s.len() >= 4 && s[3] == 0 {
        3
    } else {
        2
    }
}

/// The color data after any header.
pub open spec fn palette_data(s: Seq<u8>) -> Seq<u8> {
    if has_tpl_header(s) {
        s.skip(4)
    } else {
        s
    }
}

/// Whether `s` decodes to a palette: a well-formed header, whole
/// sub-palettes only, and at most 8 of them.
pub open spec fn palette_decodes(s: Seq<u8>) -> bool {
    palette_header_ok(s) && palette_data(s).len() as int % (16 * palette_bpc(s)) == 0
        && palette_data(s).len() <= 8 * 16 * palette_bpc(s)
}

/// The color at index `idx` of the decoded data.
pub open spec fn palette_color_at(data: Seq<u8>, bpc: int, idx: int) -> Bgr555 {
    if bpc == 2 {
        bgr555_from_word(le16_at(data, 2 * idx))
    } else {
        bgr555_from_rgb_bytes(data[3 * idx], data[3 * idx + 1], data[3 * idx + 2])
    }
}

/// `p` is what `s` decodes to: each stored sub-palette in order, then
/// all-black padding up to 8.
pub open spec fn is_decoded_palette(s: Seq<u8>, p: Palette) -> bool {
    let bpc = palette_bpc(s);
    let data = palette_data(s);
    let n_sub = data.len() as int / (16 * bpc);
    p.sub_palettes@.len() == 8 && forall|si: int, ci: int|
        0 <= si < 8 && 0 <= ci < 16 ==> #[trigger] p.sub_palettes@[si].colors@[ci] == (if si
            < n_sub {
            palette_color_at(data, bpc, si * 16 + ci)
        } else {
            bgr555_zero()
        })
}

/// Decode a palette. Short data is padded with all-black sub-palettes;
/// more than 8 sub-palettes, a torn sub-palette, or a bad header is
/// malformed.
pub fn from_bytes(source: &[u8]) -> (r: Result<Palette, ParseError>)
    ensures
        r is Ok <==> palette_decodes(source@),
        r matches Ok(p) ==> p.wf() && is_decoded_palette(source@, p),
{
    let len = source.len();
    let has_header = len >= 3 && source[0] == 0x54 && source[1] == 0x50 && source[2] == 0x4C;
    let bytes_per_color: usize;
    let data_start: usize;
    if has_header {
        if len < 4 {
            return Err(ParseError);
        }
        if source[3] == 0 {
            bytes_per_color = 3;
        } else if source[3] == 2 {
            bytes_per_color = 2;
        } else {
            return Err(ParseError);
        }
        data_start = 4;
    } else {
        bytes_per_color = 2;
        data_start = 0;
    }
    let data_len = len - data_start;
    let sub_palette_bytes = 16 * bytes_per_color;
    let ghost data = palette_data(source@);
    proof {
        assert(data =~= source@.skip(data_start as int));
        assert(data.len() == data_len);
    }
    proof {
        assert(palette_header_ok(source@) && palette_bpc(source@) == bytes_per_color);
    }
    if data_len % sub_palette_bytes != 0 || data_len > 8 * sub_palette_bytes {
        proof {
            assert(palette_data(source@).len() == data_len);
            assert(data_len as int % (16 * bytes_per_color as int) != 0 || data_len > 8 * (16
                * bytes_per_color as int));
            assert(!palette_decodes(source@));
        }
        return Err(ParseError);
    }
    let n_sub = data_len / sub_palette_bytes;
    proof {
        assert(n_sub * (16 * bytes_per_color) == data_len && n_sub <= 8) by (nonlinear_arith)
            requires
                n_sub == data_len as int / (16 * bytes_per_color as int),
                data_len as int % (16 * bytes_per_color as int) == 0,
                data_len <= 8 * (16 * bytes_per_color as int),
                bytes_per_color >= 2,
        ;
    }
    let mut sub_palettes: Vec<SubPalette> = Vec::new();
    let mut si: usize = 0;
    while si < 8
        invariant
            si <= 8,
            len == source@.len(),
            data_start + data_len == len,
            data == source@.skip(data_start as int),
            bytes_per_color == 2 || bytes_per_color == 3,
            n_sub * (16 * bytes_per_color) == data_len,
            n_sub <= 8,
            sub_palettes@.len() == si,
            forall|s: int| 0 <= s < si ==> (#[trigger] sub_palettes@[s]).wf(),
            forall|s: int, ci: int|
                0 <= s < si && 0 <= ci < 16 ==> #[trigger] sub_palettes@[s].colors@[ci] == (if s
                    < n_sub {
                    palette_color_at(data, bytes_per_color as int, s * 16 + ci)
                } else {
                    bgr555_zero()
                }),
        decreases 8 - si,
    {
        if si < n_sub {
            let mut colors: Vec<Bgr555> = Vec::new();
            let mut ci: usize = 0;
            while ci < 16
                invariant
                    ci <= 16,
                    si < n_sub <= 8,
                    len == source@.len(),
                    data_start + data_len == len,
                    data == source@.skip(data_start as int),
                    bytes_per_color == 2 || bytes_per_color == 3,
                    n_sub * (16 * bytes_per_color) == data_len,
                    colors@.len() == ci,
                    forall|k: int| 0 <= k < ci ==> (#[trigger] colors@[k]).wf(),
                    forall|k: int| 0 <= k < ci ==> #[trigger] colors@[k] == palette_color_at(
                        data,
                        bytes_per_color as int,
                        si * 16 + k,
                    ),
                decreases 16 - ci,
            {
                let idx = si * 16 + ci;
                proof {
                    assert((si * 16 + ci) * bytes_per_color + bytes_per_color <= data_len)
                        by (nonlinear_arith)
                        requires
                            si < n_sub,
                            ci < 16,
                            n_sub * (16 * bytes_per_color) == data_len,
                            bytes_per_color >= 2,
                    ;
                }
                let off = data_start + idx * bytes_per_color;
                let color = if bytes_per_color == 2 {
                    let w = crate::read_le16(source, off);
                    proof {
                        assert(le16_at(source@, off as int) == le16_at(data, 2 * (idx as int)));
                    }
                    Bgr555 {
                        u: (w / 0x8000 % 2) as u8,
                        b: (w / 0x400 % 32) as u8,
                        g: (w / 0x20 % 32) as u8,
                        r: (w % 32) as u8,
                    }
                } else {
                    proof {
                        assert(source@[off as int] == data[3 * (idx as int)] && source@[off as int
                            + 1] == data[3 * (idx as int) + 1] && source@[off as int + 2] == data[3
                            * (idx as int) + 2]);
                    }
                    Bgr555 {
                        u: 0,
                        r: source[off] / 8,
                        g: source[off + 1] / 8,
                        b: source[off + 2] / 8,
                    }
                };
                colors.push(color);
                ci += 1;
            }
            sub_palettes.push(SubPalette { colors });
        } else {
            sub_palettes.push(SubPalette::default());
        }
        si += 1;
    }
    Ok(Palette { sub_palettes })
}

impl Palette {
    /// All 128 colors, sub-palette by sub-palette, rendered to 8-bit
    /// channels.
    pub fn to_colors(&self) -> (r: Vec<Rgb888>)
        requires
            self.wf(),
        ensures
            r@.len() == 128,
            forall|i: int| 0 <= i < 128 ==> #[trigger] r@[i] == rgb888_of(
                self.sub_palettes@[i / 16].colors@[i % 16],
            ),
    {
        let mut colors: Vec<Rgb888> = Vec::new();
        let mut i: usize = 0;
        while i < 128
            invariant
                i <= 128,
                self.wf(),
                colors@.len() == i,
                forall|k: int| 0 <= k < i ==> #[trigger] colors@[k] == rgb888_of(
                    self.sub_palettes@[k / 16].colors@[k % 16],
                ),
            decreases 128 - i,
        {
            let c = self.sub_palettes[i / 16].colors[i % 16];
            colors.push(Rgb888 { r: c.r << 3u8, g: c.g << 3u8, b: c.b << 3u8 });
            i += 1;
        }
        colors
    }

    /// All 128 colors packed back to little-endian words, 256 bytes.
    pub fn to_bytes(&self) -> (r: Vec<u8>)
        requires
            self.wf(),
        ensures
            r@.len() == 256,
            forall|j: int| 0 <= j < 256 ==> #[trigger] r@[j] == palette_byte(*self, j),
    {
        let mut bytes: Vec<u8> = Vec::new();
        let mut i: usize = 0;
        while i < 128
            invariant
                i <= 128,
                self.wf(),
                bytes@.len() == 2 * i,
                forall|j: int| 0 <= j < 2 * i ==> #[trigger] bytes@[j] == palette_byte(*self, j),
            decreases 128 - i,
        {
            let c = self.sub_palettes[i / 16].colors[i % 16];
            bytes.push(c.g % 8 * 32 + c.r);
            bytes.push(c.u * 128 + c.b * 4 + c.g / 8);
            proof {
                assert(2 * (i as int) / 32 == i as int / 16 && (2 * (i as int) + 1) / 32 == i as int
                    / 16 && 2 * (i as int) / 2 % 16 == i as int % 16 && (2 * (i as int) + 1) / 2
                    % 16 == i as int % 16) by (nonlinear_arith)
                    requires
                        0 <= i < 128,
                ;
            }
            i += 1;
        }
        bytes
    }
}

/// Encoding then decoding a well-formed palette yields its colors back:
/// the packed bytes decode headerless into the same 8 sub-palettes.
/// Decoding sniffs the first bytes for the "TPL" magic, so the one
/// exclusion is a palette whose first three packed bytes happen to
/// spell it.
pub proof fn lemma_palette_to_bytes_round_trip(p: Palette, bytes: Seq<u8>)
    requires
        p.wf(),
        bytes.len() == 256,
        forall|j: int| 0 <= j < 256 ==> #[trigger] bytes[j] == palette_byte(p, j),
        !(bytes[0] == 0x54 && bytes[1] == 0x50 && bytes[2] == 0x4C),
    ensures
        palette_decodes(bytes),
        is_decoded_palette(bytes, p),
{
    assert(!has_tpl_header(bytes));
    assert(palette_data(bytes) == bytes);
    assert(palette_header_ok(bytes) && palette_bpc(bytes) == 2);
    assert(palette_data(bytes).len() == 256 && 16 * palette_bpc(bytes) == 32);
    assert(palette_data(bytes).len() as int % (16 * palette_bpc(bytes)) == 0) by (nonlinear_arith)
        requires
            palette_data(bytes).len() == 256,
            16 * palette_bpc(bytes) == 32,
    ;
    assert(palette_data(bytes).len() <= 8 * 16 * palette_bpc(bytes));
    assert(palette_decodes(bytes));
    assert forall|si: int, ci: int| 0 <= si < 8 && 0 <= ci < 16 implies #[trigger] p.sub_palettes@[si].colors@[ci]
        == palette_color_at(bytes, 2, si * 16 + ci) by {
        let i = si * 16 + ci;
        assert(0 <= i < 128 && (2 * i) / 32 == si && (2 * i) / 2 % 16 == ci && (2 * i + 1) / 32
            == si && (2 * i + 1) / 2 % 16 == ci) by (nonlinear_arith)
            requires
                0 <= si < 8,
                0 <= ci < 16,
                i == si * 16 + ci,
        ;
        let c = p.sub_palettes@[si].colors@[ci];
        assert(bytes[2 * i] == bgr555_low(c) && bytes[2 * i + 1] == bgr555_high(c));
        let w = le16_at(bytes, 2 * i);
        assert(bgr555_from_word(w) == c) by (nonlinear_arith)
            requires
                c.wf(),
                w == (c.g % 8 * 32 + c.r) + 0x100 * (c.u * 128 + c.b * 4 + c.g / 8),
                bgr555_from_word(w) == (Bgr555 {
                    u: (w / 0x8000 % 2) as u8,
                    b: (w / 0x400 % 32) as u8,
                    g: (w / 0x20 % 32) as u8,
                    r: (w % 32) as u8,
                }),
        ;
    }
}

} // verus!
