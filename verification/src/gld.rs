//! `.gld` sprite sheets: a header, packed pixels, palettes of 15-bit colours
//! with a transparency bit, and one footer entry per sprite giving where its
//! pixels and palette are, its format and the rectangle it covers.
use vstd::prelude::*;
use crate::bytes::{u16_at, u32_at, u16_of, read_u16_le, read_u32_le, le_bytes_u16, le_bytes_u32, push_u16_le, push_u32_le, extend_bytes};

verus! {

/// Unpacks 2-bit pixels, the lowest bits of each byte first.
pub open spec fn unpack2_spec(data: Seq<u8>) -> Seq<u8> {
    Seq::new(4 * data.len(), |i: int| (data[i / 4] >> (2 * (i % 4)) as u8) & 3u8)
}

/// Unpacks 4-bit pixels, the low nibble of each byte first.
pub open spec fn unpack4_spec(data: Seq<u8>) -> Seq<u8> {
    Seq::new(2 * data.len(), |i: int| (data[i / 2] >> (4 * (i % 2)) as u8) & 15u8)
}

/// Unpacks 2-bit pixels, four from each byte, the lowest bits first.
pub fn unpack_2bits_le(data: &[u8]) -> (r: Vec<u8>)
    requires
        4 * data@.len() <= usize::MAX,
    ensures
        r@ == unpack2_spec(data@),
{
    let mut r: Vec<u8> = Vec::new();
    let mut i: usize = 0;
    while i < data.len()
        invariant
            i <= data@.len(),
            r@ =~= unpack2_spec(data@.subrange(0, i as int)),
        decreases data@.len() - i,
    {
        let x = data[i];
        r.push(x & 3);
        r.push((x >> 2u8) & 3);
        r.push((x >> 4u8) & 3);
        r.push((x >> 6u8) & 3);
        proof {
            assert(x >> 0u8 == x) by (bit_vector);
        }
        i = i + 1;
        assert(r@ =~= unpack2_spec(data@.subrange(0, i as int)));
    }
    assert(data@.subrange(0, data@.len() as int) =~= data@);
    r
}

/// Unpacks 4-bit pixels, two from each byte, the low nibble first.
pub fn unpack_4bits_le(data: &[u8]) -> (r: Vec<u8>)
    requires
        2 * data@.len() <= usize::MAX,
    ensures
        r@ == unpack4_spec(data@),
{
    let mut r: Vec<u8> = Vec::new();
    let mut i: usize = 0;
    while i < data.len()
        invariant
            i <= data@.len(),
            r@ =~= unpack4_spec(data@.subrange(0, i as int)),
        decreases data@.len() - i,
    {
        let x = data[i];
        r.push(x & 15);
        r.push((x >> 4u8) & 15);
        proof {
            assert(x >> 0u8 == x) by (bit_vector);
        }
        i = i + 1;
        assert(r@ =~= unpack4_spec(data@.subrange(0, i as int)));
    }
    assert(data@.subrange(0, data@.len() as int) =~= data@);
    r
}

/// Pixel `i` of `data`, or `fill` past its end.
pub open spec fn pixel_or(data: Seq<u8>, i: int, fill: u8) -> u8 {
    if i < data.len() {
        data[i]
    } else {
        fill
    }
}

/// Packs 2-bit pixels four to a byte, the first in the lowest bits. A last,
/// partial byte takes its missing pixels from `last_byte`.
pub open spec fn pack2_le_spec(data: Seq<u8>, last_byte: u8) -> Seq<u8> {
    Seq::new(
        ((data.len() + 3) / 4) as nat,
        |k: int|
            (pixel_or(data, 4 * k, last_byte) & 3u8) | ((pixel_or(data, 4 * k + 1, last_byte >> 2u8)
                & 3u8) << 2u8) | ((pixel_or(data, 4 * k + 2, last_byte >> 4u8) & 3u8) << 4u8) | ((
            pixel_or(data, 4 * k + 3, last_byte >> 6u8) & 3u8) << 6u8),
    )
}

/// Packs 4-bit pixels two to a byte, the first in the low nibble. A last,
/// partial byte takes its high nibble from `last_byte`.
pub open spec fn pack4_le_spec(data: Seq<u8>, last_byte: u8) -> Seq<u8> {
    Seq::new(
        ((data.len() + 1) / 2) as nat,
        |k: int|
            (pixel_or(data, 2 * k, last_byte) & 15u8) | ((pixel_or(data, 2 * k + 1, last_byte >> 4u8)
                & 15u8) << 4u8),
    )
}

/// Packs 2-bit pixels four to a byte, the first in the highest bits; a last,
/// partial byte is filled with zeros.
pub open spec fn pack2_be_spec(data: Seq<u8>) -> Seq<u8> {
    Seq::new(
        ((data.len() + 3) / 4) as nat,
        |k: int|
            ((pixel_or(data, 4 * k, 0) & 3u8) << 6u8) | ((pixel_or(data, 4 * k + 1, 0) & 3u8) << 4u8)
                | ((pixel_or(data, 4 * k + 2, 0) & 3u8) << 2u8) | (pixel_or(data, 4 * k + 3, 0) & 3u8),
    )
}

/// Packs 4-bit pixels two to a byte, the first in the high nibble; a last,
/// partial byte is filled with zeros.
pub open spec fn pack4_be_spec(data: Seq<u8>) -> Seq<u8> {
    Seq::new(
        ((data.len() + 1) / 2) as nat,
        |k: int| ((pixel_or(data, 2 * k, 0) & 15u8) << 4u8) | (pixel_or(data, 2 * k + 1, 0) & 15u8),
    )
}

fn px(data: &[u8], i: usize, fill: u8) -> (r: u8)
    ensures
        r == pixel_or(data@, i as int, fill),
{
    if i < data.len() {
        data[i]
    } else {
        fill
    }
}

/// Packs 2-bit pixels four to a byte, the first in the lowest bits.
pub fn pack_2bits_le(data: &[u8], last_byte: u8) -> (r: Vec<u8>)
    ensures
        r@ == pack2_le_spec(data@, last_byte),
{
    let n = data.len();
    let count = n / 4 + if n % 4 == 0 {
        0
    } else {
        1
    };
    assert(count == (n + 3) / 4);
    let mut r: Vec<u8> = Vec::new();
    let mut k: usize = 0;
    while k < count
        invariant
            k <= count,
            count == (data@.len() + 3) / 4,
            n == data@.len(),
            r@ =~= pack2_le_spec(data@, last_byte).subrange(0, k as int),
        decreases count - k,
    {
        let b = (px(data, 4 * k, last_byte) & 3) | ((px(data, 4 * k + 1, last_byte >> 2u8) & 3) << 2u8)
            | ((px(data, 4 * k + 2, last_byte >> 4u8) & 3) << 4u8) | ((px(
            data,
            4 * k + 3,
            last_byte >> 6u8,
        ) & 3) << 6u8);
        r.push(b);
        k = k + 1;
        assert(r@ =~= pack2_le_spec(data@, last_byte).subrange(0, k as int));
    }
    r
}

/// Packs 4-bit pixels two to a byte, the first in the low nibble.
pub fn pack_4bits_le(data: &[u8], last_byte: u8) -> (r: Vec<u8>)
    ensures
        r@ == pack4_le_spec(data@, last_byte),
{
    let n = data.len();
    let count = n / 2 + n % 2;
    let mut r: Vec<u8> = Vec::new();
    let mut k: usize = 0;
    while k < count
        invariant
            k <= count,
            count == (data@.len() + 1) / 2,
            n == data@.len(),
            r@ =~= pack4_le_spec(data@, last_byte).subrange(0, k as int),
        decreases count - k,
    {
        let b = (px(data, 2 * k, last_byte) & 15) | ((px(data, 2 * k + 1, last_byte >> 4u8) & 15) << 4u8);
        r.push(b);
        k = k + 1;
        assert(r@ =~= pack4_le_spec(data@, last_byte).subrange(0, k as int));
    }
    r
}

/// Packs 2-bit pixels four to a byte, the first in the highest bits.
pub fn pack_2bits_be(data: &[u8]) -> (r: Vec<u8>)
    ensures
        r@ == pack2_be_spec(data@),
{
    let n = data.len();
    let count = n / 4 + if n % 4 == 0 {
        0
    } else {
        1
    };
    let mut r: Vec<u8> = Vec::new();
    let mut k: usize = 0;
    while k < count
        invariant
            k <= count,
            count == (data@.len() + 3) / 4,
            n == data@.len(),
            r@ =~= pack2_be_spec(data@).subrange(0, k as int),
        decreases count - k,
    {
        let b = ((px(data, 4 * k, 0) & 3) << 6u8) | ((px(data, 4 * k + 1, 0) & 3) << 4u8) | ((px(
            data,
            4 * k + 2,
            0,
        ) & 3) << 2u8) | (px(data, 4 * k + 3, 0) & 3);
        r.push(b);
        k = k + 1;
        assert(r@ =~= pack2_be_spec(data@).subrange(0, k as int));
    }
    r
}

/// Packs 4-bit pixels two to a byte, the first in the high nibble.
pub fn pack_4bits_be(data: &[u8]) -> (r: Vec<u8>)
    ensures
        r@ == pack4_be_spec(data@),
{
    let n = data.len();
    let count = n / 2 + n % 2;
    let mut r: Vec<u8> = Vec::new();
    let mut k: usize = 0;
    while k < count
        invariant
            k <= count,
            count == (data@.len() + 1) / 2,
            n == data@.len(),
            r@ =~= pack4_be_spec(data@).subrange(0, k as int),
        decreases count - k,
    {
        let b = ((px(data, 2 * k, 0) & 15) << 4u8) | (px(data, 2 * k + 1, 0) & 15);
        r.push(b);
        k = k + 1;
        assert(r@ =~= pack4_be_spec(data@).subrange(0, k as int));
    }
    r
}


/// A 5-bit colour channel widened to 8 bits: the five bits, then their top
/// three again.
pub open spec fn widen5(c: u16) -> u8 {
    ((c << 3u16) | (c >> 2u16)) as u8
}

/// The red, green and blue of a 15-bit colour, each widened to 8 bits.
pub open spec fn color_spec(x: u16) -> Seq<u8> {
    seq![widen5(x & 0x1F), widen5((x >> 5u16) & 0x1F), widen5((x >> 10u16) & 0x1F)]
}

/// The red, green and blue of a 15-bit colour.
pub fn u16_to_color(x: u16) -> (r: [u8; 3])
    ensures
        r@ == color_spec(x),
{
    let r = [
        (((x & 0x1F) << 3u16) | ((x & 0x1F) >> 2u16)) as u8,
        ((((x >> 5u16) & 0x1F) << 3u16) | (((x >> 5u16) & 0x1F) >> 2u16)) as u8,
        ((((x >> 10u16) & 0x1F) << 3u16) | (((x >> 10u16) & 0x1F) >> 2u16)) as u8,
    ];
    assert(r@ =~= color_spec(x));
    r
}

/// Whether a palette colour is drawn (its top bit).
pub open spec fn opaque_spec(x: u16) -> bool {
    (x >> 15u16) & 1 != 0
}

/// Whether a palette colour is drawn.
pub fn u16_to_transparency(x: u16) -> (r: bool)
    ensures
        r == opaque_spec(x),
{
    ((x >> 15u16) & 1) != 0
}

/// The distance between an 8-bit colour, cut to 5 bits a channel, and a palette
/// colour: the sum of the differences of the channels.
pub open spec fn distance_spec(color: Seq<u8>, p: u16) -> int {
    let dr = (color[0] >> 3u8) as int - (p & 0x1F) as int;
    let dg = (color[1] >> 3u8) as int - ((p >> 5u16) & 0x1F) as int;
    let db = (color[2] >> 3u8) as int - ((p >> 10u16) & 0x1F) as int;
    (if dr < 0 {
        -dr
    } else {
        dr
    }) + (if dg < 0 {
        -dg
    } else {
        dg
    }) + (if db < 0 {
        -db
    } else {
        db
    })
}

/// The distance between a colour and a palette colour.
pub fn color_distance(color: &[u8; 3], palette_color: u16) -> (r: i32)
    ensures
        r == distance_spec(color@, palette_color),
{
    let dr: i32 = ((color[0] >> 3u8) as i32) - ((palette_color & 0x1F) as i32);
    let dg: i32 = ((color[1] >> 3u8) as i32) - (((palette_color >> 5u16) & 0x1F) as i32);
    let db: i32 = ((color[2] >> 3u8) as i32) - (((palette_color >> 10u16) & 0x1F) as i32);
    let ar = if dr < 0 {
        -dr
    } else {
        dr
    };
    let ag = if dg < 0 {
        -dg
    } else {
        dg
    };
    let ab = if db < 0 {
        -db
    } else {
        db
    };
    ar + ag + ab
}

/// The palette index chosen for `color`, scanning from `i` with the best so
/// far at `best` and distance `dist`: an exact match wins at once, else the
/// first of the closest colours nearer than the largest distance.
pub open spec fn color_index_from(color: Seq<u8>, palette: Seq<u16>, i: int, best: int, dist: int) -> int
    decreases palette.len() - i,
{
    if i < 0 || i >= palette.len() {
        best
    } else {
        let d = distance_spec(color, palette[i]);
        if d == 0 {
            i
        } else if d < dist {
            color_index_from(color, palette, i + 1, i, d)
        } else {
            color_index_from(color, palette, i + 1, best, dist)
        }
    }
}

/// The palette index closest to `color` (0 when the palette is empty).
pub open spec fn color_index_spec(color: Seq<u8>, palette: Seq<u16>) -> int {
    color_index_from(color, palette, 0, 0, 93)
}

proof fn lemma_distance_range(color: Seq<u8>, p: u16)
    requires
        color.len() == 3,
    ensures
        0 <= distance_spec(color, p) <= 93,
{
    let c0 = color[0];
    let c1 = color[1];
    let c2 = color[2];
    assert((c0 >> 3u8) <= 31 && (c1 >> 3u8) <= 31 && (c2 >> 3u8) <= 31) by (bit_vector);
    assert((p & 0x1F) <= 31 && ((p >> 5u16) & 0x1F) <= 31 && ((p >> 10u16) & 0x1F) <= 31) by (bit_vector);
}

proof fn lemma_color_index_from(color: Seq<u8>, palette: Seq<u16>, i: int, best: int, dist: int)
    requires
        color.len() == 3,
        0 <= i <= palette.len(),
        0 <= best < palette.len(),
        distance_spec(color, palette[best]) <= dist,
        forall|j: int| 0 <= j < i ==> distance_spec(color, #[trigger] palette[j]) >= dist,
    ensures
        0 <= color_index_from(color, palette, i, best, dist) < palette.len(),
        forall|j: int|
            0 <= j < palette.len() ==> distance_spec(color, #[trigger] palette[j]) >= distance_spec(
                color,
                palette[color_index_from(color, palette, i, best, dist)],
            ),
    decreases palette.len() - i,
{
    if i < palette.len() {
        let d = distance_spec(color, palette[i]);
        if d == 0 {
            assert forall|j: int| 0 <= j < palette.len() implies distance_spec(color, #[trigger] palette[j]) >= 0 by {
                lemma_distance_range(color, palette[j]);
            }
        } else if d < dist {
            lemma_color_index_from(color, palette, i + 1, i, d);
        } else {
            lemma_color_index_from(color, palette, i + 1, best, dist);
        }
    }
}

/// The colour chosen for a pixel is one of the palette's and none of the
/// palette's colours is nearer to it.
pub proof fn lemma_color_index_nearest(color: Seq<u8>, palette: Seq<u16>)
    requires
        color.len() == 3,
        palette.len() > 0,
    ensures
        0 <= color_index_spec(color, palette) < palette.len(),
        forall|j: int|
            0 <= j < palette.len() ==> distance_spec(color, #[trigger] palette[j]) >= distance_spec(
                color,
                palette[color_index_spec(color, palette)],
            ),
{
    lemma_distance_range(color, palette[0]);
    lemma_color_index_from(color, palette, 0, 0, 93);
}

/// Field `k` of a 15-bit colour: red (`k` = 0) in bits 0..4, green (1) in
/// bits 5..9, blue (2) in bits 10..14.
pub open spec fn colour_field(x: u16, k: int) -> int {
    if k == 0 {
        x as int % 32
    } else if k == 1 {
        (x as int / 32) % 32
    } else {
        (x as int / 1024) % 32
    }
}

/// `a - b` without its sign.
pub open spec fn abs_diff(a: int, b: int) -> int {
    if a < b {
        b - a
    } else {
        a - b
    }
}

proof fn lemma_fields(x: u16)
    by (bit_vector)
    ensures
        (x & 0x1F) == x % 32,
        ((x >> 5u16) & 0x1F) == (x / 32) % 32,
        ((x >> 10u16) & 0x1F) == (x / 1024) % 32,
{
}

proof fn lemma_widen(c: u16)
    by (bit_vector)
    requires
        c < 32,
    ensures
        widen5(c) == c * 8 + c / 4,
{
}

proof fn lemma_top5(c: u8)
    by (bit_vector)
    ensures
        (c >> 3u8) == c / 8,
{
}

/// The colour of a 15-bit palette entry: channel `k` (red, green, blue) is
/// field `k` of the entry widened to eight bits, the five bits followed by
/// their top three, so that each field's five bits are the top five of its
/// channel (0x03E0 is pure green, 0x7C00 pure blue).
pub proof fn lemma_color_channels(x: u16)
    ensures
        color_spec(x).len() == 3,
        forall|k: int| 0 <= k < 3 ==> #[trigger] color_spec(x)[k] == colour_field(x, k) * 8 + colour_field(x, k) / 4,
        forall|k: int| 0 <= k < 3 ==> #[trigger] color_spec(x)[k] / 8 == colour_field(x, k),
{
    lemma_fields(x);
    lemma_widen(x & 0x1F);
    lemma_widen((x >> 5u16) & 0x1F);
    lemma_widen((x >> 10u16) & 0x1F);
    assert forall|k: int| 0 <= k < 3 implies #[trigger] color_spec(x)[k] / 8 == colour_field(x, k) by {
        let f = colour_field(x, k);
        assert(0 <= f < 32);
        assert((f * 8 + f / 4) / 8 == f) by (nonlinear_arith)
            requires
                0 <= f < 32,
        ;
    }
}

/// The distance between a colour and a palette entry `p` is the sum, over
/// red, green and blue, of how far the channel's top five bits are from the
/// entry's field for that channel.
pub proof fn lemma_distance_channels(color: Seq<u8>, p: u16)
    requires
        color.len() == 3,
    ensures
        distance_spec(color, p) == abs_diff(color[0] as int / 8, colour_field(p, 0)) + abs_diff(
            color[1] as int / 8,
            colour_field(p, 1),
        ) + abs_diff(color[2] as int / 8, colour_field(p, 2)),
{
    lemma_fields(p);
    lemma_top5(color[0]);
    lemma_top5(color[1]);
    lemma_top5(color[2]);
}

/// A palette entry's own colour is at distance zero from it, and a picture
/// pixel of that colour is given an entry at distance zero: one of the same
/// colour.
pub proof fn lemma_own_colour_exact(p: u16, palette: Seq<u16>, j: int)
    requires
        0 <= j < palette.len(),
        palette[j] == p,
    ensures
        distance_spec(color_spec(p), p) == 0,
        distance_spec(color_spec(p), palette[color_index_spec(color_spec(p), palette)]) == 0,
{
    lemma_color_channels(p);
    lemma_distance_channels(color_spec(p), p);
    lemma_color_index_nearest(color_spec(p), palette);
    let b = palette[color_index_spec(color_spec(p), palette)];
    lemma_distance_range(color_spec(p), b);
    assert(distance_spec(color_spec(p), palette[j]) == 0);
}

/// The index of the palette colour closest to `color`.
pub fn get_color_index(color: &[u8; 3], palette: &[u16]) -> (r: usize)
    ensures
        r == color_index_spec(color@, palette@),
{
    let mut min_distance: i32 = 93;
    let mut min_index: usize = 0;
    let mut i: usize = 0;
    while i < palette.len()
        invariant
            i <= palette@.len(),
            color_index_spec(color@, palette@) == color_index_from(
                color@,
                palette@,
                i as int,
                min_index as int,
                min_distance as int,
            ),
        decreases palette@.len() - i,
    {
        let d = color_distance(color, palette[i]);
        if d == 0 {
            return i;
        }
        if d < min_distance {
            min_distance = d;
            min_index = i;
        }
        i = i + 1;
    }
    min_index
}


/// Why a `.gld` file cannot be read, or a picture cannot be put into it.
#[derive(Debug, Clone, Copy, PartialEq, Eq)]
pub enum GldError {
    /// The file is empty.
    NoData,
    /// The header's version field is not 2.
    BadHeader,
    /// The file ends before its header, data or footer does.
    UnexpectedEof,
    /// The picture does not have the size of the sprite.
    Dimensions,
    /// The picture is animated.
    Animated,
    /// The PNG file could not be read or written.
    Png,
}

/// What follows the common fields of a footer entry: the join point, with a
/// number before it in the second layout.
#[derive(Debug, Clone, Copy, PartialEq, Eq)]
pub enum GldFooterExtraData {
    Type1 { join_x: i16, join_y: i16 },
    Type2 { data_14: u32, join_x: i16, join_y: i16 },
}

/// A sprite: where its pixels and palette are, its format (bit 15 marks a
/// deleted sprite), its size, the width and height of the area it is drawn
/// in, and its place there.
#[derive(Debug, Clone, Copy, PartialEq, Eq)]
pub struct GldFooterEntry {
    pub pixels_offset: u32,
    pub palette_offset: u16,
    pub sprite_format: u16,
    pub crop_width: u16,
    pub crop_height: u16,
    pub render_width_id: u16,
    pub render_height_id: u16,
    pub crop_x: u16,
    pub crop_y: u16,
    pub extra_data: GldFooterExtraData,
}

/// The 32-byte header of a `.gld` file.
#[derive(Debug, Clone, Copy, PartialEq, Eq)]
pub struct GldHeader {
    pub magic: [u8; 4],
    pub data_04: u16,
    pub data_06: u16,
    pub total_size: u32,
    pub data_0c: u32,
    pub data_10: u32,
    pub pixel_data_size: u32,
    pub palette_data_size: u32,
    pub footer_entry_count: u32,
}

/// A sprite sheet.
pub struct Gld {
    pub file_stem: String,
    pub header: GldHeader,
    pub pixel_data: Vec<u8>,
    pub palettes: Vec<(u16, Vec<u16>)>,
    pub footer_entries: Vec<GldFooterEntry>,
}

/// The palettes of a sheet as (offset, colours), in the order held.
pub open spec fn palettes_view(p: Seq<(u16, Vec<u16>)>) -> Seq<(u16, Seq<u16>)> {
    p.map_values(|e: (u16, Vec<u16>)| (e.0, e.1@))
}

/// The header at the start of `d`.
pub open spec fn header_matches(h: GldHeader, d: Seq<u8>) -> bool {
    &&& h.magic@ == d.subrange(0, 4)
    &&& h.data_04 == u16_at(d, 4)
    &&& h.data_06 == u16_at(d, 6)
    &&& h.total_size == u32_at(d, 8)
    &&& h.data_0c == u32_at(d, 12)
    &&& h.data_10 == u32_at(d, 16)
    &&& h.pixel_data_size == u32_at(d, 20)
    &&& h.palette_data_size == u32_at(d, 24)
    &&& h.footer_entry_count == u32_at(d, 28)
}

/// The size of a footer entry in the layout `layout` (1 or 2).
pub open spec fn entry_len(layout: u16) -> int {
    if layout == 1 {
        24
    } else {
        28
    }
}

/// The footer entry at `pos` in the layout `layout`.
pub open spec fn footer_entry_at(d: Seq<u8>, pos: int, layout: u16) -> GldFooterEntry {
    GldFooterEntry {
        pixels_offset: u32_at(d, pos),
        palette_offset: u16_at(d, pos + 4),
        sprite_format: u16_at(d, pos + 6),
        crop_width: u16_at(d, pos + 8),
        crop_height: u16_at(d, pos + 10),
        render_width_id: u16_at(d, pos + 12),
        render_height_id: u16_at(d, pos + 14),
        crop_x: u16_at(d, pos + 16),
        crop_y: u16_at(d, pos + 18),
        extra_data: if layout == 1 {
            GldFooterExtraData::Type1 { join_x: u16_at(d, pos + 20) as i16, join_y: u16_at(d, pos + 22) as i16 }
        } else {
            GldFooterExtraData::Type2 {
                data_14: u32_at(d, pos + 20),
                join_x: u16_at(d, pos + 24) as i16,
                join_y: u16_at(d, pos + 26) as i16,
            }
        },
    }
}

/// Where the palette data of `d` starts.
pub open spec fn palette_start(d: Seq<u8>) -> int {
    32 + u32_at(d, 20)
}

/// Where the footer of `d` starts.
pub open spec fn footer_start(d: Seq<u8>) -> int {
    32 + u32_at(d, 20) + u32_at(d, 24)
}

/// Why `d` is not a `.gld` file, if it is not one. Its layout of footer
/// entries is 1 or 2 (any other layout cannot be read).
pub open spec fn gld_error(d: Seq<u8>) -> Option<GldError> {
    if d.len() == 0 {
        Some(GldError::NoData)
    } else if d.len() < 32 {
        Some(GldError::UnexpectedEof)
    } else if u16_at(d, 4) != 2 {
        Some(GldError::BadHeader)
    } else if footer_start(d) > d.len() {
        Some(GldError::UnexpectedEof)
    } else if footer_start(d) + entry_len(u16_at(d, 6)) * u32_at(d, 28) > d.len() {
        Some(GldError::UnexpectedEof)
    } else {
        None
    }
}

/// The footer entries of `d`.
pub open spec fn footer_spec(d: Seq<u8>) -> Seq<GldFooterEntry> {
    Seq::new(
        u32_at(d, 28) as nat,
        |i: int| footer_entry_at(d, footer_start(d) + entry_len(u16_at(d, 6)) * i, u16_at(d, 6)),
    )
}

/// A sprite that is drawn: bit 15 of its format is clear.
pub open spec fn kept(e: GldFooterEntry) -> bool {
    e.sprite_format & 0x8000 == 0
}

/// The palette offsets of the sprites that are drawn.
pub open spec fn kept_offsets(es: Seq<GldFooterEntry>) -> Set<u16> {
    Set::new(|k: u16| exists|i: int| 0 <= i < es.len() && kept(#[trigger] es[i]) && es[i].palette_offset == k)
}

/// Little-endian 16-bit words of `s`; an odd last byte is dropped.
pub open spec fn words(s: Seq<u8>) -> Seq<u16> {
    Seq::new(s.len() / 2, |i: int| u16_of(s[2 * i], s[2 * i + 1]))
}

/// The palettes of a sheet: one for each offset in `keys`, in increasing
/// order, each holding the words from its offset up to the next offset (or to
/// the end of the palette data).
pub open spec fn palettes_ok(p: Seq<(u16, Seq<u16>)>, keys: Set<u16>, pal: Seq<u8>) -> bool {
    &&& forall|i: int, j: int| 0 <= i < j < p.len() ==> p[i].0 < p[j].0
    &&& forall|k: u16| keys.contains(k) <==> exists|i: int| 0 <= i < p.len() && #[trigger] p[i].0 == k
    &&& forall|i: int|
        0 <= i < p.len() ==> #[trigger] p[i].1 == words(
            pal.subrange(
                p[i].0 as int,
                if i + 1 < p.len() {
                    p[i + 1].0 as int
                } else {
                    pal.len() as int
                },
            ),
        )
}

/// Reading `d` stops on it: its footer layout is neither 1 nor 2, or a drawn
/// sprite's palette starts past the palette data.
pub open spec fn gld_read_panics(d: Seq<u8>) -> bool {
    gld_error(d) is None && (!(u16_at(d, 6) == 1 || u16_at(d, 6) == 2) || exists|k: u16|
        #[trigger] kept_offsets(footer_spec(d)).contains(k) && k > u32_at(d, 24))
}

/// What reading `d` as the sheet `stem` gives.
pub open spec fn gld_read_ok(d: Seq<u8>, stem: Seq<char>, g: Gld) -> bool {
    &&& g.file_stem@ == stem
    &&& header_matches(g.header, d)
    &&& g.pixel_data@ == d.subrange(32, palette_start(d))
    &&& g.footer_entries@ == footer_spec(d)
    &&& palettes_ok(
        palettes_view(g.palettes@),
        kept_offsets(footer_spec(d)),
        d.subrange(palette_start(d), footer_start(d)),
    )
}


pub(crate) fn read_entry(d: &[u8], pos: usize, layout: u16) -> (r: GldFooterEntry)
    requires
        pos + entry_len(layout) <= d.len(),
    ensures
        r == footer_entry_at(d@, pos as int, layout),
{
    let extra = if layout == 1 {
        GldFooterExtraData::Type1 {
            join_x: read_u16_le(d, pos + 20).unwrap() as i16,
            join_y: read_u16_le(d, pos + 22).unwrap() as i16,
        }
    } else {
        GldFooterExtraData::Type2 {
            data_14: read_u32_le(d, pos + 20).unwrap(),
            join_x: read_u16_le(d, pos + 24).unwrap() as i16,
            join_y: read_u16_le(d, pos + 26).unwrap() as i16,
        }
    };
    GldFooterEntry {
        pixels_offset: read_u32_le(d, pos).unwrap(),
        palette_offset: read_u16_le(d, pos + 4).unwrap(),
        sprite_format: read_u16_le(d, pos + 6).unwrap(),
        crop_width: read_u16_le(d, pos + 8).unwrap(),
        crop_height: read_u16_le(d, pos + 10).unwrap(),
        render_width_id: read_u16_le(d, pos + 12).unwrap(),
        render_height_id: read_u16_le(d, pos + 14).unwrap(),
        crop_x: read_u16_le(d, pos + 16).unwrap(),
        crop_y: read_u16_le(d, pos + 18).unwrap(),
        extra_data: extra,
    }
}

/// Adds `k` to the strictly increasing `keys`.
fn insert_key(keys: &mut Vec<u16>, k: u16)
    requires
        forall|i: int, j: int| 0 <= i < j < old(keys)@.len() ==> old(keys)@[i] < old(keys)@[j],
    ensures
        forall|i: int, j: int| 0 <= i < j < final(keys)@.len() ==> final(keys)@[i] < final(keys)@[j],
        forall|x: u16| final(keys)@.contains(x) <==> (old(keys)@.contains(x) || x == k),
{
    let mut j: usize = 0;
    while j < keys.len() && keys[j] < k
        invariant
            j <= keys@.len(),
            keys@ == old(keys)@,
            forall|i: int| 0 <= i < j ==> keys@[i] < k,
        decreases keys@.len() - j,
    {
        j = j + 1;
    }
    if j < keys.len() && keys[j] == k {
        return;
    }
    keys.insert(j, k);
    assert(keys@[j as int] == k);
    assert forall|x: u16| keys@.contains(x) <==> (old(keys)@.contains(x) || x == k) by {
        if old(keys)@.contains(x) {
            let i = old(keys)@.index_of(x);
            if i < j {
                assert(keys@[i] == x);
            } else {
                assert(keys@[i + 1] == x);
            }
        }
        if keys@.contains(x) {
            let i = keys@.index_of(x);
            if i < j {
                assert(old(keys)@[i] == x);
            } else if i > j {
                assert(old(keys)@[i - 1] == x);
            }
        }
    }
}

/// The words of `s` from `a` to `b`.
fn read_words(s: &[u8], a: usize, b: usize) -> (r: Vec<u16>)
    requires
        a <= b <= s@.len(),
    ensures
        r@ == words(s@.subrange(a as int, b as int)),
{
    let ghost t = s@.subrange(a as int, b as int);
    let count = (b - a) / 2;
    let mut r: Vec<u16> = Vec::new();
    let mut i: usize = 0;
    while i < count
        invariant
            i <= count,
            count == (b - a) / 2,
            a <= b <= s@.len(),
            t == s@.subrange(a as int, b as int),
            r@ =~= words(t).subrange(0, i as int),
        decreases count - i,
    {
        let w = read_u16_le(s, a + 2 * i).unwrap();
        r.push(w);
        i = i + 1;
        assert(r@ =~= words(t).subrange(0, i as int));
    }
    r
}

impl Gld {
    /// Palette offsets are strictly increasing.
    pub open spec fn wf(&self) -> bool {
        forall|i: int, j: int| 0 <= i < j < self.palettes@.len() ==> self.palettes@[i].0 < self.palettes@[j].0
    }

    /// Reads the sheet `in_file_stem` from the bytes of its `.gld` file.
    pub fn read(d: &[u8], in_file_stem: &str) -> (r: Result<Gld, GldError>)
        requires
            !gld_read_panics(d@),
        ensures
            r is Ok <==> gld_error(d@) is None,
            match r {
                Ok(g) => gld_read_ok(d@, in_file_stem@, g) && g.wf(),
                Err(e) => gld_error(d@) == Some(e),
            },
    {
        let n = d.len();
        if n == 0 {
            return Err(GldError::NoData);
        }
        if n < 32 {
            return Err(GldError::UnexpectedEof);
        }
        let header = GldHeader {
            magic: [d[0], d[1], d[2], d[3]],
            data_04: read_u16_le(d, 4).unwrap(),
            data_06: read_u16_le(d, 6).unwrap(),
            total_size: read_u32_le(d, 8).unwrap(),
            data_0c: read_u32_le(d, 12).unwrap(),
            data_10: read_u32_le(d, 16).unwrap(),
            pixel_data_size: read_u32_le(d, 20).unwrap(),
            palette_data_size: read_u32_le(d, 24).unwrap(),
            footer_entry_count: read_u32_le(d, 28).unwrap(),
        };
        assert(header.magic@ =~= d@.subrange(0, 4));
        if header.data_04 != 2 {
            return Err(GldError::BadHeader);
        }
        let fs: u64 = 32 + header.pixel_data_size as u64 + header.palette_data_size as u64;
        if fs > n as u64 {
            return Err(GldError::UnexpectedEof);
        }
        let p1: usize = 32 + header.pixel_data_size as usize;
        let p2: usize = fs as usize;
        let layout = header.data_06;
        let elen: u64 = if layout == 1 {
            24
        } else {
            28
        };
        let count = header.footer_entry_count;
        if fs + elen * (count as u64) > n as u64 {
            return Err(GldError::UnexpectedEof);
        }
        if !(layout == 1 || layout == 2) {
            assert(false);
            return Err(GldError::BadHeader);
        }
        let pixel_data = vstd::slice::slice_to_vec(vstd::slice::slice_subrange(d, 32, p1));
        let pal = vstd::slice::slice_subrange(d, p1, p2);
        let mut entries: Vec<GldFooterEntry> = Vec::new();
        let mut i: usize = 0;
        while i < count as usize
            invariant
                i <= count,
                count == u32_at(d@, 28),
                layout == u16_at(d@, 6),
                elen == entry_len(layout),
                p2 == footer_start(d@),
                p2 + elen * count <= d.len(),
                entries@ =~= footer_spec(d@).subrange(0, i as int),
            decreases count - i,
        {
            proof {
                assert(elen * (i as int) + elen <= elen * (count as int)) by (nonlinear_arith)
                    requires
                        i < count,
                        elen >= 0,
                ;
            }
            let pos = p2 + (elen as usize) * i;
            let e = read_entry(d, pos, layout);
            entries.push(e);
            i = i + 1;
            assert(entries@ =~= footer_spec(d@).subrange(0, i as int));
        }
        let ghost es = entries@;
        assert(es =~= footer_spec(d@));
        let mut keys: Vec<u16> = Vec::new();
        let mut j: usize = 0;
        while j < entries.len()
            invariant
                j <= entries@.len(),
                es == entries@,
                forall|a: int, b: int| 0 <= a < b < keys@.len() ==> keys@[a] < keys@[b],
                forall|x: u16| keys@.contains(x) <==> kept_offsets(es.take(j as int)).contains(x),
            decreases entries@.len() - j,
        {
            let e = entries[j];
            let ghost before = keys@;
            if e.sprite_format & 0x8000 == 0 {
                insert_key(&mut keys, e.palette_offset);
            }
            proof {
                assert forall|x: u16| keys@.contains(x) <==> kept_offsets(es.take(j + 1)).contains(x) by {
                    if kept_offsets(es.take(j + 1)).contains(x) {
                        let w = choose|w: int| 0 <= w < es.take(j + 1).len() && kept(#[trigger] es.take(j + 1)[w]) && es.take(j + 1)[w].palette_offset == x;
                        if w < j {
                            assert(es.take(j as int)[w] == es.take(j + 1)[w]);
                            assert(kept_offsets(es.take(j as int)).contains(x));
                        }
                    }
                    if before.contains(x) {
                        assert(kept_offsets(es.take(j as int)).contains(x));
                        let w = choose|w: int| 0 <= w < es.take(j as int).len() && kept(#[trigger] es.take(j as int)[w]) && es.take(j as int)[w].palette_offset == x;
                        assert(es.take(j + 1)[w] == es.take(j as int)[w]);
                    }
                    if kept(e) && x == e.palette_offset {
                        assert(es.take(j + 1)[j as int] == e);
                    }
                }
            }
            j = j + 1;
        }
        assert(es.take(es.len() as int) =~= es);
        let psize = header.palette_data_size as usize;
        if keys.len() > 0 && keys[keys.len() - 1] as usize > psize {
            proof {
                let k = keys@[keys@.len() - 1];
                assert(keys@.contains(k));
                assert(kept_offsets(footer_spec(d@)).contains(k));
            }
            assert(false);
            return Err(GldError::BadHeader);
        }
        let mut palettes: Vec<(u16, Vec<u16>)> = Vec::new();
        let mut k: usize = 0;
        while k < keys.len()
            invariant
                k <= keys@.len(),
                pal@.len() == psize,
                forall|a: int, b: int| 0 <= a < b < keys@.len() ==> keys@[a] < keys@[b],
                keys@.len() > 0 ==> keys@[keys@.len() - 1] <= psize,
                palettes@.len() == k,
                forall|a: int| 0 <= a < k ==> (#[trigger] palettes@[a]).0 == keys@[a],
                forall|a: int|
                    0 <= a < k ==> (#[trigger] palettes@[a]).1@ == words(
                        pal@.subrange(
                            keys@[a] as int,
                            if a + 1 < keys@.len() {
                                keys@[a + 1] as int
                            } else {
                                psize as int
                            },
                        ),
                    ),
            decreases keys@.len() - k,
        {
            let a = keys[k] as usize;
            let b = if k + 1 < keys.len() {
                keys[k + 1] as usize
            } else {
                psize
            };
            proof {
                if k + 1 < keys@.len() {
                    assert(keys@[k + 1] <= keys@[keys@.len() - 1]);
                }
                assert(keys@[k as int] <= keys@[keys@.len() - 1]);
            }
            let w = read_words(pal, a, b);
            palettes.push((keys[k], w));
            k = k + 1;
        }
        let g = Gld { file_stem: crate::text::string_of(crate::text::chars_of(in_file_stem).as_slice()), header, pixel_data, palettes, footer_entries: entries };
        proof {
            let pv = palettes_view(g.palettes@);
            assert forall|x: u16| kept_offsets(footer_spec(d@)).contains(x) <==> exists|i: int| 0 <= i < pv.len() && #[trigger] pv[i].0 == x by {
                if keys@.contains(x) {
                    let i = keys@.index_of(x);
                    assert(pv[i].0 == x);
                }
                if exists|i: int| 0 <= i < pv.len() && #[trigger] pv[i].0 == x {
                    let i = choose|i: int| 0 <= i < pv.len() && #[trigger] pv[i].0 == x;
                    assert(keys@[i] == x);
                }
            }
            assert(pal@ =~= d@.subrange(palette_start(d@), footer_start(d@)));
        }
        Ok(g)
    }
}


/// The bytes of a header.
pub open spec fn header_bytes(h: GldHeader) -> Seq<u8> {
    h.magic@ + le_bytes_u16(h.data_04) + le_bytes_u16(h.data_06) + le_bytes_u32(h.total_size)
        + le_bytes_u32(h.data_0c) + le_bytes_u32(h.data_10) + le_bytes_u32(h.pixel_data_size)
        + le_bytes_u32(h.palette_data_size) + le_bytes_u32(h.footer_entry_count)
}

/// The bytes of a footer entry, in the layout its extra data gives.
pub open spec fn footer_entry_bytes(e: GldFooterEntry) -> Seq<u8> {
    le_bytes_u32(e.pixels_offset) + le_bytes_u16(e.palette_offset) + le_bytes_u16(e.sprite_format)
        + le_bytes_u16(e.crop_width) + le_bytes_u16(e.crop_height) + le_bytes_u16(e.render_width_id)
        + le_bytes_u16(e.render_height_id) + le_bytes_u16(e.crop_x) + le_bytes_u16(e.crop_y) + match e.extra_data {
        GldFooterExtraData::Type1 { join_x, join_y } => le_bytes_u16(join_x as u16) + le_bytes_u16(join_y as u16),
        GldFooterExtraData::Type2 { data_14, join_x, join_y } => le_bytes_u32(data_14) + le_bytes_u16(
            join_x as u16,
        ) + le_bytes_u16(join_y as u16),
    }
}

/// The bytes of 16-bit words, little-endian.
pub open spec fn words_bytes(w: Seq<u16>) -> Seq<u8>
    decreases w.len(),
{
    if w.len() == 0 {
        Seq::empty()
    } else {
        words_bytes(w.drop_last()) + le_bytes_u16(w.last())
    }
}

/// The bytes of the palettes, one after another.
pub open spec fn palettes_bytes(p: Seq<(u16, Seq<u16>)>) -> Seq<u8>
    decreases p.len(),
{
    if p.len() == 0 {
        Seq::empty()
    } else {
        palettes_bytes(p.drop_last()) + words_bytes(p.last().1)
    }
}

/// The bytes of footer entries, one after another.
pub open spec fn footer_bytes(es: Seq<GldFooterEntry>) -> Seq<u8>
    decreases es.len(),
{
    if es.len() == 0 {
        Seq::empty()
    } else {
        footer_bytes(es.drop_last()) + footer_entry_bytes(es.last())
    }
}

/// The bytes of a sheet: its header as it is, the pixels, the palettes in the
/// order of their offsets, and the footer.
pub open spec fn gld_bytes(g: Gld) -> Seq<u8> {
    header_bytes(g.header) + g.pixel_data@ + palettes_bytes(palettes_view(g.palettes@)) + footer_bytes(
        g.footer_entries@,
    )
}

fn push_words(out: &mut Vec<u8>, w: &Vec<u16>)
    ensures
        final(out)@ == old(out)@ + words_bytes(w@),
{
    let mut i: usize = 0;
    while i < w.len()
        invariant
            i <= w@.len(),
            out@ == old(out)@ + words_bytes(w@.take(i as int)),
        decreases w@.len() - i,
    {
        push_u16_le(out, w[i]);
        assert(w@.take(i + 1).drop_last() =~= w@.take(i as int));
        i = i + 1;
        assert(out@ =~= old(out)@ + words_bytes(w@.take(i as int)));
    }
    assert(w@.take(w@.len() as int) =~= w@);
}

fn push_footer_entry(out: &mut Vec<u8>, e: &GldFooterEntry)
    ensures
        final(out)@ == old(out)@ + footer_entry_bytes(*e),
{
    push_u32_le(out, e.pixels_offset);
    push_u16_le(out, e.palette_offset);
    push_u16_le(out, e.sprite_format);
    push_u16_le(out, e.crop_width);
    push_u16_le(out, e.crop_height);
    push_u16_le(out, e.render_width_id);
    push_u16_le(out, e.render_height_id);
    push_u16_le(out, e.crop_x);
    push_u16_le(out, e.crop_y);
    match e.extra_data {
        GldFooterExtraData::Type1 { join_x, join_y } => {
            push_u16_le(out, join_x as u16);
            push_u16_le(out, join_y as u16);
        },
        GldFooterExtraData::Type2 { data_14, join_x, join_y } => {
            push_u32_le(out, data_14);
            push_u16_le(out, join_x as u16);
            push_u16_le(out, join_y as u16);
        },
    }
    assert(final(out)@ =~= old(out)@ + footer_entry_bytes(*e));
}

impl Gld {
    /// The bytes of the `.gld` file of this sheet.
    pub fn write(&self) -> (r: Vec<u8>)
        requires
            self.wf(),
        ensures
            r@ == gld_bytes(*self),
    {
        let mut out: Vec<u8> = Vec::new();
        let h = &self.header;
        let mut k: usize = 0;
        while k < 4
            invariant
                k <= 4,
                out@ == h.magic@.subrange(0, k as int),
            decreases 4 - k,
        {
            out.push(h.magic[k]);
            k = k + 1;
            assert(out@ =~= h.magic@.subrange(0, k as int));
        }
        assert(h.magic@.subrange(0, 4) =~= h.magic@);
        push_u16_le(&mut out, h.data_04);
        push_u16_le(&mut out, h.data_06);
        push_u32_le(&mut out, h.total_size);
        push_u32_le(&mut out, h.data_0c);
        push_u32_le(&mut out, h.data_10);
        push_u32_le(&mut out, h.pixel_data_size);
        push_u32_le(&mut out, h.palette_data_size);
        push_u32_le(&mut out, h.footer_entry_count);
        assert(out@ =~= header_bytes(self.header));
        extend_bytes(&mut out, self.pixel_data.as_slice());
        let ghost base = out@;
        let ghost pv = palettes_view(self.palettes@);
        let mut i: usize = 0;
        while i < self.palettes.len()
            invariant
                i <= self.palettes@.len(),
                pv == palettes_view(self.palettes@),
                out@ == base + palettes_bytes(pv.take(i as int)),
            decreases self.palettes@.len() - i,
        {
            push_words(&mut out, &self.palettes[i].1);
            assert(pv.take(i + 1).drop_last() =~= pv.take(i as int));
            assert(pv.take(i + 1).last().1 == self.palettes@[i as int].1@);
            i = i + 1;
            assert(out@ =~= base + palettes_bytes(pv.take(i as int)));
        }
        assert(pv.take(pv.len() as int) =~= pv);
        let ghost base2 = out@;
        let ghost es = self.footer_entries@;
        let mut j: usize = 0;
        while j < self.footer_entries.len()
            invariant
                j <= es.len(),
                es == self.footer_entries@,
                out@ == base2 + footer_bytes(es.take(j as int)),
            decreases es.len() - j,
        {
            push_footer_entry(&mut out, &self.footer_entries[j]);
            assert(es.take(j + 1).drop_last() =~= es.take(j as int));
            j = j + 1;
            assert(out@ =~= base2 + footer_bytes(es.take(j as int)));
        }
        assert(es.take(es.len() as int) =~= es);
        out
    }
}


/// The least power of two that is at least `x`, searching up from `p`.
pub open spec fn pow2_from(x: int, p: int) -> int
    decreases (if 1 <= p < x {
        x - p
    } else {
        0
    }),
{
    if p >= x || p < 1 {
        p
    } else {
        pow2_from(x, 2 * p)
    }
}

/// The least power of two that is at least `x` (one for zero).
pub open spec fn next_pow2(x: int) -> int {
    pow2_from(x, 1)
}

/// Computing the width of the area a sprite is drawn in fails: its right
/// edge overflows 16 bits, or has no 16-bit power of two above it, or the
/// width's shift is too large, or the sheet's layout is unknown.
pub open spec fn render_width_panics(data_06: u16, e: GldFooterEntry) -> bool {
    e.crop_x + e.crop_width > 0xFFFF || !(data_06 == 1 || data_06 == 2) || (data_06 == 1 && e.crop_x
        + e.crop_width > 0x8000) || (data_06 == 2 && e.render_width_id >= 32)
}

/// The width of the area a sprite is drawn in: the power of two above its
/// right edge in the first layout, eight shifted by its width field in the
/// second.
pub open spec fn render_width_spec(data_06: u16, e: GldFooterEntry) -> u32 {
    if data_06 == 1 {
        next_pow2(e.crop_x + e.crop_width) as u32
    } else {
        8u32 << (e.render_width_id as u32)
    }
}

impl Gld {
    /// The width of the area the sprite `e` is drawn in.
    pub fn render_width(&self, e: &GldFooterEntry) -> (r: u32)
        requires
            !render_width_panics(self.header.data_06, *e),
        ensures
            r == render_width_spec(self.header.data_06, *e),
    {
        let max_x = e.crop_x + e.crop_width;
        if self.header.data_06 == 1 {
            let x = max_x as u32;
            let mut p: u32 = 1;
            while p < x
                invariant
                    1 <= p <= 0x10000,
                    x <= 0x8000,
                    pow2_from(x as int, 1) == pow2_from(x as int, p as int),
                decreases 0x10000 - p,
            {
                p = p * 2;
            }
            p
        } else {
            8u32 << (e.render_width_id as u32)
        }
    }
}

/// A sprite as an indexed picture: width, height, bits per pixel, the
/// palette's colours, their opacities, and the packed rows.
pub struct PngImage {
    pub width: u32,
    pub height: u32,
    pub bit_depth: u8,
    pub palette: Vec<u8>,
    pub trns: Vec<u8>,
    pub data: Vec<u8>,
}

pub type PngView = (u32, u32, u8, Seq<u8>, Seq<u8>, Seq<u8>);

impl View for PngImage {
    type V = PngView;

    open spec fn view(&self) -> PngView {
        (self.width, self.height, self.bit_depth, self.palette@, self.trns@, self.data@)
    }
}

/// A sprite format that pictures can be made of.
pub open spec fn known_format(f: u16) -> bool {
    f == 1 || f == 2 || f == 3 || f == 4 || f == 6
}

/// The bits per pixel of a sprite format: two, four, or eight.
pub open spec fn depth_of(f: u16) -> int {
    if f == 2 {
        2
    } else if f == 3 {
        4
    } else {
        8
    }
}

/// The colours of the palette at offset `k`.
pub open spec fn palette_for(p: Seq<(u16, Seq<u16>)>, k: u16) -> Option<Seq<u16>>
    decreases p.len(),
{
    if p.len() == 0 {
        None
    } else if p[0].0 == k {
        Some(p[0].1)
    } else {
        palette_for(p.drop_first(), k)
    }
}

/// The palette `p` cut or filled with black to `n` colours, repeated `reps`
/// times, as bytes.
pub open spec fn repeated_colors(p: Seq<u16>, n: int, reps: int) -> Seq<u8> {
    Seq::new(
        (reps * n * 3) as nat,
        |k: int|
            if (k / 3) % n < p.len() {
                color_spec(p[(k / 3) % n])[k % 3]
            } else {
                0u8
            },
    )
}

/// The colours of the picture of a sprite of format `f`: 32 colours for each
/// of 8 opacities (format 1), 8 colours for each of 32 (format 6), else the
/// palette as it is.
pub open spec fn png_palette_spec(f: u16, p: Seq<u16>) -> Seq<u8> {
    if f == 1 {
        repeated_colors(p, 32, 8)
    } else if f == 6 {
        repeated_colors(p, 8, 32)
    } else {
        repeated_colors(p, p.len() as int, 1)
    }
}

/// The opacity of each colour of the picture: in formats 1 and 6 the
/// opacity of its group for a drawn colour; else full for a drawn colour.
pub open spec fn png_trns_spec(f: u16, p: Seq<u16>) -> Seq<u8> {
    if f == 1 {
        Seq::new(
            256,
            |k: int|
                if k % 32 < p.len() && opaque_spec(p[k % 32]) {
                    ((k / 32) * 32 + (k / 32) * 4 + (k / 32) / 2) as u8
                } else {
                    0u8
                },
        )
    } else if f == 6 {
        Seq::new(
            256,
            |k: int|
                if k % 8 < p.len() && opaque_spec(p[k % 8]) {
                    ((k / 8) * 8 + (k / 8) / 4) as u8
                } else {
                    0u8
                },
        )
    } else {
        Seq::new(
            p.len(),
            |i: int|
                if opaque_spec(p[i]) {
                    255u8
                } else {
                    0u8
                },
        )
    }
}

/// Pixels unpacked from bytes at `bd` bits per pixel.
pub open spec fn unpack_spec(bd: int, s: Seq<u8>) -> Seq<u8> {
    if bd == 2 {
        unpack2_spec(s)
    } else if bd == 4 {
        unpack4_spec(s)
    } else {
        s
    }
}

/// A row of pixels packed at `bd` bits per pixel, the first in the highest
/// bits.
pub open spec fn pack_be_spec(bd: int, row: Seq<u8>) -> Seq<u8> {
    if bd == 2 {
        pack2_be_spec(row)
    } else if bd == 4 {
        pack4_be_spec(row)
    } else {
        row
    }
}

/// The packed rows `y0` up to `y` of the sprite at `cx` of width `cw` in an
/// area `rw` pixels wide.
pub open spec fn rows_spec(px: Seq<u8>, rw: int, cx: int, cw: int, y0: int, y: int, bd: int) -> Seq<u8>
    decreases (if y > y0 {
        y - y0
    } else {
        0
    }),
{
    if y <= y0 {
        Seq::empty()
    } else {
        rows_spec(px, rw, cx, cw, y0, y - 1, bd) + pack_be_spec(
            bd,
            px.subrange((y - 1) * rw + cx, (y - 1) * rw + cx + cw),
        )
    }
}

/// The number of bytes of the area of a sprite: its rows down to its bottom
/// edge, each of the area's width.
pub open spec fn area_bytes(g: Gld, e: GldFooterEntry) -> int {
    (render_width_spec(g.header.data_06, e) * depth_of(e.sprite_format) / 8) * (e.crop_y + e.crop_height)
}

/// Making the picture of sprite `index` cannot be done: no such
/// sprite, format bits it does not know, no palette at the offset, an edge
/// that overflows, or pixels past the end of the data.
pub open spec fn extract_png_panics(g: Gld, index: int) -> bool {
    index < 0 || index >= g.footer_entries@.len() || ({
        let e = g.footer_entries@[index];
        let rw = render_width_spec(g.header.data_06, e);
        let bd = depth_of(e.sprite_format);
        e.sprite_format & 0x7F00 != 0 || (kept(e) && (!known_format(e.sprite_format) || palette_for(
            palettes_view(g.palettes@),
            e.palette_offset,
        ) is None || e.crop_y + e.crop_height > 0xFFFF || render_width_panics(g.header.data_06, e)
            || rw * bd > u32::MAX || area_bytes(g, e) > usize::MAX || e.pixels_offset + area_bytes(g, e)
            > g.pixel_data@.len() || (e.crop_height > 0 && (e.crop_y + e.crop_height - 1) * rw + e.crop_x
            + e.crop_width > area_bytes(g, e) * (8int / bd))))
    })
}

/// The picture of sprite `index`, or `None` for a deleted sprite.
pub open spec fn png_spec(g: Gld, index: int) -> Option<PngView> {
    let e = g.footer_entries@[index];
    if !kept(e) {
        None
    } else {
        let p = palette_for(palettes_view(g.palettes@), e.palette_offset)->0;
        let rw = render_width_spec(g.header.data_06, e);
        let bd = depth_of(e.sprite_format);
        let px = unpack_spec(
            bd,
            g.pixel_data@.subrange(e.pixels_offset as int, e.pixels_offset + area_bytes(g, e)),
        );
        Some(
            (
                e.crop_width as u32,
                e.crop_height as u32,
                bd as u8,
                png_palette_spec(e.sprite_format, p),
                png_trns_spec(e.sprite_format, p),
                rows_spec(px, rw as int, e.crop_x as int, e.crop_width as int, e.crop_y as int, e.crop_y + e.crop_height, bd),
            ),
        )
    }
}


fn build_palette(f: u16, p: &[u16]) -> (r: Vec<u8>)
    ensures
        r@ == png_palette_spec(f, p@),
{
    let ghost want = png_palette_spec(f, p@);
    let mut r: Vec<u8> = Vec::new();
    if f == 1 || f == 6 {
        let n: usize = if f == 1 {
            32
        } else {
            8
        };
        assert(want == repeated_colors(p@, n as int, if n == 32 {
            8int
        } else {
            32int
        }));
        let mut k: usize = 0;
        while k < 768
            invariant
                k <= 768,
                n == 32 || n == 8,
                want == repeated_colors(p@, n as int, if n == 32 {
                    8int
                } else {
                    32int
                }),
                want.len() == 768,
                r@ =~= want.subrange(0, k as int),
            decreases 768 - k,
        {
            let i = (k / 3) % n;
            let b = if i < p.len() {
                let c = u16_to_color(p[i]);
                c[k % 3]
            } else {
                0
            };
            r.push(b);
            k = k + 1;
            assert(r@ =~= want.subrange(0, k as int));
        }
    } else {
        assert(want == repeated_colors(p@, p@.len() as int, 1));
        let mut i: usize = 0;
        while i < p.len()
            invariant
                i <= p@.len(),
                want == repeated_colors(p@, p@.len() as int, 1),
                r@ =~= want.subrange(0, 3 * i),
            decreases p@.len() - i,
        {
            let c = u16_to_color(p[i]);
            r.push(c[0]);
            r.push(c[1]);
            r.push(c[2]);
            proof {
                assert forall|k: int| 3 * i <= k < 3 * i + 3 implies #[trigger] want[k] == c@[k - 3 * i] by {
                    assert(k / 3 == i && k % 3 == k - 3 * i) by (nonlinear_arith)
                        requires
                            3 * i <= k < 3 * i + 3,
                    ;
                    assert((i as int) % (p@.len() as int) == i) by (nonlinear_arith)
                        requires
                            0 <= i < p@.len(),
                    ;
                }
            }
            i = i + 1;
            assert(r@ =~= want.subrange(0, 3 * i));
        }
    }
    r
}

fn build_trns(f: u16, p: &[u16]) -> (r: Vec<u8>)
    ensures
        r@ == png_trns_spec(f, p@),
{
    let ghost want = png_trns_spec(f, p@);
    let mut r: Vec<u8> = Vec::new();
    let mut k: usize = 0;
    if f == 1 || f == 6 {
        let n: usize = if f == 1 {
            32
        } else {
            8
        };
        while k < 256
            invariant
                k <= 256,
                f == 1 || f == 6,
                n == (if f == 1 {
                    32usize
                } else {
                    8usize
                }),
                want == png_trns_spec(f, p@),
                r@ =~= want.subrange(0, k as int),
            decreases 256 - k,
        {
            let i = k % n;
            let b = k / n;
            let v: u8 = if i < p.len() && u16_to_transparency(p[i]) {
                if f == 1 {
                    (b * 32 + b * 4 + b / 2) as u8
                } else {
                    (b * 8 + b / 4) as u8
                }
            } else {
                0
            };
            r.push(v);
            k = k + 1;
            assert(r@ =~= want.subrange(0, k as int));
        }
    } else {
        while k < p.len()
            invariant
                k <= p@.len(),
                !(f == 1 || f == 6),
                want == png_trns_spec(f, p@),
                r@ =~= want.subrange(0, k as int),
            decreases p@.len() - k,
        {
            let v: u8 = if u16_to_transparency(p[k]) {
                255
            } else {
                0
            };
            r.push(v);
            k = k + 1;
            assert(r@ =~= want.subrange(0, k as int));
        }
    }
    r
}

impl Gld {
    /// The palette at offset `k`.
    pub fn lookup_palette(&self, k: u16) -> (r: Option<&Vec<u16>>)
        ensures
            match r {
                Some(v) => palette_for(palettes_view(self.palettes@), k) == Some(v@),
                None => palette_for(palettes_view(self.palettes@), k) is None,
            },
    {
        let ghost pv = palettes_view(self.palettes@);
        let mut i: usize = 0;
        assert(pv.skip(0) =~= pv);
        while i < self.palettes.len()
            invariant
                i <= self.palettes@.len(),
                pv == palettes_view(self.palettes@),
                palette_for(pv, k) == palette_for(pv.skip(i as int), k),
            decreases self.palettes@.len() - i,
        {
            assert(pv.skip(i as int)[0] == pv[i as int]);
            if self.palettes[i].0 == k {
                return Some(&self.palettes[i].1);
            }
            assert(pv.skip(i as int).drop_first() =~= pv.skip(i + 1));
            i = i + 1;
        }
        assert(pv.skip(i as int) =~= Seq::<(u16, Seq<u16>)>::empty());
        None
    }

    /// The picture of sprite `index`; `None` for a deleted sprite.
    pub fn extract_png(&self, index: usize) -> (r: Option<PngImage>)
        requires
            !extract_png_panics(*self, index as int),
            kept(self.footer_entries@[index as int]) ==> area_bytes(*self, self.footer_entries@[index as int])
                * 4 <= usize::MAX,
        ensures
            match r {
                Some(p) => png_spec(*self, index as int) == Some(p@),
                None => png_spec(*self, index as int) is None,
            },
    {
        let e = self.footer_entries[index];
        if e.sprite_format & 0x8000 != 0 {
            return None;
        }
        let f = e.sprite_format;
        let bd: u32 = if f == 2 {
            2
        } else if f == 3 {
            4
        } else {
            8
        };
        let p = self.lookup_palette(e.palette_offset).unwrap();
        let palette = build_palette(f, p.as_slice());
        let trns = build_trns(f, p.as_slice());
        let max_y: u16 = e.crop_y + e.crop_height;
        let rw = self.render_width(&e);
        let rwb: u32 = rw * bd / 8;
        let count: usize = rwb as usize * max_y as usize;
        assert(count == area_bytes(*self, e));
        assert(e.pixels_offset + area_bytes(*self, e) <= self.pixel_data@.len());
        let po = e.pixels_offset as usize;
        let plen = self.pixel_data.len();
        assert(po + count <= plen);
        let slice = vstd::slice::slice_subrange(self.pixel_data.as_slice(), po, po + count);
        let pixels: Vec<u8> = if bd == 2 {
            unpack_2bits_le(slice)
        } else if bd == 4 {
            unpack_4bits_le(slice)
        } else {
            vstd::slice::slice_to_vec(slice)
        };
        let ghost px = pixels@;
        assert(px == unpack_spec(bd as int, slice@));
        assert(px.len() == count * (8int / bd as int));
        let mut data: Vec<u8> = Vec::new();
        let cx = e.crop_x as usize;
        let cw = e.crop_width as usize;
        let mut y: u16 = e.crop_y;
        while y < max_y
            invariant
                e.crop_y <= y <= max_y,
                max_y == e.crop_y + e.crop_height,
                e.crop_height > 0 ==> (max_y - 1) * rw + cx + cw <= px.len(),
                px == pixels@,
                px.len() == pixels.len(),
                bd == 2 || bd == 4 || bd == 8,
                data@ == rows_spec(px, rw as int, cx as int, cw as int, e.crop_y as int, y as int, bd as int),
            decreases max_y - y,
        {
            proof {
                assert((y as int) * (rw as int) <= (max_y - 1) * (rw as int)) by (nonlinear_arith)
                    requires
                        y < max_y,
                ;
                assert((y as int) * (rw as int) + cx + cw <= pixels.len());
            }
            let start = (y as usize) * (rw as usize) + cx;
            let end = start + cw;
            let row = vstd::slice::slice_subrange(pixels.as_slice(), start, end);
            let mut packed = if bd == 2 {
                pack_2bits_be(row)
            } else if bd == 4 {
                pack_4bits_be(row)
            } else {
                vstd::slice::slice_to_vec(row)
            };
            data.append(&mut packed);
            y = y + 1;
        }
        let img = PngImage {
            width: e.crop_width as u32,
            height: e.crop_height as u32,
            bit_depth: bd as u8,
            palette,
            trns,
            data,
        };
        Some(img)
    }
}


/// The most colours a sprite of format `f` can use.
pub open spec fn max_palette(f: u16) -> int {
    if f == 1 {
        32
    } else if f == 2 {
        4
    } else if f == 3 {
        16
    } else if f == 4 {
        256
    } else {
        8
    }
}

/// The colours of `p` that a sprite of format `f` can use.
pub open spec fn used_palette(p: Seq<u16>, f: u16) -> Seq<u16> {
    if p.len() < max_palette(f) {
        p
    } else {
        p.take(max_palette(f))
    }
}

/// The pixels of a picture as (palette index, opacity): RGBA pixels when
/// `has_alpha`, else RGB pixels, fully opaque.
pub open spec fn pixel_pairs(buf: Seq<u8>, has_alpha: bool, pal: Seq<u16>) -> Seq<(u8, u8)> {
    if has_alpha {
        Seq::new(buf.len() / 4, |i: int| (color_index_spec(buf.subrange(4 * i, 4 * i + 3), pal) as u8, buf[4 * i + 3]))
    } else {
        Seq::new(buf.len() / 3, |i: int| (color_index_spec(buf.subrange(3 * i, 3 * i + 3), pal) as u8, 255u8))
    }
}

/// A pixel of a sprite of format `f`: the palette index, with the high bits of
/// the opacity above it in formats 1 and 6.
pub open spec fn pixel_value(f: u16, c: u8, a: u8) -> u8 {
    if f == 1 {
        (c & 0x1Fu8) | (a & 0xE0u8)
    } else if f == 6 {
        (c & 0x07u8) | (a & 0xF8u8)
    } else {
        c
    }
}

/// Pixels per byte in format `f`.
pub open spec fn per_byte(f: u16) -> int {
    if f == 2 {
        4
    } else if f == 3 {
        2
    } else {
        1
    }
}

/// The bytes of a row of `w` pixels.
pub open spec fn row_bytes(f: u16, w: int) -> int {
    (w + per_byte(f) - 1) / per_byte(f)
}

/// A row of pixels packed for format `f`, the first pixel in the lowest bits,
/// a partial last byte keeping the rest of `last`.
pub open spec fn pack_le_spec(f: u16, row: Seq<u8>, last: u8) -> Seq<u8> {
    if f == 2 {
        pack2_le_spec(row, last)
    } else if f == 3 {
        pack4_le_spec(row, last)
    } else {
        row
    }
}

/// The byte at which row `y` of the sprite is written: the sprite's offset,
/// then the byte that holds the row's first pixel, the area being `rw`
/// pixels wide and each byte holding `per_byte` pixels.
pub open spec fn dest_start(e: GldFooterEntry, rw: int, y: int) -> int {
    e.pixels_offset + ((y + e.crop_y) * rw + e.crop_x) / per_byte(e.sprite_format)
}

/// The pixel data with the first `y` rows of `px` written.
pub open spec fn inject_rows(data: Seq<u8>, e: GldFooterEntry, rw: int, px: Seq<u8>, y: int) -> Seq<u8>
    decreases (if y > 0 {
        y
    } else {
        0
    }),
{
    if y <= 0 {
        data
    } else {
        let d = inject_rows(data, e, rw, px, y - 1);
        let w = e.crop_width as int;
        let ds = dest_start(e, rw, y - 1);
        let de = ds + row_bytes(e.sprite_format, w);
        d.subrange(0, ds) + pack_le_spec(e.sprite_format, px.subrange((y - 1) * w, (y - 1) * w + w), d[de - 1])
            + d.subrange(de, d.len() as int)
    }
}

/// Putting a picture into sprite `index` cannot be done, before the
/// picture is read: no such sprite, a format it does not know, or no palette at
/// the offset.
pub open spec fn inject_panics_early(g: Gld, index: int) -> bool {
    index < 0 || index >= g.footer_entries@.len() || !known_format(g.footer_entries@[index].sprite_format)
        || palette_for(palettes_view(g.palettes@), g.footer_entries@[index].palette_offset) is None
}

/// Why a picture of `w` by `h` cannot be put into sprite `index`.
pub open spec fn inject_error(g: Gld, index: int, w: u32, h: u32, animated: bool) -> Option<GldError> {
    let e = g.footer_entries@[index];
    if w != e.crop_width as u32 || h != e.crop_height as u32 {
        Some(GldError::Dimensions)
    } else if animated {
        Some(GldError::Animated)
    } else {
        None
    }
}

/// Writing the rows cannot be done: the width of the area cannot be
/// computed, or a row's last byte is before the start or past the end of
/// the pixel data.
pub open spec fn inject_panics_late(g: Gld, index: int) -> bool {
    let e = g.footer_entries@[index];
    let rw = render_width_spec(g.header.data_06, e) as int;
    let rb = row_bytes(e.sprite_format, e.crop_width as int);
    render_width_panics(g.header.data_06, e) || (e.crop_height > 0 && (dest_start(e, rw, 0) + rb == 0
        || dest_start(e, rw, e.crop_height - 1) + rb > g.pixel_data@.len()))
}

/// The pixel data after the picture `buf` is put into sprite `index`.
pub open spec fn injected_pixels(g: Gld, index: int, has_alpha: bool, buf: Seq<u8>) -> Seq<u8> {
    let e = g.footer_entries@[index];
    let pal = used_palette(palette_for(palettes_view(g.palettes@), e.palette_offset)->0, e.sprite_format);
    let px = pixel_pairs(buf, has_alpha, pal).map_values(|p: (u8, u8)| pixel_value(e.sprite_format, p.0, p.1));
    inject_rows(g.pixel_data@, e, render_width_spec(g.header.data_06, e) as int, px, e.crop_height as int)
}

fn pixel_of(f: u16, c: u8, a: u8) -> (r: u8)
    ensures
        r == pixel_value(f, c, a),
{
    if f == 1 {
        (c & 0x1F) | (a & 0xE0)
    } else if f == 6 {
        (c & 0x07) | (a & 0xF8)
    } else {
        c
    }
}

fn picture_pixels(f: u16, buf: &[u8], has_alpha: bool, pal: &[u16]) -> (r: Vec<u8>)
    requires
        pal@.len() <= 256,
    ensures
        r@ == pixel_pairs(buf@, has_alpha, pal@).map_values(|p: (u8, u8)| pixel_value(f, p.0, p.1)),
{
    let ghost want = pixel_pairs(buf@, has_alpha, pal@).map_values(|p: (u8, u8)| pixel_value(f, p.0, p.1));
    let k: usize = if has_alpha {
        4
    } else {
        3
    };
    let count = buf.len() / k;
    let mut r: Vec<u8> = Vec::new();
    let mut i: usize = 0;
    let mut base: usize = 0;
    while i < count
        invariant
            i <= count,
            base == k * i,
            k == (if has_alpha {
                4usize
            } else {
                3usize
            }),
            count == (buf@.len() as int) / (k as int),
            pal@.len() <= 256,
            want == pixel_pairs(buf@, has_alpha, pal@).map_values(|p: (u8, u8)| pixel_value(f, p.0, p.1)),
            r@ =~= want.subrange(0, i as int),
        decreases count - i,
    {
        proof {
            assert(k * i + k <= k * count) by (nonlinear_arith)
                requires
                    i < count,
            ;
            assert(k * count <= buf@.len()) by (nonlinear_arith)
                requires
                    count == (buf@.len() as int) / (k as int),
                    k > 0,
            ;
        }
        let color: [u8; 3] = [buf[base], buf[base + 1], buf[base + 2]];
        let a: u8 = if has_alpha {
            buf[base + 3]
        } else {
            255
        };
        let ci = get_color_index(&color, pal);
        proof {
            assert(color@ =~= buf@.subrange(k * i, k * i + 3));
            lemma_color_index_bound(color@, pal@, 0, 0, 93);
        }
        r.push(pixel_of(f, ci as u8, a));
        i = i + 1;
        base = base + k;
        assert(r@ =~= want.subrange(0, i as int));
    }
    r
}

proof fn lemma_color_index_bound(color: Seq<u8>, pal: Seq<u16>, i: int, best: int, dist: int)
    requires
        0 <= best < 256 || (best == 0),
        0 <= i,
        pal.len() <= 256,
        best < pal.len() || best == 0,
    ensures
        0 <= color_index_from(color, pal, i, best, dist) < 256,
    decreases pal.len() - i,
{
    if i < pal.len() {
        let d = distance_spec(color, pal[i]);
        if d != 0 {
            if d < dist {
                lemma_color_index_bound(color, pal, i + 1, i, d);
            } else {
                lemma_color_index_bound(color, pal, i + 1, best, dist);
            }
        }
    }
}

impl Gld {
    /// Puts a picture into sprite `index`: `width` by `height` pixels, RGBA
    /// when `has_transparency` else RGB, 8 bits a channel. Each pixel takes the
    /// nearest colour of the sprite's palette; the rows are written into the
    /// area of the sprite.
    pub fn inject_png(
        &mut self,
        index: usize,
        width: u32,
        height: u32,
        animated: bool,
        has_transparency: bool,
        buffer: &[u8],
    ) -> (r: Result<(), GldError>)
        requires
            !inject_panics_early(*old(self), index as int),
            inject_error(*old(self), index as int, width, height, animated) is None ==> {
                &&& width * height * (if has_transparency {
                    4int
                } else {
                    3int
                }) <= u32::MAX
                &&& buffer@.len() == width * height * (if has_transparency {
                    4int
                } else {
                    3int
                })
                &&& !inject_panics_late(*old(self), index as int)
            },
        ensures
            match r {
                Ok(()) => inject_error(*old(self), index as int, width, height, animated) is None
                    && final(self).pixel_data@ == injected_pixels(*old(self), index as int, has_transparency, buffer@)
                    && final(self).header == old(self).header
                    && final(self).palettes@ == old(self).palettes@
                    && final(self).footer_entries@ == old(self).footer_entries@
                    && final(self).file_stem@ == old(self).file_stem@,
                Err(e) => inject_error(*old(self), index as int, width, height, animated) == Some(e)
                    && *final(self) == *old(self),
            },
    {
        let e = self.footer_entries[index];
        let f = e.sprite_format;
        let maxp: usize = if f == 1 {
            32
        } else if f == 2 {
            4
        } else if f == 3 {
            16
        } else if f == 4 {
            256
        } else {
            8
        };
        let big = self.lookup_palette(e.palette_offset).unwrap();
        let used = if big.len() < maxp {
            big.len()
        } else {
            maxp
        };
        let pal = vstd::slice::slice_subrange(big.as_slice(), 0, used);
        assert(pal@ =~= used_palette(big@, f));
        if width != e.crop_width as u32 || height != e.crop_height as u32 {
            return Err(GldError::Dimensions);
        }
        if animated {
            return Err(GldError::Animated);
        }
        let px = picture_pixels(f, buffer, has_transparency, pal);
        let ghost pxv = px@;
        let w = e.crop_width as usize;
        assert(px@.len() == width * height) by {
            assert((buffer@.len() as int) / (if has_transparency {
                4int
            } else {
                3int
            }) == width * height) by (nonlinear_arith)
                requires
                    buffer@.len() == width * height * (if has_transparency {
                        4int
                    } else {
                        3int
                    }),
            ;
        }
        let rw = self.render_width(&e) as usize;
        let rb: usize = if f == 2 {
            (w + 3) / 4
        } else if f == 3 {
            (w + 1) / 2
        } else {
            w
        };
        let ghost data0 = self.pixel_data@;
        let ghost rwi = rw as int;
        let h = e.crop_height as usize;
        let plen = self.pixel_data.len();
        let pxlen = px.len();
        let mut y: usize = 0;
        let mut s0: usize = 0;
        while y < h
            invariant
                y <= h,
                h == e.crop_height,
                w == e.crop_width,
                px@ == pxv,
                pxv.len() == w * h,
                rb == row_bytes(f, w as int),
                f == e.sprite_format,
                rwi == rw,
                rw <= u32::MAX,
                self.pixel_data@.len() == data0.len(),
                plen == data0.len(),
                pxlen == pxv.len(),
                s0 == y * w,
                self.pixel_data@ == inject_rows(data0, e, rwi, pxv, y as int),
                e.crop_height > 0 ==> dest_start(e, rwi, 0) + rb != 0,
                e.crop_height > 0 ==> dest_start(e, rwi, e.crop_height - 1) + rb <= data0.len(),
                self.header == old(self).header,
                self.palettes@ == old(self).palettes@,
                self.footer_entries@ == old(self).footer_entries@,
                self.file_stem@ == old(self).file_stem@,
            decreases h - y,
        {
            proof {
                assert((y + e.crop_y) * rwi <= (e.crop_height - 1 + e.crop_y) * rwi) by (nonlinear_arith)
                    requires
                        y < e.crop_height,
                        rwi >= 0,
                ;
                assert(y * w + w <= w * h) by (nonlinear_arith)
                    requires
                        y < h,
                ;
                assert((y + 1) * w == y * w + w) by (nonlinear_arith);
                assert((y + e.crop_y) * rwi >= (0 + e.crop_y) * rwi) by (nonlinear_arith)
                    requires
                        y >= 0,
                        rwi >= 0,
                ;
            }
            let pb: u64 = if f == 2 {
                4
            } else if f == 3 {
                2
            } else {
                1
            };
            assert(pb == per_byte(f));
            let yy: u64 = y as u64 + e.crop_y as u64;
            let rw64: u64 = rw as u64;
            assert(yy * rw64 <= 0x2_0000 * 0x1_0000_0000) by (nonlinear_arith)
                requires
                    yy <= 0x2_0000,
                    rw64 <= 0x1_0000_0000,
            ;
            let at: u64 = (yy * rw64 + e.crop_x as u64) / pb;
            proof {
                let a = (y + e.crop_y) * rwi + e.crop_x;
                let b = (e.crop_height - 1 + e.crop_y) * rwi + e.crop_x;
                let c = (0 + e.crop_y) * rwi + e.crop_x;
                vstd::arithmetic::div_mod::lemma_div_is_ordered(a, b, pb as int);
                vstd::arithmetic::div_mod::lemma_div_is_ordered(c, a, pb as int);
                assert(at == a / (pb as int));
            }
            let ds = e.pixels_offset as usize + at as usize;
            assert(ds == dest_start(e, rwi, y as int));
            let de = ds + rb;
            let last = self.pixel_data[de - 1];
            let src = vstd::slice::slice_subrange(px.as_slice(), s0, s0 + w);
            assert(src@.len() == w);
            let packed = if f == 3 {
                let p = pack_4bits_le(src, last);
                assert(p@.len() == rb);
                p
            } else if f == 2 {
                let p = pack_2bits_le(src, last);
                assert(p@.len() == rb);
                p
            } else {
                let p = vstd::slice::slice_to_vec(src);
                assert(per_byte(f) == 1);
                assert(rb == w) by {
                    assert((w as int + 1 - 1) / 1 == w as int) by (nonlinear_arith);
                }
                p
            };
            let ghost before = self.pixel_data@;
            assert(packed@ == pack_le_spec(f, pxv.subrange(y * w, y * w + w), last));
            let mut k: usize = 0;
            while k < rb
                invariant
                    k <= rb,
                    packed@.len() == rb,
                    de == ds + rb,
                    de <= before.len(),
                    self.pixel_data@.len() == before.len(),
                    self.pixel_data@ == before.subrange(0, ds as int) + packed@.subrange(0, k as int)
                        + before.subrange(ds + k, before.len() as int),
                    self.header == old(self).header,
                    self.palettes@ == old(self).palettes@,
                    self.footer_entries@ == old(self).footer_entries@,
                    self.file_stem@ == old(self).file_stem@,
                decreases rb - k,
            {
                self.pixel_data.set(ds + k, packed[k]);
                k = k + 1;
                assert(self.pixel_data@ =~= before.subrange(0, ds as int) + packed@.subrange(0, k as int)
                    + before.subrange(ds + k, before.len() as int));
            }
            assert(packed@.subrange(0, rb as int) =~= packed@);
            y = y + 1;
            s0 = s0 + w;
        }
        Ok(())
    }
}


/// Packing 4-bit pixels (the first in the low nibble) and unpacking them gives
/// the pixels back.
pub proof fn lemma_pack4_unpack4(px: Seq<u8>, last: u8)
    requires
        forall|i: int| 0 <= i < px.len() ==> #[trigger] px[i] < 16,
    ensures
        unpack4_spec(pack4_le_spec(px, last)).subrange(0, px.len() as int) == px,
{
    let packed = pack4_le_spec(px, last);
    assert forall|i: int| 0 <= i < px.len() implies #[trigger] unpack4_spec(packed)[i] == px[i] by {
        let k = i / 2;
        let p0 = pixel_or(px, 2 * k, last);
        let p1 = pixel_or(px, 2 * k + 1, last >> 4u8);
        let b = (p0 & 15u8) | ((p1 & 15u8) << 4u8);
        assert(packed[k] == b);
        if i % 2 == 0 {
            assert(i == 2 * k);
            assert(p0 < 16);
            assert((b >> 0u8) & 15u8 == p0) by (bit_vector)
                requires
                    b == (p0 & 15u8) | ((p1 & 15u8) << 4u8),
                    p0 < 16,
            ;
        } else {
            assert(i == 2 * k + 1);
            assert(p1 < 16);
            assert((b >> 4u8) & 15u8 == p1) by (bit_vector)
                requires
                    b == (p0 & 15u8) | ((p1 & 15u8) << 4u8),
                    p1 < 16,
            ;
        }
    }
    assert(unpack4_spec(packed).subrange(0, px.len() as int) =~= px);
}

/// Packing 2-bit pixels (the first in the lowest bits) and unpacking them
/// gives the pixels back.
pub proof fn lemma_pack2_unpack2(px: Seq<u8>, last: u8)
    requires
        forall|i: int| 0 <= i < px.len() ==> #[trigger] px[i] < 4,
    ensures
        unpack2_spec(pack2_le_spec(px, last)).subrange(0, px.len() as int) == px,
{
    let packed = pack2_le_spec(px, last);
    assert forall|i: int| 0 <= i < px.len() implies #[trigger] unpack2_spec(packed)[i] == px[i] by {
        let k = i / 4;
        let p0 = pixel_or(px, 4 * k, last);
        let p1 = pixel_or(px, 4 * k + 1, last >> 2u8);
        let p2 = pixel_or(px, 4 * k + 2, last >> 4u8);
        let p3 = pixel_or(px, 4 * k + 3, last >> 6u8);
        let b = (p0 & 3u8) | ((p1 & 3u8) << 2u8) | ((p2 & 3u8) << 4u8) | ((p3 & 3u8) << 6u8);
        assert(packed[k] == b);
        let j = i % 4;
        if j == 0 {
            assert(i == 4 * k && p0 < 4);
            assert((b >> 0u8) & 3u8 == p0) by (bit_vector)
                requires
                    b == (p0 & 3u8) | ((p1 & 3u8) << 2u8) | ((p2 & 3u8) << 4u8) | ((p3 & 3u8) << 6u8),
                    p0 < 4,
            ;
        } else if j == 1 {
            assert(i == 4 * k + 1 && p1 < 4);
            assert((b >> 2u8) & 3u8 == p1) by (bit_vector)
                requires
                    b == (p0 & 3u8) | ((p1 & 3u8) << 2u8) | ((p2 & 3u8) << 4u8) | ((p3 & 3u8) << 6u8),
                    p1 < 4,
            ;
        } else if j == 2 {
            assert(i == 4 * k + 2 && p2 < 4);
            assert((b >> 4u8) & 3u8 == p2) by (bit_vector)
                requires
                    b == (p0 & 3u8) | ((p1 & 3u8) << 2u8) | ((p2 & 3u8) << 4u8) | ((p3 & 3u8) << 6u8),
                    p2 < 4,
            ;
        } else {
            assert(i == 4 * k + 3 && p3 < 4);
            assert((b >> 6u8) & 3u8 == p3) by (bit_vector)
                requires
                    b == (p0 & 3u8) | ((p1 & 3u8) << 2u8) | ((p2 & 3u8) << 4u8) | ((p3 & 3u8) << 6u8),
                    p3 < 4,
            ;
        }
    }
    assert(unpack2_spec(packed).subrange(0, px.len() as int) =~= px);
}

} // verus!
