//! Sprites as PNG files, written and read by the `png` crate.
use vstd::prelude::*;
use crate::gld::{Gld, GldError, png_spec, extract_png_panics, kept, area_bytes, inject_panics_early, inject_error, inject_panics_late, injected_pixels, render_width_panics, row_bytes, dest_start, per_byte};
use crate::text::{chars_of, string_of, slice_chars, parse_u64, parse_unsigned};

verus! {

/// What png's encoder makes of an indexed-colour picture of `width` by
/// `height` pixels of `bit_depth` bits, with the RGB triples `palette`, the
/// opacities `trns` and the packed rows `data`: the file it writes, or `None`
/// when it refuses them.
pub uninterp spec fn png_indexed(width: u32, height: u32, bit_depth: u8, palette: Seq<u8>, trns: Seq<u8>, data: Seq<u8>) -> Option<Seq<u8>>;

/// Writes an indexed-colour PNG with png's `Encoder` (`set_color(Indexed)`,
/// `set_depth`, `set_palette`, `set_trns`, `write_header`,
/// `write_image_data`, `finish`) into memory. The encoder writes into a
/// `Vec` and reads nothing else, so both the file and a refusal (a depth png
/// does not know, a header or data size it rejects) depend on the arguments
/// alone and are named by `png_indexed`; on which arguments it refuses is not
/// stated.
#[verifier::external_body]
fn encode_indexed(width: u32, height: u32, bit_depth: u8, palette: &[u8], trns: &[u8], data: &[u8]) -> (r: Option<Vec<u8>>)
    ensures
        r matches Some(v) ==> png_indexed(width, height, bit_depth, palette@, trns@, data@) == Some(v@),
        r is None ==> png_indexed(width, height, bit_depth, palette@, trns@, data@) is None,
{
    let mut out: Vec<u8> = Vec::new();
    let mut encoder = png::Encoder::new(&mut out, width, height);
    encoder.set_color(png::ColorType::Indexed);
    encoder.set_depth(png::BitDepth::from_u8(bit_depth)?);
    encoder.set_palette(palette.to_vec());
    encoder.set_trns(trns.to_vec());
    let mut writer = encoder.write_header().ok()?;
    writer.write_image_data(data).ok()?;
    writer.finish().ok()?;
    Some(out)
}

/// What png's decoder, set to normalise to 8-bit colour, reports of the file
/// `file` once it has read its header: width, height, the number of its
/// colour type, whether it has a transparency chunk, whether it is animated,
/// and the size of a decoded frame (`None` when that does not fit in memory).
pub uninterp spec fn png_header(file: Seq<u8>) -> Option<(u32, u32, u8, bool, bool, Option<usize>)>;

/// The first frame that png's decoder, set to normalise to 8-bit colour,
/// decodes from `file`.
pub uninterp spec fn png_frame(file: Seq<u8>) -> Option<Seq<u8>>;

/// Reads the header of a PNG file with png's `Decoder` (`read_info` after
/// `set_transformations(normalize_to_color8())`): its size, colour type (png's
/// `ColorType` numbers, 0, 2, 3, 4 or 6), whether it has a tRNS chunk, whether
/// it is animated, and `output_buffer_size`. `None` when the decoder refuses
/// the header; when it does is not stated.
#[verifier::external_body]
fn read_header(file: &[u8]) -> (r: Option<(u32, u32, u8, bool, bool, Option<usize>)>)
    ensures
        r == png_header(file@),
        r matches Some(h) ==> (h.2 == 0 || h.2 == 2 || h.2 == 3 || h.2 == 4 || h.2 == 6),
{
    let mut decoder = png::Decoder::new(std::io::Cursor::new(file));
    decoder.set_transformations(png::Transformations::normalize_to_color8());
    let reader = decoder.read_info().ok()?;
    let info = reader.info();
    let (w, h) = info.size();
    Some((w, h, info.color_type as u8, info.trns.is_some(), info.is_animated(), reader.output_buffer_size()))
}

/// Decodes the first frame of a PNG file with png's `Decoder`, normalised to
/// 8-bit colour, into a buffer of `output_buffer_size` bytes (`next_frame`).
/// `None` when the decoder refuses the file; when it does is not stated.
#[verifier::external_body]
fn read_frame(file: &[u8]) -> (r: Option<Vec<u8>>)
    ensures
        match r {
            Some(v) => png_frame(file@) == Some(v@) && (png_header(file@) matches Some(h) && h.5 == Some(v@.len() as usize)),
            None => png_frame(file@) is None,
        },
{
    let mut decoder = png::Decoder::new(std::io::Cursor::new(file));
    decoder.set_transformations(png::Transformations::normalize_to_color8());
    let mut reader = decoder.read_info().ok()?;
    let mut buffer = vec![0u8; reader.output_buffer_size()?];
    reader.next_frame(&mut buffer).ok()?;
    Some(buffer)
}

/// Whether the decoded pixels of a file of colour type `color` carry an alpha
/// byte: with an alpha channel, or indexed with a transparency chunk.
pub open spec fn png_alpha(color: u8, has_trns: bool) -> bool {
    color == 4 || color == 6 || (color == 3 && has_trns)
}

/// The number of bytes the decoded picture of a file with header `h` must
/// have: three or four for each pixel.
pub open spec fn expected_frame_size(h: (u32, u32, u8, bool, bool, Option<usize>)) -> int {
    h.0 * h.1 * (if png_alpha(h.2, h.3) {
        4int
    } else {
        3int
    })
}

/// Putting the PNG `file` into sprite `index` cannot go through: its size
/// fits the sprite and it is not animated, but the size of its decoded
/// picture is unknown, does not fit in 32 bits, or is not three or four bytes
/// a pixel, or the sprite's rows cannot be written.
pub open spec fn png_inject_panics(g: Gld, index: int, file: Seq<u8>) -> bool {
    match png_header(file) {
        None => false,
        Some(h) => inject_error(g, index, h.0, h.1, h.4) is None && (expected_frame_size(h) > u32::MAX
            || h.5 != Some(expected_frame_size(h) as usize) || inject_panics_late(g, index)),
    }
}

/// What putting the PNG `file` into sprite `index` of `old` gives: `r` and
/// the sheet `new` after it.
pub open spec fn file_injected(old: Gld, new: Gld, index: int, file: Seq<u8>, r: Result<(), GldError>) -> bool {
    match r {
        Ok(()) => match (png_header(file), png_frame(file)) {
            (Some(h), Some(buf)) => {
                &&& inject_error(old, index, h.0, h.1, h.4) is None
                &&& new.pixel_data@ == injected_pixels(old, index, png_alpha(h.2, h.3), buf)
                &&& new.header == old.header
                &&& new.palettes@ == old.palettes@
                &&& new.footer_entries@ == old.footer_entries@
                &&& new.file_stem@ == old.file_stem@
            },
            _ => false,
        },
        Err(e) => new == old && (match png_header(file) {
            None => e == GldError::Png,
            Some(h) => match inject_error(old, index, h.0, h.1, h.4) {
                Some(x) => e == x,
                None => e == GldError::Png && png_frame(file) is None,
            },
        }),
    }
}

/// Whether the rows of sprite `index` can be written.
fn rows_fit(g: &Gld, index: usize) -> (r: bool)
    requires
        !inject_panics_early(*g, index as int),
    ensures
        r == !inject_panics_late(*g, index as int),
{
    let e = g.footer_entries[index];
    let d6 = g.header.data_06;
    let mx: u32 = e.crop_x as u32 + e.crop_width as u32;
    if mx > 0xFFFF || !(d6 == 1 || d6 == 2) || (d6 == 1 && mx > 0x8000) || (d6 == 2 && e.render_width_id >= 32) {
        assert(render_width_panics(d6, e));
        return false;
    }
    if e.crop_height == 0 {
        return true;
    }
    let rw: u64 = g.render_width(&e) as u64;
    let pb: u64 = if e.sprite_format == 2 {
        4
    } else if e.sprite_format == 3 {
        2
    } else {
        1
    };
    assert(pb == per_byte(e.sprite_format));
    let rb: u64 = (e.crop_width as u64 + pb - 1) / pb;
    assert(rb == row_bytes(e.sprite_format, e.crop_width as int));
    let y0: u64 = e.crop_y as u64;
    let y1: u64 = e.crop_height as u64 - 1 + e.crop_y as u64;
    assert(y0 * rw <= 0x2_0000 * 0x1_0000_0000 && y1 * rw <= 0x2_0000 * 0x1_0000_0000) by (nonlinear_arith)
        requires
            y0 <= 0x2_0000,
            y1 <= 0x2_0000,
            rw <= 0x1_0000_0000,
    ;
    let first: u64 = e.pixels_offset as u64 + (y0 * rw + e.crop_x as u64) / pb;
    let last: u64 = e.pixels_offset as u64 + (y1 * rw + e.crop_x as u64) / pb;
    assert(first == dest_start(e, rw as int, 0));
    assert(last == dest_start(e, rw as int, e.crop_height - 1));
    !(first + rb == 0 || last + rb > g.pixel_data.len() as u64)
}

impl Gld {
    /// The PNG file of sprite `index`; `Ok(None)` for a deleted sprite.
    pub fn extract_png_file(&self, index: usize) -> (r: Result<Option<Vec<u8>>, GldError>)
        requires
            !extract_png_panics(*self, index as int),
            kept(self.footer_entries@[index as int]) ==> area_bytes(*self, self.footer_entries@[index as int])
                * 4 <= usize::MAX,
        ensures
            match r {
                Ok(None) => png_spec(*self, index as int) is None,
                Ok(Some(v)) => png_spec(*self, index as int) matches Some(p) && png_indexed(
                    p.0,
                    p.1,
                    p.2,
                    p.3,
                    p.4,
                    p.5,
                ) == Some(v@),
                Err(e) => e == GldError::Png && png_spec(*self, index as int) is Some,
            },
            r is Err <==> (png_spec(*self, index as int) matches Some(p) && png_indexed(
                p.0,
                p.1,
                p.2,
                p.3,
                p.4,
                p.5,
            ) is None),
    {
        match self.extract_png(index) {
            None => Ok(None),
            Some(img) => match encode_indexed(
                img.width,
                img.height,
                img.bit_depth,
                img.palette.as_slice(),
                img.trns.as_slice(),
                img.data.as_slice(),
            ) {
                Some(v) => Ok(Some(v)),
                None => Err(GldError::Png),
            },
        }
    }

    /// Puts the picture of the PNG `file` into sprite `index`: refused when the
    /// file cannot be read, when its size is not the sprite's, when it is
    /// animated, or when its picture cannot be decoded; each pixel takes the
    /// nearest colour of the sprite's palette (see `file_injected`).
    pub fn inject_png_file(&mut self, index: usize, file: &[u8]) -> (r: Result<(), GldError>)
        requires
            !inject_panics_early(*old(self), index as int),
            !png_inject_panics(*old(self), index as int, file@),
        ensures
            file_injected(*old(self), *final(self), index as int, file@, r),
    {
        let h = match read_header(file) {
            Some(h) => h,
            None => return Err(GldError::Png),
        };
        let e = self.footer_entries[index];
        if h.0 != e.crop_width as u32 || h.1 != e.crop_height as u32 {
            return Err(GldError::Dimensions);
        }
        if h.4 {
            return Err(GldError::Animated);
        }
        let alpha = h.2 == 4 || h.2 == 6 || (h.2 == 3 && h.3);
        let buffer = match read_frame(file) {
            Some(b) => b,
            None => return Err(GldError::Png),
        };
        let bl = buffer.len();
        proof {
            assert(bl == buffer@.len());
            assert(png_header(file@) == Some(h));
            assert(alpha == png_alpha(h.2, h.3));
            assert(inject_error(*old(self), index as int, h.0, h.1, h.4) is None);
            assert(expected_frame_size(h) <= u32::MAX);
            assert(h.0 * h.1 * 3 >= 0 && h.0 * h.1 * 4 >= 0) by (nonlinear_arith);
            assert(expected_frame_size(h) >= 0);
            assert((expected_frame_size(h) as usize) as int == expected_frame_size(h));
            assert(h.5 == Some(bl));
            assert(h.5 == Some(expected_frame_size(h) as usize));
            assert(buffer@.len() == expected_frame_size(h));
        }
        self.inject_png(index, h.0, h.1, false, alpha, buffer.as_slice())
    }

    /// Puts the picture of the PNG `file` into sprite `index` as
    /// `inject_png_file` does, when it can go through; `None`, and the sheet
    /// unchanged, when it cannot (see `png_inject_panics`).
    pub fn try_inject_png_file(&mut self, index: usize, file: &[u8]) -> (r: Option<Result<(), GldError>>)
        requires
            !inject_panics_early(*old(self), index as int),
        ensures
            match r {
                None => png_inject_panics(*old(self), index as int, file@) && *final(self) == *old(self),
                Some(x) => !png_inject_panics(*old(self), index as int, file@) && file_injected(
                    *old(self),
                    *final(self),
                    index as int,
                    file@,
                    x,
                ),
            },
    {
        match read_header(file) {
            None => {},
            Some(h) => {
                let e = self.footer_entries[index];
                if h.0 == e.crop_width as u32 && h.1 == e.crop_height as u32 && !h.4 {
                    let alpha = h.2 == 4 || h.2 == 6 || (h.2 == 3 && h.3);
                    let bpp: u64 = if alpha {
                        4
                    } else {
                        3
                    };
                    assert(h.0 * h.1 <= 0xFFFF * 0xFFFF) by (nonlinear_arith)
                        requires
                            h.0 <= 0xFFFF,
                            h.1 <= 0xFFFF,
                    ;
                    let size: u64 = h.0 as u64 * h.1 as u64 * bpp;
                    if size > 0xFFFF_FFFF || h.5 != Some(size as usize) || !rows_fit(self, index) {
                        return None;
                    }
                }
            },
        }
        Some(self.inject_png_file(index, file))
    }
}

/// Where the last `_` of `s` is.
pub open spec fn last_underscore(s: Seq<char>) -> Option<int> {
    if exists|i: int| 0 <= i < s.len() && s[i] == '_' {
        Some(choose|i: int| 0 <= i < s.len() && s[i] == '_' && forall|j: int| i < j < s.len() ==> s[j] != '_')
    } else {
        None
    }
}

/// The sheet and the sprite that a picture named `stem` replaces: `stem` cut
/// at its last `_`, the part after it a sprite number.
pub open spec fn png_target_spec(stem: Seq<char>) -> Option<(Seq<char>, nat)> {
    match last_underscore(stem) {
        None => None,
        Some(i) => match parse_unsigned(stem.subrange(i + 1, stem.len() as int), usize::MAX as nat) {
            None => None,
            Some(n) => Some((stem.subrange(0, i), n)),
        },
    }
}

/// The sheet and the sprite that the picture named `stem` replaces, if its
/// name is a sheet name, `_` and a sprite number.
pub fn png_target(stem: &str) -> (r: Option<(String, usize)>)
    ensures
        match r {
            Some((s, n)) => png_target_spec(stem@) == Some((s@, n as nat)),
            None => png_target_spec(stem@) is None,
        },
{
    let cs = chars_of(stem);
    let mut i: usize = cs.len();
    while i > 0 && cs[i - 1] != '_'
        invariant
            i <= cs@.len(),
            cs@ == stem@,
            forall|j: int| i <= j < cs@.len() ==> cs@[j] != '_',
        decreases i,
    {
        i = i - 1;
    }
    if i == 0 {
        assert(!(exists|k: int| 0 <= k < cs@.len() && cs@[k] == '_'));
        return None;
    }
    let k = i - 1;
    proof {
        let w = choose|w: int| 0 <= w < cs@.len() && cs@[w] == '_' && forall|j: int| w < j < cs@.len() ==> cs@[j] != '_';
        assert(cs@[k as int] == '_');
        if w < k {
        } else if w > k {
        }
        assert(w == k);
    }
    let tail = slice_chars(cs.as_slice(), k + 1, cs.len());
    match parse_u64(tail.as_slice(), usize::MAX as u64) {
        None => None,
        Some(n) => {
            let head = slice_chars(cs.as_slice(), 0, k);
            Some((string_of(head.as_slice()), n as usize))
        },
    }
}

} // verus!
