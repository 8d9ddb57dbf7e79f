//! Whether the operations on `.gld` sheets can run on given arguments.
use vstd::prelude::*;
use crate::bytes::{u16_at, u32_at, read_u16_le, read_u32_le};
use crate::gld::{Gld, gld_error, gld_read_panics, footer_spec, footer_start, entry_len, kept, kept_offsets, extract_png_panics, inject_panics_early, render_width_panics, depth_of, area_bytes};

verus! {

/// Whether `Gld::read` can read `d`: a file with a layout of footer entries
/// it knows, whose drawn sprites' palettes start inside the palette data.
pub fn gld_readable(d: &[u8]) -> (r: bool)
    ensures
        r == !gld_read_panics(d@),
{
    let n = d.len() as u64;
    if n < 32 {
        return true;
    }
    let d04 = read_u16_le(d, 4).unwrap();
    let layout = read_u16_le(d, 6).unwrap();
    let psize = read_u32_le(d, 20).unwrap() as u64;
    let qsize = read_u32_le(d, 24).unwrap() as u64;
    let count = read_u32_le(d, 28).unwrap() as u64;
    let fs: u64 = 32 + psize + qsize;
    let elen: u64 = if layout == 1 {
        24
    } else {
        28
    };
    if d04 != 2 || fs > n || fs + elen * count > n {
        assert(gld_error(d@) is Some);
        return true;
    }
    assert(gld_error(d@) is None);
    if !(layout == 1 || layout == 2) {
        return false;
    }
    let ghost es = footer_spec(d@);
    let mut i: u64 = 0;
    while i < count
        invariant
            i <= count,
            count == u32_at(d@, 28),
            layout == u16_at(d@, 6),
            layout == 1 || layout == 2,
            elen == entry_len(layout),
            fs == footer_start(d@),
            fs + elen * count <= d@.len(),
            qsize == u32_at(d@, 24),
            es == footer_spec(d@),
            gld_error(d@) is None,
            n == d@.len(),
            forall|k: int| 0 <= k < i ==> !(kept(#[trigger] es[k]) && es[k].palette_offset > qsize),
        decreases count - i,
    {
        assert(fs + elen * i + elen <= fs + elen * count) by (nonlinear_arith)
            requires
                i < count,
        ;
        let p64: u64 = fs + elen * i;
        assert(p64 + elen <= n);
        let dlen = d.len();
        assert(p64 <= dlen);
        let pos = p64 as usize;
        assert(pos as int == footer_start(d@) + entry_len(u16_at(d@, 6)) * (i as int));
        let e = crate::gld::read_entry(d, pos, layout);
        assert(es[i as int] == e);
        if e.sprite_format & 0x8000 == 0 && e.palette_offset as u64 > qsize {
            assert(kept(es[i as int]) && es[i as int].palette_offset == e.palette_offset);
            assert(kept_offsets(es).contains(e.palette_offset));
            return false;
        }
        i = i + 1;
    }
    assert forall|k: u16| #[trigger] kept_offsets(es).contains(k) implies !(k > qsize) by {
        let j = choose|j: int| 0 <= j < es.len() && kept(#[trigger] es[j]) && es[j].palette_offset == k;
        assert(!(kept(es[j]) && es[j].palette_offset > qsize));
    }
    true
}

impl Gld {
    /// Whether `inject_png` and `inject_png_file` can start on sprite `index`:
    /// the sprite exists, its format is known and its palette is there.
    pub fn injectable(&self, index: usize) -> (r: bool)
        ensures
            r == !inject_panics_early(*self, index as int),
    {
        if index >= self.footer_entries.len() {
            return false;
        }
        let f = self.footer_entries[index].sprite_format;
        if !(f == 1 || f == 2 || f == 3 || f == 4 || f == 6) {
            return false;
        }
        self.lookup_palette(self.footer_entries[index].palette_offset).is_some()
    }

    /// Whether `extract_png` can make the picture of sprite `index`.
    pub fn extractable(&self, index: usize) -> (r: bool)
        ensures
            r == (!extract_png_panics(*self, index as int) && (kept(self.footer_entries@[index as int])
                ==> area_bytes(*self, self.footer_entries@[index as int]) * 4 <= usize::MAX)),
    {
        if index >= self.footer_entries.len() {
            return false;
        }
        let e = self.footer_entries[index];
        if e.sprite_format & 0x7F00 != 0 {
            return false;
        }
        if e.sprite_format & 0x8000 != 0 {
            return true;
        }
        let f = e.sprite_format;
        if !(f == 1 || f == 2 || f == 3 || f == 4 || f == 6) {
            return false;
        }
        if self.lookup_palette(e.palette_offset).is_none() {
            return false;
        }
        if e.crop_y as u32 + e.crop_height as u32 > 0xFFFF {
            return false;
        }
        let d6 = self.header.data_06;
        let mx: u32 = e.crop_x as u32 + e.crop_width as u32;
        if mx > 0xFFFF || !(d6 == 1 || d6 == 2) || (d6 == 1 && mx > 0x8000) || (d6 == 2 && e.render_width_id >= 32) {
            assert(render_width_panics(d6, e));
            return false;
        }
        let rw: u64 = self.render_width(&e) as u64;
        let bd: u64 = if f == 2 {
            2
        } else if f == 3 {
            4
        } else {
            8
        };
        assert(bd == depth_of(f));
        assert(rw * bd <= 0x1_0000_0000 * 8) by (nonlinear_arith)
            requires
                rw <= 0x1_0000_0000,
                bd <= 8,
        ;
        if rw * bd > 0xFFFF_FFFF {
            return false;
        }
        let rows: u64 = e.crop_y as u64 + e.crop_height as u64;
        let rb: u64 = rw * bd / 8;
        assert(rb * rows <= 0x1_0000_0000 * 0x1_0000) by (nonlinear_arith)
            requires
                rb <= 0x1_0000_0000,
                rows <= 0x1_0000,
        ;
        let area: u64 = rb * rows;
        assert(area == area_bytes(*self, e));
        if area > usize::MAX as u64 || area > u64::MAX / 4 || area * 4 > usize::MAX as u64 {
            return false;
        }
        if e.pixels_offset as u64 + area > self.pixel_data.len() as u64 {
            return false;
        }
        if e.crop_height > 0 {
            let last_row: u64 = rows - 1;
            assert(last_row * rw <= 0x1_0000 * 0x1_0000_0000) by (nonlinear_arith)
                requires
                    last_row <= 0x1_0000,
                    rw <= 0x1_0000_0000,
            ;
            let per: u64 = 8 / bd;
            assert(area * per <= 0x1_0000_0000_0000 * 4) by (nonlinear_arith)
                requires
                    area <= 0x1_0000_0000_0000,
                    per <= 4,
            ;
            if last_row * rw + e.crop_x as u64 + e.crop_width as u64 > area * per {
                return false;
            }
        }
        true
    }
}

} // verus!
