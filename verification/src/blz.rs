//! Backwards LZ ("BLZ"), the compression of the executables of a DS rom.
//!
//! A compressed file is an uncompressed prefix, then a compressed region that
//! is read from its end towards its start, then an 8-byte footer: the 24-bit
//! size of the compressed region with the footer, the size of the footer with
//! its padding, and the 32-bit number of bytes by which the file grows when it
//! is decompressed. Decompression works in place, from the end of the grown
//! buffer towards its start.
use vstd::prelude::*;
use crate::lz10::flag_top;
use crate::bytes::{next_multiple, next_multiple_usize};

verus! {

/// The 24-bit size of the compressed region with its footer.
pub open spec fn blz_region_size(d: Seq<u8>) -> int {
    let l = d.len() as int;
    d[l - 8] as int + d[l - 7] as int * 256 + d[l - 6] as int * 65536
}

/// The size of the footer with its padding.
pub open spec fn blz_header_size(d: Seq<u8>) -> int {
    d[d.len() - 5] as int
}

/// The number of bytes by which the file grows.
pub open spec fn blz_extend_size(d: Seq<u8>) -> int {
    let l = d.len() as int;
    d[l - 4] as int + d[l - 3] as int * 256 + d[l - 2] as int * 65536 + d[l - 1] as int
        * 16777216
}

/// What decompression gives: the bytes, or a stream it cannot follow (an index
/// before the start or past the end of the buffer).
pub enum BlzDecoded {
    Done(Seq<u8>),
    Fault,
}

/// `n` bytes copied from `disp` bytes ahead to `dst`, the last byte first.
pub open spec fn copy_down(buf: Seq<u8>, dst: int, disp: int, n: nat) -> Seq<u8>
    decreases n,
{
    if n == 0 {
        buf
    } else {
        copy_down(
            buf.update(dst + n - 1, buf[dst + disp + n - 1]),
            dst,
            disp,
            (n - 1) as nat,
        )
    }
}

/// Decoding from the flags byte just below `ci`, in the region starting at `base`
/// of the buffer `buf`, with `di` bytes of the region still to write.
pub open spec fn blz_block(buf: Seq<u8>, base: int, ci: int, di: int) -> BlzDecoded
    decreases ci, 0int,
{
    if ci < 1 || base < 0 || base + ci > buf.len() {
        BlzDecoded::Fault
    } else {
        blz_tokens(buf, base, ci - 1, buf[base + ci - 1], 0, di)
    }
}

/// Decoding token `k` of a group, `fl` being the flags byte shifted left `k` times.
pub open spec fn blz_tokens(buf: Seq<u8>, base: int, ci: int, fl: u8, k: nat, di: int) -> BlzDecoded
    decreases ci, 1int,
{
    if ci < 0 || base < 0 || base + ci > buf.len() || di < 0 || base + di > buf.len() {
        BlzDecoded::Fault
    } else if k >= 8 {
        blz_block(buf, base, ci, di)
    } else if flag_top(fl) {
        if ci < 2 {
            BlzDecoded::Fault
        } else {
            let c = ci - 2;
            let ref0 = buf[base + c];
            let ref1 = buf[base + c + 1];
            let len = ref1 / 16 + 3;
            let disp = (ref1 % 16) * 256 + ref0 + 3;
            if di < len || base + di - len + disp + len - 1 >= buf.len() {
                BlzDecoded::Fault
            } else {
                blz_step(
                    copy_down(buf, base + di - len, disp as int, len as nat),
                    base,
                    c,
                    fl << 1u8,
                    k + 1,
                    di - len,
                )
            }
        }
    } else {
        if ci < 1 || di < 1 {
            BlzDecoded::Fault
        } else {
            blz_step(
                buf.update(base + di - 1, buf[base + ci - 1]),
                base,
                ci - 1,
                fl << 1u8,
                k + 1,
                di - 1,
            )
        }
    }
}

/// After a token: done when the whole region is written.
pub open spec fn blz_step(buf: Seq<u8>, base: int, ci: int, fl: u8, k: nat, di: int) -> BlzDecoded
    decreases ci, 2int,
{
    if di == 0 {
        BlzDecoded::Done(buf)
    } else {
        blz_tokens(buf, base, ci, fl, k, di)
    }
}

/// What decompressing `d` gives.
pub open spec fn blz_decode(d: Seq<u8>) -> BlzDecoded {
    let l = d.len() as int;
    if l < 8 || blz_header_size(d) > blz_region_size(d) || blz_region_size(d) > l {
        BlzDecoded::Fault
    } else {
        blz_block(
            d + Seq::new(blz_extend_size(d) as nat, |_i: int| 0u8),
            l - blz_region_size(d),
            blz_region_size(d) - blz_header_size(d),
            blz_region_size(d) + blz_extend_size(d),
        )
    }
}

enum Decoded {
    Done(Vec<u8>),
    Fault,
}

fn decode_in_place(in_data: &[u8]) -> (r: Decoded)
    requires
        in_data@.len() >= 8 ==> in_data@.len() + blz_extend_size(in_data@) <= usize::MAX,
    ensures
        match r {
            Decoded::Done(v) => blz_decode(in_data@) == BlzDecoded::Done(v@),
            Decoded::Fault => blz_decode(in_data@) is Fault,
        },
{
    let in_length = in_data.len();
    if in_length < 8 {
        return Decoded::Fault;
    }
    let compressed_and_header_size: usize = (in_data[in_length - 8] as usize) + (
    in_data[in_length - 7] as usize) * 256 + (in_data[in_length - 6] as usize) * 65536;
    let header_size: usize = in_data[in_length - 5] as usize;
    let extend_size: usize = (in_data[in_length - 4] as usize) + (in_data[in_length - 3] as usize)
        * 256 + (in_data[in_length - 2] as usize) * 65536 + (in_data[in_length - 1] as usize)
        * 16777216;
    if header_size > compressed_and_header_size || compressed_and_header_size > in_length {
        return Decoded::Fault;
    }
    let ghost d = in_data@;
    let mut all_bytes: Vec<u8> = vstd::slice::slice_to_vec(in_data);
    let mut e: usize = 0;
    while e < extend_size
        invariant
            e <= extend_size,
            all_bytes@ == d + Seq::new(e as nat, |_i: int| 0u8),
        decreases extend_size - e,
    {
        all_bytes.push(0);
        e = e + 1;
        assert(all_bytes@ =~= d + Seq::new(e as nat, |_i: int| 0u8));
    }
    let base: usize = in_length - compressed_and_header_size;
    let mut ci: usize = compressed_and_header_size - header_size;
    let mut di: usize = compressed_and_header_size + extend_size;
    let ghost total = blz_decode(d);
    assert(total == blz_block(all_bytes@, base as int, ci as int, di as int));
    loop
        invariant
            base + di <= all_bytes.len(),
            base + ci <= all_bytes.len(),
            blz_block(all_bytes@, base as int, ci as int, di as int) == total,
            total == blz_decode(d),
            d == in_data@,
        decreases ci,
    {
        if ci < 1 {
            return Decoded::Fault;
        }
        ci = ci - 1;
        let ghost ci_top = ci;
        let mut flags: u8 = all_bytes[base + ci];
        let mut k: usize = 0;
        while k < 8
            invariant
                k <= 8,
                ci <= ci_top,
                base + di <= all_bytes.len(),
                base + ci <= all_bytes.len(),
                total == blz_decode(d),
                d == in_data@,
                blz_tokens(all_bytes@, base as int, ci as int, flags, k as nat, di as int) == total,
            decreases 8 - k,
        {
            if flags & 0x80 != 0 {
                if ci < 2 {
                    return Decoded::Fault;
                }
                ci = ci - 2;
                let ref0 = all_bytes[base + ci];
                let ref1 = all_bytes[base + ci + 1];
                assert(ref1 >> 4u8 == ref1 / 16) by (bit_vector);
                assert(ref1 & 0xFu8 == ref1 % 16) by (bit_vector);
                let mut length: usize = ((ref1 >> 4u8) as usize) + 3;
                let disp: usize = ((ref1 & 0xF) as usize) * 256 + (ref0 as usize) + 3;
                if di < length {
                    return Decoded::Fault;
                }
                let dst_pos: usize = base + di - length;
                if disp + length - 1 >= all_bytes.len() - dst_pos {
                    return Decoded::Fault;
                }
                di = di - length;
                let ghost dst = base + di;
                let ghost target = copy_down(all_bytes@, dst as int, disp as int, length as nat);
                let ghost len0 = all_bytes.len();
                while length != 0
                    invariant
                        all_bytes.len() == len0,
                        dst + disp + length <= all_bytes.len(),
                        dst == base + di,
                        copy_down(all_bytes@, dst as int, disp as int, length as nat) == target,
                    decreases length,
                {
                    length = length - 1;
                    let b = all_bytes[base + di + disp + length];
                    all_bytes[base + di + length] = b;
                }
            } else {
                if ci < 1 || di < 1 {
                    return Decoded::Fault;
                }
                di = di - 1;
                ci = ci - 1;
                let b = all_bytes[base + ci];
                all_bytes[base + di] = b;
            }
            flags = flags << 1u8;
            k = k + 1;
            if di == 0 {
                return Decoded::Done(all_bytes);
            }
        }
    }
}

/// The footer of `d` is read, but its compressed region with the footer is
/// larger than `d`.
pub open spec fn blz_region_past_start(d: Seq<u8>) -> bool {
    d.len() >= 8 && blz_header_size(d) <= blz_region_size(d) && blz_region_size(d) > d.len()
}

/// Decompresses a BLZ file in place: the result is the whole file grown by the
/// extend size, with the compressed region replaced by what it decodes to.
/// A footer whose compressed region is larger than the file is refused.
pub fn blz_decompress(in_data: &[u8]) -> (r: Result<Vec<u8>, BlzError>)
    requires
        blz_region_past_start(in_data@) || !(blz_decode(in_data@) is Fault),
        in_data@.len() >= 8 ==> in_data@.len() + blz_extend_size(in_data@) <= usize::MAX,
    ensures
        match r {
            Ok(v) => blz_decode(in_data@) == BlzDecoded::Done(v@),
            Err(e) => e == BlzError::RegionPastStart && blz_region_past_start(in_data@),
        },
        r is Err <==> blz_region_past_start(in_data@),
{
    let n = in_data.len();
    if n >= 8 {
        let region: usize = in_data[n - 8] as usize + in_data[n - 7] as usize * 256 + in_data[n - 6] as usize * 65536;
        if in_data[n - 5] as usize <= region && region > n {
            return Err(BlzError::RegionPastStart);
        }
    }
    match decode_in_place(in_data) {
        Decoded::Done(v) => Ok(v),
        Decoded::Fault => {
            assert(false);
            Err(BlzError::RegionTooLarge)
        },
    }
}

/// Whether `blz_decompress` can decompress `in_data`.
pub fn blz_is_decodable(in_data: &[u8]) -> (r: bool)
    requires
        in_data@.len() >= 8 ==> in_data@.len() + blz_extend_size(in_data@) <= usize::MAX,
    ensures
        r == !(blz_decode(in_data@) is Fault),
{
    match decode_in_place(in_data) {
        Decoded::Done(_) => true,
        Decoded::Fault => false,
    }
}


/// Why a file cannot be compressed.
#[derive(Debug, Clone, Copy, PartialEq, Eq)]
pub enum BlzError {
    /// The region to keep uncompressed is larger than the file.
    MinRegionTooLarge,
    /// The compressed region with its footer does not fit in 24 bits.
    RegionTooLarge,
    /// The number of bytes by which the file would grow does not fit in 32 bits.
    ExtendTooLarge,
    /// The footer's compressed region is larger than the file.
    RegionPastStart,
}

/// The longest reference: 15 + 3 bytes.
pub open spec fn max_ref_len() -> int {
    18
}

/// The farthest reference: 0xFFF + 3 bytes ahead.
pub open spec fn max_ref_disp() -> int {
    0x1002
}

/// How many bytes before `pos` equal those `disp` bytes further on, compared
/// from the end, counting from `i`, at most `tl`.
pub open spec fn back_match(x: Seq<u8>, pos: int, disp: int, tl: int, i: int) -> int
    decreases (if i < tl {
        tl - i
    } else {
        0
    }),
{
    if i >= tl {
        tl
    } else if x[pos - 1 - i] != x[pos + disp - 1 - i] {
        i
    } else {
        back_match(x, pos, disp, tl, i + 1)
    }
}

/// The reference chosen by trying each displacement from `disp` to `md` in
/// turn: the first that gives a longer match than the best so far (`bl` bytes
/// at `bd`) replaces it, a match never longer than its displacement; the search
/// stops at a match of `tl` bytes.
pub open spec fn best_ref(x: Seq<u8>, pos: int, tl: int, md: int, disp: int, bl: int, bd: int) -> (int, int)
    decreases (if disp <= md {
        md + 1 - disp
    } else {
        0
    }),
{
    if disp > md {
        (bl, bd)
    } else {
        let m = back_match(x, pos, disp, tl, 0);
        let l = if m < disp {
            m
        } else {
            disp
        };
        if l > bl {
            if l == tl {
                (l, disp)
            } else {
                best_ref(x, pos, tl, md, disp + 1, l, disp)
            }
        } else {
            best_ref(x, pos, tl, md, disp + 1, bl, bd)
        }
    }
}

/// The state of the compressor: position (the bytes before it are still to
/// do), the finished blocks, the flags and the number of tokens of the current
/// block, its token bytes, the smallest total size so far, and each new
/// smallest total with the position where it was reached.
pub type BlzRun = (int, Seq<u8>, u8, int, Seq<u8>, int, Seq<(int, int)>);

/// The first byte of a reference: length - 3 above the high bits of disp - 3.
pub open spec fn ref_byte0(bl: int, bd: int) -> u8 {
    ((bl - 3) * 16 + (bd - 3) / 256) as u8
}

/// The second byte of a reference: the low byte of disp - 3.
pub open spec fn ref_byte1(bd: int) -> u8 {
    ((bd - 3) % 256) as u8
}

/// One token of the compressor, from the end of what is left towards its
/// start: after a full block is closed, the best reference if it is longer
/// than two bytes, else one literal byte; then the total size the file would
/// have if compression stopped here.
pub open spec fn blz_token(x: Seq<u8>, m: int, s: BlzRun) -> BlzRun {
    let pos = s.0;
    let full = s.3 == 8;
    let buf = if full {
        s.1.push(s.2) + s.4
    } else {
        s.1
    };
    let flags = if full {
        0u8
    } else {
        s.2
    };
    let count = if full {
        0
    } else {
        s.3
    };
    let mini = if full {
        Seq::empty()
    } else {
        s.4
    };
    let tl = if pos - m < max_ref_len() {
        pos - m
    } else {
        max_ref_len()
    };
    let md = if x.len() - pos < max_ref_disp() {
        x.len() - pos
    } else {
        max_ref_disp()
    };
    let (bl, bd) = best_ref(x, pos, tl, md, 3, 2, 0);
    let shifted = flags << 1u8;
    let npos = if bl > 2 {
        pos - bl
    } else {
        pos - 1
    };
    let nflags = if bl > 2 {
        shifted | 1u8
    } else {
        shifted
    };
    let nmini = if bl > 2 {
        mini.push(ref_byte0(bl, bd)).push(ref_byte1(bd))
    } else {
        mini.push(x[pos - 1])
    };
    let total = npos + buf.len() + 1 + nmini.len();
    if total < s.5 {
        (npos, buf, nflags, count + 1, nmini, total, s.6.push((npos, total)))
    } else {
        (npos, buf, nflags, count + 1, nmini, s.5, s.6)
    }
}

pub proof fn lemma_back_match_bound(x: Seq<u8>, pos: int, disp: int, tl: int, i: int)
    requires
        0 <= i <= tl,
    ensures
        i <= back_match(x, pos, disp, tl, i) <= tl,
    decreases tl - i,
{
    if i < tl && x[pos - 1 - i] == x[pos + disp - 1 - i] {
        lemma_back_match_bound(x, pos, disp, tl, i + 1);
    }
}

pub proof fn lemma_best_ref_bound(x: Seq<u8>, pos: int, tl: int, md: int, disp: int, bl: int, bd: int)
    requires
        0 <= tl,
    ensures
        best_ref(x, pos, tl, md, disp, bl, bd).0 == bl || (bl < best_ref(x, pos, tl, md, disp, bl, bd).0
            <= tl),
    decreases (if disp <= md {
        md + 1 - disp
    } else {
        0
    }),
{
    if disp <= md {
        lemma_back_match_bound(x, pos, disp, tl, 0);
        let m = back_match(x, pos, disp, tl, 0);
        let l = if m < disp {
            m
        } else {
            disp
        };
        if l > bl {
            if l != tl {
                lemma_best_ref_bound(x, pos, tl, md, disp + 1, l, disp);
            }
        } else {
            lemma_best_ref_bound(x, pos, tl, md, disp + 1, bl, bd);
        }
    }
}

pub proof fn lemma_step_pos(x: Seq<u8>, m: int, s: BlzRun)
    requires
        m < s.0,
    ensures
        m <= blz_token(x, m, s).0 < s.0,
        blz_token(x, m, s).0 == s.0 - 1 || blz_token(x, m, s).0 <= s.0 - 3,
{
    let pos = s.0;
    let tl = if pos - m < max_ref_len() {
        pos - m
    } else {
        max_ref_len()
    };
    let md = if x.len() - pos < max_ref_disp() {
        x.len() - pos
    } else {
        max_ref_disp()
    };
    lemma_best_ref_bound(x, pos, tl, md, 3, 2, 0);
}

/// The compressor run from state `s` until no byte before the position is
/// left to compress.
pub open spec fn blz_run(x: Seq<u8>, m: int, s: BlzRun) -> BlzRun
    decreases (if s.0 > m {
        s.0 - m
    } else {
        0
    }),
{
    if s.0 <= m {
        s
    } else {
        proof {
            lemma_step_pos(x, m, s);
        }
        blz_run(x, m, blz_token(x, m, s))
    }
}

/// The compressor's state once it has compressed everything after `m` bytes.
pub open spec fn blz_final(x: Seq<u8>, m: int) -> BlzRun {
    blz_run(x, m, (x.len() as int, Seq::empty(), 0u8, 0, Seq::empty(), x.len() as int, Seq::empty()))
}

/// The blocks with the last one closed: its flags moved to the top bits.
pub open spec fn blz_blocks(r: BlzRun) -> Seq<u8> {
    r.1.push(r.2 << ((8 - r.3) as u8)) + r.4
}

/// The first recorded total size below `total`, with its position.
pub open spec fn first_below(recs: Seq<(int, int)>, total: int) -> Option<(int, int)>
    decreases recs.len(),
{
    if recs.len() == 0 {
        None
    } else if recs[0].1 < total {
        Some(recs[0])
    } else {
        first_below(recs.drop_first(), total)
    }
}

proof fn lemma_first_below_some(recs: Seq<(int, int)>, total: int, k: int)
    requires
        0 <= k < recs.len(),
        recs[k].1 < total,
    ensures
        first_below(recs, total) is Some,
    decreases k,
{
    if recs[0].1 >= total {
        assert(recs.drop_first()[k - 1] == recs[k]);
        lemma_first_below_some(recs.drop_first(), total, k - 1);
    }
}

/// Whether compressing `x` while keeping `m` bytes uncompressed fails by a
/// panic: when nothing is left to compress (the last flags byte would be
/// shifted by eight), or when compressing everything is larger than the input
/// and no smaller total size was ever reached.
pub open spec fn blz_panics(x: Seq<u8>, m: int) -> bool {
    x.len() == m || (x.len() > m && {
        let r = blz_final(x, m);
        let total = m + blz_blocks(r).len();
        total > r.5 && first_below(r.6, total) is None
    })
}

/// `s` cut to `n` bytes if it is longer.
pub open spec fn truncated(s: Seq<u8>, n: int) -> Seq<u8> {
    if 0 <= n < s.len() {
        s.take(n)
    } else {
        s
    }
}

/// The footer of a compressed file: the size of the compressed region with
/// the footer (24 bits), the size of the footer with its padding, and the
/// number of bytes by which decompression grows the file (32 bits).
pub open spec fn blz_footer(region: int, header: int, extend: int) -> Seq<u8> {
    seq![
        (region % 256) as u8,
        ((region / 256) % 256) as u8,
        ((region / 65536) % 256) as u8,
        header as u8,
        (extend % 256) as u8,
        ((extend / 256) % 256) as u8,
        ((extend / 65536) % 256) as u8,
        ((extend / 16777216) % 256) as u8,
    ]
}

/// What compression gives. If compressing everything is not the smallest, the
/// compressed region stops at the first recorded total size that is smaller
/// than that of compressing everything. `None` when the result, aligned to four
/// bytes with its footer, would not be smaller than `x`.
pub open spec fn blz_compressed(x: Seq<u8>, m: int) -> Result<Option<Seq<u8>>, BlzError> {
    if x.len() < m {
        Err(BlzError::MinRegionTooLarge)
    } else {
        let r = blz_final(x, m);
        let blocks = blz_blocks(r);
        let total = m + blocks.len();
        let stop = first_below(r.6, total)->0;
        let bp = if total > r.5 {
            stop.0
        } else {
            m
        };
        let bt = if total > r.5 {
            stop.1
        } else {
            total
        };
        let kept = if total > r.5 {
            truncated(blocks, stop.1 - stop.0)
        } else {
            blocks
        };
        let aligned = next_multiple(bt, 4);
        if aligned + 8 >= x.len() {
            Ok(None)
        } else {
            let pad = aligned - bt;
            let region = kept.len() + pad + 8;
            let extend = x.len() - (bp + kept.len() + pad + 8);
            if region > 0xFF_FFFF {
                Err(BlzError::RegionTooLarge)
            } else if extend > 0xFFFF_FFFF {
                Err(BlzError::ExtendTooLarge)
            } else {
                Ok(
                    Some(
                        x.take(bp) + kept.reverse() + Seq::new(pad as nat, |_i: int| 0xFFu8)
                            + blz_footer(region, pad + 8, extend),
                    ),
                )
            }
        }
    }
}


fn back_match_len(x: &[u8], pos: usize, disp: usize, tl: usize) -> (r: usize)
    requires
        tl <= pos,
        pos + disp <= x@.len(),
    ensures
        r == back_match(x@, pos as int, disp as int, tl as int, 0),
{
    let mut i: usize = 0;
    while i < tl
        invariant
            i <= tl <= pos,
            pos + disp <= x@.len(),
            back_match(x@, pos as int, disp as int, tl as int, 0) == back_match(
                x@,
                pos as int,
                disp as int,
                tl as int,
                i as int,
            ),
        decreases tl - i,
    {
        if x[pos - 1 - i] != x[pos + disp - 1 - i] {
            return i;
        }
        i = i + 1;
    }
    tl
}

fn find_best_ref(x: &[u8], pos: usize, tl: usize, md: usize) -> (r: (usize, usize))
    requires
        tl <= pos,
        pos + md <= x@.len(),
        md <= 0x1002,
    ensures
        (r.0 as int, r.1 as int) == best_ref(x@, pos as int, tl as int, md as int, 3, 2, 0),
        r.0 == 2 || (2 < r.0 <= tl && 3 <= r.1 <= md),
{
    let mut bl: usize = 2;
    let mut bd: usize = 0;
    let mut disp: usize = 3;
    while disp <= md
        invariant
            3 <= disp <= md + 1 || (disp == 3 && md < 3),
            tl <= pos,
            pos + md <= x@.len(),
            md <= 0x1002,
            best_ref(x@, pos as int, tl as int, md as int, 3, 2, 0) == best_ref(
                x@,
                pos as int,
                tl as int,
                md as int,
                disp as int,
                bl as int,
                bd as int,
            ),
            bl == 2 || (2 < bl <= tl && 3 <= bd < disp),
        decreases md + 1 - disp,
    {
        let mm = back_match_len(x, pos, disp, tl);
        proof {
            lemma_back_match_bound(x@, pos as int, disp as int, tl as int, 0);
        }
        let l = if mm < disp {
            mm
        } else {
            disp
        };
        if l > bl {
            bl = l;
            bd = disp;
            if bl == tl {
                return (bl, bd);
            }
        }
        disp = disp + 1;
    }
    (bl, bd)
}

/// The view of the compressor's state in executable code.
pub open spec fn run_view(
    pos: usize,
    buf: Seq<u8>,
    flags: u8,
    count: usize,
    mini: Seq<u8>,
    best: usize,
    recs: Seq<(usize, usize)>,
) -> BlzRun {
    (
        pos as int,
        buf,
        flags,
        count as int,
        mini,
        best as int,
        recs.map_values(|p: (usize, usize)| (p.0 as int, p.1 as int)),
    )
}

/// The compressor run over `x` down to `m` bytes, in executable code.
fn run_compressor(x: &[u8], m: usize) -> (r: (usize, Vec<u8>, u8, usize, Vec<u8>, usize, Vec<(usize, usize)>))
    requires
        m < x@.len() <= isize::MAX,
    ensures
        run_view(r.0, r.1@, r.2, r.3, r.4@, r.5, r.6@) == blz_final(x@, m as int),
        r.0 == m,
        1 <= r.3 <= 8,
        r.1@.len() + r.4@.len() <= 2 * (x@.len() - m),
        forall|k: int| 0 <= k < r.6@.len() ==> (#[trigger] r.6@[k]).0 <= r.6@[k].1 < x@.len(),
{
    let n = x.len();
    let mut position: usize = n;
    let mut buf: Vec<u8> = Vec::new();
    let mut flags: u8 = 0;
    let mut count: usize = 0;
    let mut mini: Vec<u8> = Vec::new();
    let mut best: usize = n;
    let mut recs: Vec<(usize, usize)> = Vec::new();
    let ghost fin = blz_final(x@, m as int);
    assert(recs@.map_values(|p: (usize, usize)| (p.0 as int, p.1 as int)) =~= Seq::<(int, int)>::empty());
    while position > m
        invariant
            m <= position <= n,
            n == x@.len(),
            n <= isize::MAX,
            count <= 8,
            position < n ==> count >= 1,
            buf@.len() + mini@.len() <= 2 * (n - position),
            best <= n,
            forall|k: int| 0 <= k < recs@.len() ==> (#[trigger] recs@[k]).0 <= recs@[k].1 < n,
            fin == blz_final(x@, m as int),
            blz_run(x@, m as int, run_view(position, buf@, flags, count, mini@, best, recs@)) == fin,
        decreases position - m,
    {
        let ghost s = run_view(position, buf@, flags, count, mini@, best, recs@);
        if count == 8 {
            buf.push(flags);
            buf.append(&mut mini);
            flags = 0;
            count = 0;
        }
        let tl: usize = if position - m < 18 {
            position - m
        } else {
            18
        };
        let md: usize = if n - position < 0x1002 {
            n - position
        } else {
            0x1002
        };
        let (bl, bd) = find_best_ref(x, position, tl, md);
        flags = flags << 1u8;
        count = count + 1;
        if bl > 2 {
            mini.push((((bl - 3) * 16 + (bd - 3) / 256) as u8));
            mini.push((((bd - 3) % 256) as u8));
            position = position - bl;
            flags = flags | 1u8;
        } else {
            position = position - 1;
            mini.push(x[position]);
        }
        let total = position + buf.len() + 1 + mini.len();
        if total < best {
            best = total;
            recs.push((position, total));
        }
        proof {
            let t = blz_token(x@, m as int, s);
            assert(run_view(position, buf@, flags, count, mini@, best, recs@) =~= t);
        }
    }
    (position, buf, flags, count, mini, best, recs)
}

/// The compressed file: the uncompressed prefix, the kept blocks from last to
/// first, the padding and the footer.
fn blz_output(x: &[u8], bp: usize, kept: &Vec<u8>, pad: usize, region: usize, extend: usize) -> (r: Vec<u8>)
    requires
        bp <= x@.len(),
        pad < 4,
        region <= 0xFF_FFFF,
        extend <= 0xFFFF_FFFF,
    ensures
        r@ == x@.take(bp as int) + kept@.reverse() + Seq::new(pad as nat, |_i: int| 0xFFu8) + blz_footer(
            region as int,
            (pad + 8) as int,
            extend as int,
        ),
{
    let mut out: Vec<u8> = vstd::slice::slice_to_vec(vstd::slice::slice_subrange(x, 0, bp));
    let ghost k = kept@;
    let mut i: usize = kept.len();
    while i > 0
        invariant
            i <= k.len(),
            kept@ == k,
            out@ == x@.take(bp as int) + k.reverse().take(k.len() - i),
        decreases i,
    {
        i = i - 1;
        out.push(kept[i]);
        assert(out@ =~= x@.take(bp as int) + k.reverse().take(k.len() - i));
    }
    assert(k.reverse().take(k.len() as int) =~= k.reverse());
    let mut j: usize = 0;
    let ghost mid = out@;
    while j < pad
        invariant
            j <= pad,
            out@ == mid + Seq::new(j as nat, |_i: int| 0xFFu8),
        decreases pad - j,
    {
        out.push(0xFF);
        j = j + 1;
        assert(out@ =~= mid + Seq::new(j as nat, |_i: int| 0xFFu8));
    }
    let ghost body = out@;
    out.push((region % 256) as u8);
    out.push(((region / 256) % 256) as u8);
    out.push(((region / 65536) % 256) as u8);
    out.push((pad + 8) as u8);
    out.push((extend % 256) as u8);
    out.push(((extend / 256) % 256) as u8);
    out.push(((extend / 65536) % 256) as u8);
    out.push(((extend / 16777216) % 256) as u8);
    assert(out@ =~= body + blz_footer(region as int, (pad + 8) as int, extend as int));
    out
}

/// Compresses `decompressed_bytes` with backwards LZ, leaving its first
/// `min_uncompressed_region_size` bytes as they are; `None` when that would not
/// make it smaller.
pub fn blz_compress(decompressed_bytes: &[u8], min_uncompressed_region_size: usize) -> (r: Result<
    Option<Vec<u8>>,
    BlzError,
>)
    requires
        decompressed_bytes@.len() <= isize::MAX,
        !blz_panics(decompressed_bytes@, min_uncompressed_region_size as int),
    ensures
        match r {
            Ok(Some(v)) => blz_compressed(decompressed_bytes@, min_uncompressed_region_size as int)
                == Ok::<Option<Seq<u8>>, BlzError>(Some(v@)) && blz_decode(v@) == BlzDecoded::Done(
                decompressed_bytes@,
            ) && v@.len() + blz_extend_size(v@) <= usize::MAX,
            Ok(None) => blz_compressed(decompressed_bytes@, min_uncompressed_region_size as int)
                == Ok::<Option<Seq<u8>>, BlzError>(None),
            Err(e) => blz_compressed(decompressed_bytes@, min_uncompressed_region_size as int)
                == Err::<Option<Seq<u8>>, BlzError>(e),
        },
{
    let x = decompressed_bytes;
    let m = min_uncompressed_region_size;
    let n = x.len();
    if n < m {
        return Err(BlzError::MinRegionTooLarge);
    }
    let ghost fin = blz_final(x@, m as int);
    let (_position, mut buf, flags, count, mut mini, best, recs) = run_compressor(x, m);
    let last_flags = flags << ((8 - count) as u8);
    buf.push(last_flags);
    buf.append(&mut mini);
    let total = m + buf.len();
    assert(buf@ =~= blz_blocks(fin));
    let mut bp: usize = m;
    let mut bt: usize = total;
    let ghost rv = recs@.map_values(|p: (usize, usize)| (p.0 as int, p.1 as int));
    if total > best {
        let mut k: usize = 0;
        assert(rv.skip(0) =~= rv);
        while k < recs.len() && recs[k].1 >= total
            invariant
                k <= recs@.len(),
                rv == recs@.map_values(|p: (usize, usize)| (p.0 as int, p.1 as int)),
                first_below(rv, total as int) == first_below(rv.skip(k as int), total as int),
            decreases recs@.len() - k,
        {
            assert(rv.skip(k as int).drop_first() =~= rv.skip(k + 1));
            k = k + 1;
        }
        if k == recs.len() {
            assert(rv.skip(k as int) =~= Seq::<(int, int)>::empty());
            assert(false);
            return Err(BlzError::RegionTooLarge);
        }
        assert(rv.skip(k as int)[0] == rv[k as int]);
        bp = recs[k].0;
        bt = recs[k].1;
        buf.truncate(bt - bp);
        assert(buf@ =~= truncated(blz_blocks(fin), bt - bp));
    }
    let aligned = match next_multiple_usize(bt, 4) {
        Some(a) => a,
        None => {
            return Ok(None);
        },
    };
    if aligned > n || n - aligned <= 8 {
        return Ok(None);
    }
    let pad = aligned - bt;
    let region = buf.len() + pad + 8;
    let extend = n - (bp + buf.len() + pad + 8);
    if region > 0xFF_FFFF {
        return Err(BlzError::RegionTooLarge);
    }
    if extend > 0xFFFF_FFFF {
        return Err(BlzError::ExtendTooLarge);
    }
    let out = blz_output(x, bp, &buf, pad, region, extend);
    proof {
        crate::blz_roundtrip::lemma_blz_roundtrip(x@, m as int);
    }
    Ok(Some(out))
}

/// Whether `blz_compress` can run on these arguments without the panic of
/// its last steps.
pub fn blz_compress_accepts(decompressed_bytes: &[u8], min_uncompressed_region_size: usize) -> (r: bool)
    requires
        decompressed_bytes@.len() <= isize::MAX,
    ensures
        r == !blz_panics(decompressed_bytes@, min_uncompressed_region_size as int),
{
    let x = decompressed_bytes;
    let m = min_uncompressed_region_size;
    let n = x.len();
    if n == m {
        return false;
    }
    if n < m {
        return true;
    }
    let mut position: usize = n;
    let mut buf_len: usize = 0;
    let mut count: usize = 0;
    let mut mini_len: usize = 0;
    let mut best: usize = n;
    let mut any_record = false;
    let ghost fin = blz_final(x@, m as int);
    let ghost mut s: BlzRun = (n as int, Seq::empty(), 0u8, 0, Seq::empty(), n as int, Seq::empty());
    while position > m
        invariant
            m <= position <= n,
            n == x@.len(),
            n <= isize::MAX,
            count <= 8,
            position < n ==> count >= 1,
            buf_len + mini_len <= 2 * (n - position),
            best <= n,
            s.0 == position,
            s.1.len() == buf_len,
            s.3 == count,
            s.4.len() == mini_len,
            s.5 == best,
            any_record == (s.6.len() > 0),
            s.6.len() > 0 ==> s.6.last().1 == s.5,
            fin == blz_final(x@, m as int),
            blz_run(x@, m as int, s) == fin,
        decreases position - m,
    {
        let ghost t = blz_token(x@, m as int, s);
        if count == 8 {
            buf_len = buf_len + 1 + mini_len;
            mini_len = 0;
            count = 0;
        }
        let tl: usize = if position - m < 18 {
            position - m
        } else {
            18
        };
        let md: usize = if n - position < 0x1002 {
            n - position
        } else {
            0x1002
        };
        let (bl, _bd) = find_best_ref(x, position, tl, md);
        count = count + 1;
        if bl > 2 {
            mini_len = mini_len + 2;
            position = position - bl;
        } else {
            position = position - 1;
            mini_len = mini_len + 1;
        }
        let total = position + buf_len + 1 + mini_len;
        if total < best {
            best = total;
            any_record = true;
        }
        proof {
            s = t;
        }
    }
    assert(blz_run(x@, m as int, s) == s);
    assert(s == fin);
    assert(fin.5 == best);
    let total = m + buf_len + 1 + mini_len;
    assert(total == m + blz_blocks(fin).len());
    if total > best {
        proof {
            assert(s == fin);
            if any_record {
                assert(fin.6[fin.6.len() - 1].1 == best);
                lemma_first_below_some(fin.6, total as int, fin.6.len() - 1);
            } else {
                assert(fin.6.len() == 0);
                assert(first_below(fin.6, total as int) is None);
            }
        }
        any_record
    } else {
        assert(!blz_panics(x@, m as int));
        true
    }
}

} // verus!
