//! Writing a `.nds` rom: the header, the ARM9 and ARM7 binaries with their
//! overlay tables and overlays, the file name and allocation tables, the
//! banner and the files, each where the layout rules put it.
use vstd::prelude::*;
use crate::bytes::{next_multiple, next_multiple_usize, push_repeat, extend_bytes, le_bytes_u32, u32_at, push_u32_le, read_u32_le};
use crate::nds_tree::SourceTreeNode;
use crate::text::{chars_of, string_of};
use crate::nds_build::{addresses_spec, arm9_addresses, arm7_addresses, size_fields_spec, size_fields};

verus! {

/// `s` filled with `fill` up to `pos`; unchanged if it reaches `pos` already.
pub open spec fn fill_to(s: Seq<u8>, pos: int, fill: u8) -> Seq<u8> {
    if pos > s.len() {
        s + Seq::new((pos - s.len()) as nat, |_i: int| fill)
    } else {
        s
    }
}

/// Files written one after another, each from the next multiple of 0x200
/// after `0xFF` bytes, with where each starts and ends.
pub open spec fn files_put(s: Seq<u8>, files: Seq<Seq<u8>>) -> (Seq<u8>, Seq<(u32, u32)>)
    decreases files.len(),
{
    if files.len() == 0 {
        (s, Seq::empty())
    } else {
        let (t, es) = files_put(s, files.drop_last());
        let top = next_multiple(t.len() as int, 0x200);
        (fill_to(t, top, 0xFF) + files.last(), es.push((top as u32, (top + files.last().len()) as u32)))
    }
}

/// The room that writing `files` may take: each with up to 0x200 bytes of
/// padding before it.
pub open spec fn files_room(files: Seq<Seq<u8>>) -> int
    decreases files.len(),
{
    if files.len() == 0 {
        0
    } else {
        files_room(files.drop_last()) + 0x200 + files.last().len()
    }
}

proof fn lemma_files_put_len(s: Seq<u8>, fs: Seq<Seq<u8>>)
    ensures
        files_put(s, fs).1.len() == fs.len(),
    decreases fs.len(),
{
    if fs.len() > 0 {
        lemma_files_put_len(s, fs.drop_last());
    }
}

proof fn lemma_files_put_grows(s: Seq<u8>, fs: Seq<Seq<u8>>)
    ensures
        files_put(s, fs).0.len() >= s.len(),
    decreases fs.len(),
{
    if fs.len() > 0 {
        lemma_files_put_grows(s, fs.drop_last());
    }
}

proof fn lemma_next_multiple_bound(x: int, m: int)
    requires
        x >= 0,
        m > 0,
    ensures
        x <= next_multiple(x, m) < x + m,
{
}

proof fn lemma_room_prefix(fs: Seq<Seq<u8>>, k: int)
    requires
        0 <= k <= fs.len(),
    ensures
        0 <= files_room(fs.take(k)) <= files_room(fs),
    decreases fs.len() - k,
{
    if k < fs.len() {
        lemma_room_prefix(fs, k + 1);
        assert(fs.take(k + 1).drop_last() =~= fs.take(k));
        lemma_room_nonneg(fs.take(k));
        assert(files_room(fs.take(k + 1)) == files_room(fs.take(k)) + 0x200 + fs.take(k + 1).last().len());
    } else {
        assert(fs.take(k) =~= fs);
        lemma_room_nonneg(fs);
    }
}

/// The room that writing files may take is never negative.
pub proof fn lemma_room_nonneg(fs: Seq<Seq<u8>>)
    ensures
        files_room(fs) >= 0,
    decreases fs.len(),
{
    if fs.len() > 0 {
        lemma_room_nonneg(fs.drop_last());
    }
}

/// Fills `out` with `fill` up to `pos`.
pub fn pad_to_position(out: &mut Vec<u8>, pos: usize, fill: u8)
    ensures
        final(out)@ == fill_to(old(out)@, pos as int, fill),
{
    if pos > out.len() {
        let n = pos - out.len();
        push_repeat(out, fill, n);
    }
}

/// Fills `out` with `fill` up to the next multiple of `alignment`, which it
/// returns.
pub fn pad_to_alignment(out: &mut Vec<u8>, alignment: usize, fill: u8) -> (r: usize)
    requires
        alignment > 0,
        old(out)@.len() + alignment <= usize::MAX,
    ensures
        r == next_multiple(old(out)@.len() as int, alignment as int),
        final(out)@ == fill_to(old(out)@, r as int, fill),
{
    proof {
        lemma_next_multiple_bound(old(out)@.len() as int, alignment as int);
    }
    let p = next_multiple_usize(out.len(), alignment).unwrap();
    pad_to_position(out, p, fill);
    p
}

/// Writes `data` at the next multiple of 0x200 after `0xFF` bytes; returns
/// where it starts and ends.
pub fn add_file(out: &mut Vec<u8>, data: &[u8]) -> (r: (u32, u32))
    requires
        old(out)@.len() + 0x200 + data@.len() <= u32::MAX,
    ensures
        ({
            let top = next_multiple(old(out)@.len() as int, 0x200);
            &&& final(out)@ == fill_to(old(out)@, top, 0xFF) + data@
            &&& r == (top as u32, (top + data@.len()) as u32)
        }),
{
    let top = pad_to_alignment(out, 0x200, 0xFF);
    extend_bytes(out, data);
    (top as u32, (top + data.len()) as u32)
}

/// Writes the files one after another as `add_file` does.
pub fn add_files(out: &mut Vec<u8>, files: &Vec<Vec<u8>>) -> (r: Vec<(u32, u32)>)
    requires
        old(out)@.len() + files_room(files@.map_values(|f: Vec<u8>| f@)) <= u32::MAX,
    ensures
        (final(out)@, r@) == files_put(old(out)@, files@.map_values(|f: Vec<u8>| f@)),
        final(out)@.len() <= old(out)@.len() + files_room(files@.map_values(|f: Vec<u8>| f@)),
{
    let ghost fs = files@.map_values(|f: Vec<u8>| f@);
    let ghost start = out@;
    let mut fat: Vec<(u32, u32)> = Vec::new();
    let mut i: usize = 0;
    proof {
        assert(fs.take(0) =~= Seq::<Seq<u8>>::empty());
        assert(fat@ =~= Seq::<(u32, u32)>::empty());
    }
    while i < files.len()
        invariant
            i <= files@.len(),
            fs == files@.map_values(|f: Vec<u8>| f@),
            (out@, fat@) == files_put(start, fs.take(i as int)),
            out@.len() <= start.len() + files_room(fs.take(i as int)),
            start.len() + files_room(fs) <= u32::MAX,
        decreases files@.len() - i,
    {
        proof {
            assert(fs.take(i + 1).drop_last() =~= fs.take(i as int));
            assert(fs.take(i + 1).last() == fs[i as int]);
            assert(fs[i as int] == files@[i as int]@);
            lemma_room_prefix(fs, i + 1);
        }
        let ghost before = (out@, fat@);
        let e = add_file(out, files[i].as_slice());
        fat.push(e);
        i = i + 1;
        proof {
            assert((out@, fat@) == files_put(start, fs.take(i as int)));
        }
    }
    proof {
        assert(fs.take(files@.len() as int) =~= fs);
    }
    fat
}

/// The Nintendo logo that every rom's header holds.
pub open spec fn nintendo_logo() -> Seq<u8> {
    seq![
        0x24u8, 0xFF, 0xAE, 0x51, 0x69, 0x9A, 0xA2, 0x21, 0x3D, 0x84, 0x82, 0x0A,
        0x84, 0xE4, 0x09, 0xAD, 0x11, 0x24, 0x8B, 0x98, 0xC0, 0x81, 0x7F, 0x21,
        0xA3, 0x52, 0xBE, 0x19, 0x93, 0x09, 0xCE, 0x20, 0x10, 0x46, 0x4A, 0x4A,
        0xF8, 0x27, 0x31, 0xEC, 0x58, 0xC7, 0xE8, 0x33, 0x82, 0xE3, 0xCE, 0xBF,
        0x85, 0xF4, 0xDF, 0x94, 0xCE, 0x4B, 0x09, 0xC1, 0x94, 0x56, 0x8A, 0xC0,
        0x13, 0x72, 0xA7, 0xFC, 0x9F, 0x84, 0x4D, 0x73, 0xA3, 0xCA, 0x9A, 0x61,
        0x58, 0x97, 0xA3, 0x27, 0xFC, 0x03, 0x98, 0x76, 0x23, 0x1D, 0xC7, 0x61,
        0x03, 0x04, 0xAE, 0x56, 0xBF, 0x38, 0x84, 0x00, 0x40, 0xA7, 0x0E, 0xFD,
        0xFF, 0x52, 0xFE, 0x03, 0x6F, 0x95, 0x30, 0xF1, 0x97, 0xFB, 0xC0, 0x85,
        0x60, 0xD6, 0x80, 0x25, 0xA9, 0x63, 0xBE, 0x03, 0x01, 0x4E, 0x38, 0xE2,
        0xF9, 0xA2, 0x34, 0xFF, 0xBB, 0x3E, 0x03, 0x44, 0x78, 0x00, 0x90, 0xCB,
        0x88, 0x11, 0x3A, 0x94, 0x65, 0xC0, 0x7C, 0x63, 0x87, 0xF0, 0x3C, 0xAF,
        0xD6, 0x25, 0xE4, 0x8B, 0x38, 0x0A, 0xAC, 0x72, 0x21, 0xD4, 0xF8, 0x07,
    ]
}

/// The Nintendo logo, as bytes.
pub fn nintendo_logo_bytes() -> (r: Vec<u8>)
    ensures
        r@ == nintendo_logo(),
{
    let r: Vec<u8> = vec![
        0x24u8, 0xFF, 0xAE, 0x51, 0x69, 0x9A, 0xA2, 0x21, 0x3D, 0x84, 0x82, 0x0A,
        0x84, 0xE4, 0x09, 0xAD, 0x11, 0x24, 0x8B, 0x98, 0xC0, 0x81, 0x7F, 0x21,
        0xA3, 0x52, 0xBE, 0x19, 0x93, 0x09, 0xCE, 0x20, 0x10, 0x46, 0x4A, 0x4A,
        0xF8, 0x27, 0x31, 0xEC, 0x58, 0xC7, 0xE8, 0x33, 0x82, 0xE3, 0xCE, 0xBF,
        0x85, 0xF4, 0xDF, 0x94, 0xCE, 0x4B, 0x09, 0xC1, 0x94, 0x56, 0x8A, 0xC0,
        0x13, 0x72, 0xA7, 0xFC, 0x9F, 0x84, 0x4D, 0x73, 0xA3, 0xCA, 0x9A, 0x61,
        0x58, 0x97, 0xA3, 0x27, 0xFC, 0x03, 0x98, 0x76, 0x23, 0x1D, 0xC7, 0x61,
        0x03, 0x04, 0xAE, 0x56, 0xBF, 0x38, 0x84, 0x00, 0x40, 0xA7, 0x0E, 0xFD,
        0xFF, 0x52, 0xFE, 0x03, 0x6F, 0x95, 0x30, 0xF1, 0x97, 0xFB, 0xC0, 0x85,
        0x60, 0xD6, 0x80, 0x25, 0xA9, 0x63, 0xBE, 0x03, 0x01, 0x4E, 0x38, 0xE2,
        0xF9, 0xA2, 0x34, 0xFF, 0xBB, 0x3E, 0x03, 0x44, 0x78, 0x00, 0x90, 0xCB,
        0x88, 0x11, 0x3A, 0x94, 0x65, 0xC0, 0x7C, 0x63, 0x87, 0xF0, 0x3C, 0xAF,
        0xD6, 0x25, 0xE4, 0x8B, 0x38, 0x0A, 0xAC, 0x72, 0x21, 0xD4, 0xF8, 0x07,
    ];
    assert(r@ =~= nintendo_logo());
    r
}

/// `h` with `b` written over it from `off`.
#[verifier::opaque]
pub open spec fn set_bytes(h: Seq<u8>, off: int, b: Seq<u8>) -> Seq<u8> {
    h.subrange(0, off) + b + h.subrange(off + b.len(), h.len() as int)
}

/// Writes `data` over `out` from `pos`.
pub fn write_at(out: &mut Vec<u8>, pos: usize, data: &[u8])
    requires
        pos + data@.len() <= old(out)@.len(),
    ensures
        final(out)@ == set_bytes(old(out)@, pos as int, data@),
        final(out)@.len() == old(out)@.len(),
{
    proof {
        reveal(set_bytes);
    }
    let n = out.len();
    let mut i: usize = 0;
    while i < data.len()
        invariant
            i <= data@.len(),
            pos + data@.len() <= out@.len(),
            out@.len() == old(out)@.len(),
            out@.len() == n,
            forall|q: int| 0 <= q < out@.len() ==> #[trigger] out@[q] == if pos <= q < pos + i {
                data@[q - pos]
            } else {
                old(out)@[q]
            },
        decreases data@.len() - i,
    {
        out.set(pos + i, data[i]);
        i = i + 1;
    }
    assert(out@ =~= set_bytes(old(out)@, pos as int, data@));
}

/// Writes the little-endian bytes of `v` over `out` from `pos`.
pub fn write_u32_at(out: &mut Vec<u8>, pos: usize, v: u32)
    requires
        pos + 4 <= old(out)@.len(),
    ensures
        final(out)@ == set_bytes(old(out)@, pos as int, le_bytes_u32(v)),
        final(out)@.len() == old(out)@.len(),
{
    let mut b: Vec<u8> = Vec::new();
    push_u32_le(&mut b, v);
    assert(b@ =~= le_bytes_u32(v));
    write_at(out, pos, b.as_slice());
}

/// The allocation table: where each file starts and ends, four bytes each.
pub open spec fn fat_bytes(es: Seq<(u32, u32)>) -> Seq<u8>
    decreases es.len(),
{
    if es.len() == 0 {
        Seq::empty()
    } else {
        fat_bytes(es.drop_last()) + le_bytes_u32(es.last().0) + le_bytes_u32(es.last().1)
    }
}

proof fn lemma_fat_bytes_len(es: Seq<(u32, u32)>)
    ensures
        fat_bytes(es).len() == 8 * es.len(),
    decreases es.len(),
{
    if es.len() > 0 {
        lemma_fat_bytes_len(es.drop_last());
    }
}

/// The bytes of the allocation table.
pub fn fat_table(es: &Vec<(u32, u32)>) -> (r: Vec<u8>)
    ensures
        r@ == fat_bytes(es@),
        r@.len() == 8 * es@.len(),
{
    let mut r: Vec<u8> = Vec::new();
    let mut i: usize = 0;
    while i < es.len()
        invariant
            i <= es@.len(),
            r@ == fat_bytes(es@.take(i as int)),
        decreases es@.len() - i,
    {
        assert(es@.take(i + 1).drop_last() =~= es@.take(i as int));
        push_u32_le(&mut r, es[i].0);
        push_u32_le(&mut r, es[i].1);
        i = i + 1;
    }
    assert(es@.take(es@.len() as int) =~= es@);
    proof {
        lemma_fat_bytes_len(es@);
    }
    r
}

/// What a rom is written from: the header file, the ARM9 binary, its overlay
/// table and overlays, the ARM7 binary, its overlay table and overlays, the
/// file name table, the banner, and the files in the order of their ids.
pub struct NdsParts {
    pub header: Vec<u8>,
    pub arm9: Vec<u8>,
    pub arm9_overlay_table: Vec<u8>,
    pub arm9_overlays: Vec<Vec<u8>>,
    pub arm7: Vec<u8>,
    pub arm7_overlay_table: Vec<u8>,
    pub arm7_overlays: Vec<Vec<u8>>,
    pub name_table: Vec<u8>,
    pub banner: Vec<u8>,
    pub files: Vec<Vec<u8>>,
}

/// Why a rom cannot be written.
#[derive(Debug, Clone, Copy, PartialEq, Eq)]
pub enum NdsBuildError {
    /// The header file is shorter than the header.
    HeaderTooShort,
    /// The ARM9 binary is shorter than its footer.
    Arm9TooShort,
    /// The rom ends before the secure area.
    NoSecureArea,
    /// The secure area is decrypted, and encrypting it is not available.
    SecureAreaDecrypted,
}

/// The contents of a list of files.
pub open spec fn contents(fs: Seq<Vec<u8>>) -> Seq<Seq<u8>> {
    fs.map_values(|f: Vec<u8>| f@)
}

/// The bytes by which a decrypted secure area begins.
pub open spec fn decrypted_marker() -> Seq<u8> {
    seq![0xFFu8, 0xDE, 0xFF, 0xE7, 0xFF, 0xDE, 0xFF, 0xE7]
}

/// The size of the ARM9 binary without its footer, when it ends with one.
pub open spec fn arm9_size_spec(a: Seq<u8>) -> int {
    if u32_at(a, a.len() - 12) == 0xDEC0_0621 {
        a.len() - 12
    } else {
        a.len() as int
    }
}

/// The number of entries of the allocation table: the overlays, then the
/// files.
pub open spec fn fat_count(p: NdsParts) -> int {
    (p.arm9_overlays@.len() + p.arm7_overlays@.len() + p.files@.len()) as int
}

/// An upper bound on the size of the rom.
pub open spec fn nds_room(p: NdsParts) -> int {
    0x200 + p.arm9@.len() + 0x200 + p.arm9_overlay_table@.len() + files_room(contents(p.arm9_overlays@)) + 0x8200
        + p.arm7@.len() + 0x200 + p.arm7_overlay_table@.len() + files_room(contents(p.arm7_overlays@)) + 0x200
        + p.name_table@.len() + 0x200 + 8 * fat_count(p) + 0x200 + p.banner@.len() + files_room(contents(p.files@)) + 4
}

/// The rom up to the ARM9 binary: the header's room, then the binary.
pub open spec fn with_arm9(p: NdsParts) -> Seq<u8> {
    Seq::new(0x200, |_i: int| 0u8) + p.arm9@
}

/// Where the ARM9 overlay table goes.
pub open spec fn table9_offset(p: NdsParts) -> int {
    next_multiple(with_arm9(p).len() as int, 0x200)
}

/// The rom up to the ARM9 overlays, with their places.
#[verifier::opaque]
pub open spec fn with_overlays9(p: NdsParts) -> (Seq<u8>, Seq<(u32, u32)>) {
    files_put(fill_to(with_arm9(p), table9_offset(p), 0xFF) + p.arm9_overlay_table@, contents(p.arm9_overlays@))
}

/// Where the ARM7 binary goes: the next multiple of 0x200, at least 0x8000.
pub open spec fn arm7_offset(p: NdsParts) -> int {
    let a = next_multiple(with_overlays9(p).0.len() as int, 0x200);
    if a < 0x8000 {
        0x8000
    } else {
        a
    }
}

/// The rom up to the ARM7 binary.
#[verifier::opaque]
pub open spec fn with_arm7(p: NdsParts) -> Seq<u8> {
    fill_to(with_overlays9(p).0, arm7_offset(p), 0xFF) + p.arm7@
}

/// Where the ARM7 overlay table goes.
pub open spec fn table7_offset(p: NdsParts) -> int {
    next_multiple(with_arm7(p).len() as int, 0x200)
}

/// The rom up to the ARM7 overlays, with their places.
#[verifier::opaque]
pub open spec fn with_overlays7(p: NdsParts) -> (Seq<u8>, Seq<(u32, u32)>) {
    files_put(fill_to(with_arm7(p), table7_offset(p), 0xFF) + p.arm7_overlay_table@, contents(p.arm7_overlays@))
}

/// Where the file name table goes.
pub open spec fn fnt_offset(p: NdsParts) -> int {
    next_multiple(with_overlays7(p).0.len() as int, 0x200)
}

/// Where the allocation table goes.
pub open spec fn fat_offset(p: NdsParts) -> int {
    next_multiple(fnt_offset(p) + p.name_table@.len(), 0x200)
}

/// Where the banner goes.
pub open spec fn banner_offset(p: NdsParts) -> int {
    next_multiple(fat_offset(p) + 8 * fat_count(p), 0x200)
}

/// The rom up to the files, with their places: the name table after zero
/// bytes, the banner after `0xFF` bytes that leave room for the allocation
/// table.
#[verifier::opaque]
pub open spec fn with_files(p: NdsParts) -> (Seq<u8>, Seq<(u32, u32)>) {
    let t = fill_to(with_overlays7(p).0, fnt_offset(p), 0) + p.name_table@;
    files_put(fill_to(t, banner_offset(p), 0xFF) + p.banner@, contents(p.files@))
}

/// The rom with the allocation table written: the places of the ARM9
/// overlays, the ARM7 overlays and the files.
#[verifier::opaque]
pub open spec fn with_fat(p: NdsParts) -> Seq<u8> {
    set_bytes(
        with_files(p).0,
        fat_offset(p),
        fat_bytes(with_overlays9(p).1 + with_overlays7(p).1 + with_files(p).1),
    )
}

/// The header with its size, the logo, and the ARM9 binary's place,
/// addresses and size, and the ARM7 binary's place.
#[verifier::opaque]
pub open spec fn header_first(p: NdsParts) -> Seq<u8> {
    let h0 = p.header@.subrange(0, 0x180);
    let a9 = addresses_spec(u32_at(h0, 0x24), u32_at(h0, 0x28), 0x0200_0000);
    let h1 = set_bytes(set_bytes(h0, 0x84, le_bytes_u32(0x200)), 0xC0, nintendo_logo());
    let h2 = set_bytes(set_bytes(set_bytes(h1, 0x20, le_bytes_u32(0x200)), 0x24, le_bytes_u32(a9.0)), 0x28, le_bytes_u32(a9.1));
    set_bytes(set_bytes(h2, 0x2C, le_bytes_u32(next_multiple(arm9_size_spec(p.arm9@), 4) as u32)), 0x30, le_bytes_u32(arm7_offset(p) as u32))
}

/// Then the ARM7 binary's addresses and size, and the places and sizes of
/// the overlay tables (a place of zero for an empty table).
#[verifier::opaque]
pub open spec fn header_second(p: NdsParts) -> Seq<u8> {
    let h0 = p.header@.subrange(0, 0x180);
    let a7 = addresses_spec(u32_at(h0, 0x34), u32_at(h0, 0x38), 0x037F_8000);
    let t9 = if p.arm9_overlay_table@.len() == 0 { 0 } else { table9_offset(p) };
    let t7 = if p.arm7_overlay_table@.len() == 0 { 0 } else { table7_offset(p) };
    let h4 = set_bytes(set_bytes(set_bytes(header_first(p), 0x34, le_bytes_u32(a7.0)), 0x38, le_bytes_u32(a7.1)), 0x3C, le_bytes_u32(next_multiple(p.arm7@.len() as int, 4) as u32));
    let h5 = set_bytes(set_bytes(h4, 0x50, le_bytes_u32(t9 as u32)), 0x54, le_bytes_u32(p.arm9_overlay_table@.len() as u32));
    set_bytes(set_bytes(h5, 0x58, le_bytes_u32(t7 as u32)), 0x5C, le_bytes_u32(p.arm7_overlay_table@.len() as u32))
}

/// The header as written: then the places and sizes of the name and
/// allocation tables, the banner's place, the end of the application and the
/// device capacity.
#[verifier::opaque]
pub open spec fn header_spec(p: NdsParts) -> Seq<u8> {
    let sf = size_fields_spec(with_fat(p).len() as u32);
    let h7 = set_bytes(set_bytes(header_second(p), 0x40, le_bytes_u32(fnt_offset(p) as u32)), 0x44, le_bytes_u32(p.name_table@.len() as u32));
    let h8 = set_bytes(set_bytes(h7, 0x48, le_bytes_u32(fat_offset(p) as u32)), 0x4C, le_bytes_u32((8 * fat_count(p)) as u32));
    let h9 = set_bytes(set_bytes(h8, 0x68, le_bytes_u32(banner_offset(p) as u32)), 0x80, le_bytes_u32(sf.0));
    set_bytes(h9, 0x14, seq![sf.1])
}

/// What writing a rom from `p` gives: the parts where the layout puts them,
/// zeros up to a multiple of four bytes, and the header at the start.
pub open spec fn nds_rom_spec(p: NdsParts) -> Result<Seq<u8>, NdsBuildError> {
    if p.header@.len() < 0x180 {
        Err(NdsBuildError::HeaderTooShort)
    } else if p.arm9@.len() < 12 {
        Err(NdsBuildError::Arm9TooShort)
    } else if with_arm9(p).len() < 0x4008 {
        Err(NdsBuildError::NoSecureArea)
    } else if with_arm9(p).subrange(0x4000, 0x4008) == decrypted_marker() {
        Err(NdsBuildError::SecureAreaDecrypted)
    } else {
        let end = size_fields_spec(with_fat(p).len() as u32).0;
        Ok(set_bytes(fill_to(with_fat(p), end as int, 0), 0, header_spec(p)))
    }
}

proof fn lemma_nds_room(p: NdsParts)
    ensures
        files_room(contents(p.arm9_overlays@)) >= 0,
        files_room(contents(p.arm7_overlays@)) >= 0,
        files_room(contents(p.files@)) >= 0,
        fat_count(p) >= 0,
{
    lemma_room_nonneg(contents(p.arm9_overlays@));
    lemma_room_nonneg(contents(p.arm7_overlays@));
    lemma_room_nonneg(contents(p.files@));
}

/// Whether the ARM9 binary's secure area, at 0x4000 of the rom, is
/// decrypted.
fn secure_area_decrypted(d: &Vec<u8>) -> (r: bool)
    requires
        d@.len() >= 0x4008,
    ensures
        r == (d@.subrange(0x4000, 0x4008) == decrypted_marker()),
{
    let r = d[0x4000] == 0xFF && d[0x4001] == 0xDE && d[0x4002] == 0xFF && d[0x4003] == 0xE7 && d[0x4004] == 0xFF
        && d[0x4005] == 0xDE && d[0x4006] == 0xFF && d[0x4007] == 0xE7;
    proof {
        if r {
            assert(d@.subrange(0x4000, 0x4008) =~= decrypted_marker());
        } else {
            if d@.subrange(0x4000, 0x4008) == decrypted_marker() {
                assert(d@.subrange(0x4000, 0x4008)[0] == d@[0x4000]);
                assert(d@.subrange(0x4000, 0x4008)[1] == d@[0x4001]);
                assert(d@.subrange(0x4000, 0x4008)[2] == d@[0x4002]);
                assert(d@.subrange(0x4000, 0x4008)[3] == d@[0x4003]);
                assert(d@.subrange(0x4000, 0x4008)[4] == d@[0x4004]);
                assert(d@.subrange(0x4000, 0x4008)[5] == d@[0x4005]);
                assert(d@.subrange(0x4000, 0x4008)[6] == d@[0x4006]);
                assert(d@.subrange(0x4000, 0x4008)[7] == d@[0x4007]);
            }
        }
    }
    r
}

/// Writes the ARM9 overlay table and overlays, then the ARM7 binary with its
/// overlay table and overlays.
#[verifier::rlimit(50)]
fn write_binaries(p: &NdsParts, out: &mut Vec<u8>) -> (r: (u32, u32, u32, Vec<(u32, u32)>, Vec<(u32, u32)>))
    requires
        nds_room(*p) <= 0x7FFF_FFFC,
        old(out)@ == with_arm9(*p),
    ensures
        (final(out)@, r.4@) == with_overlays7(*p),
        r.3@ == with_overlays9(*p).1,
        r.3@.len() == p.arm9_overlays@.len(),
        r.4@.len() == p.arm7_overlays@.len(),
        r.0 == table9_offset(*p),
        r.1 == arm7_offset(*p),
        r.2 == table7_offset(*p),
        final(out)@.len() >= old(out)@.len(),
        final(out)@.len() <= 0x200 + p.arm9@.len() + 0x200 + p.arm9_overlay_table@.len() + files_room(
            contents(p.arm9_overlays@),
        ) + 0x8200 + p.arm7@.len() + 0x200 + p.arm7_overlay_table@.len() + files_room(contents(p.arm7_overlays@)),
{
    proof {
        lemma_nds_room(*p);
        lemma_next_multiple_bound(out@.len() as int, 0x200);
    }
    let t9 = pad_to_alignment(out, 0x200, 0xFF);
    extend_bytes(out, p.arm9_overlay_table.as_slice());
    let fat9 = add_files(out, &p.arm9_overlays);
    proof {
        reveal(with_overlays9);
        lemma_files_put_len(fill_to(with_arm9(*p), table9_offset(*p), 0xFF) + p.arm9_overlay_table@, contents(p.arm9_overlays@));
        lemma_files_put_grows(fill_to(with_arm9(*p), table9_offset(*p), 0xFF) + p.arm9_overlay_table@, contents(p.arm9_overlays@));
    }
    assert((out@, fat9@) == with_overlays9(*p));
    proof {
        lemma_next_multiple_bound(out@.len() as int, 0x200);
    }
    let a = next_multiple_usize(out.len(), 0x200).unwrap();
    let a7 = if a < 0x8000 { 0x8000 } else { a };
    pad_to_position(out, a7, 0xFF);
    extend_bytes(out, p.arm7.as_slice());
    assert(out@ == with_arm7(*p)) by {
        reveal(with_arm7);
    }
    proof {
        lemma_next_multiple_bound(out@.len() as int, 0x200);
    }
    let t7 = pad_to_alignment(out, 0x200, 0xFF);
    extend_bytes(out, p.arm7_overlay_table.as_slice());
    let fat7 = add_files(out, &p.arm7_overlays);
    proof {
        reveal(with_overlays7);
        lemma_files_put_len(fill_to(with_arm7(*p), table7_offset(*p), 0xFF) + p.arm7_overlay_table@, contents(p.arm7_overlays@));
        lemma_files_put_grows(fill_to(with_arm7(*p), table7_offset(*p), 0xFF) + p.arm7_overlay_table@, contents(p.arm7_overlays@));
    }
    (t9 as u32, a7 as u32, t7 as u32, fat9, fat7)
}

/// Writes the rest after the ARM7 overlays: the name table, the banner, the
/// files and the allocation table.
#[verifier::rlimit(50)]
fn write_tables(p: &NdsParts, out: &mut Vec<u8>, fat9: Vec<(u32, u32)>, fat7: Vec<(u32, u32)>) -> (r: (u32, u32, u32))
    requires
        nds_room(*p) <= 0x7FFF_FFFC,
        (old(out)@, fat7@) == with_overlays7(*p),
        fat9@ == with_overlays9(*p).1,
        fat9@.len() == p.arm9_overlays@.len(),
        fat7@.len() == p.arm7_overlays@.len(),
        old(out)@.len() <= 0x200 + p.arm9@.len() + 0x200 + p.arm9_overlay_table@.len() + files_room(
            contents(p.arm9_overlays@),
        ) + 0x8200 + p.arm7@.len() + 0x200 + p.arm7_overlay_table@.len() + files_room(contents(p.arm7_overlays@)),
    ensures
        final(out)@ == with_fat(*p),
        final(out)@.len() <= nds_room(*p) - 4,
        final(out)@.len() >= old(out)@.len(),
        r.0 == fnt_offset(*p),
        r.1 == fat_offset(*p),
        r.2 == banner_offset(*p),
{
    proof {
        lemma_nds_room(*p);
        lemma_next_multiple_bound(out@.len() as int, 0x200);
    }
    let fnt_off = pad_to_alignment(out, 0x200, 0);
    extend_bytes(out, p.name_table.as_slice());
    let count = fat9.len() + fat7.len() + p.files.len();
    proof {
        lemma_next_multiple_bound(out@.len() as int, 0x200);
    }
    let fat_off = next_multiple_usize(out.len(), 0x200).unwrap();
    proof {
        lemma_next_multiple_bound(fat_off + 8 * count, 0x200);
    }
    let banner_off = next_multiple_usize(fat_off + 8 * count, 0x200).unwrap();
    assert(fnt_off == fnt_offset(*p));
    assert(fat_off == fat_offset(*p));
    assert(banner_off == banner_offset(*p));
    pad_to_position(out, banner_off, 0xFF);
    extend_bytes(out, p.banner.as_slice());
    let fatf = add_files(out, &p.files);
    proof {
        reveal(with_files);
        let t = fill_to(with_overlays7(*p).0, fnt_offset(*p), 0) + p.name_table@;
        lemma_files_put_len(fill_to(t, banner_offset(*p), 0xFF) + p.banner@, contents(p.files@));
        lemma_files_put_grows(fill_to(t, banner_offset(*p), 0xFF) + p.banner@, contents(p.files@));
    }
    assert((out@, fatf@) == with_files(*p));
    let mut all: Vec<(u32, u32)> = Vec::new();
    let mut f9 = fat9;
    let mut f7 = fat7;
    let mut ff = fatf;
    let ghost e9 = f9@;
    let ghost e7 = f7@;
    let ghost ef = ff@;
    all.append(&mut f9);
    all.append(&mut f7);
    all.append(&mut ff);
    assert(all@ =~= e9 + e7 + ef);
    let fb = fat_table(&all);
    write_at(out, fat_off, fb.as_slice());
    assert(out@ == with_fat(*p)) by {
        reveal(with_fat);
    }
    (fnt_off as u32, fat_off as u32, banner_off as u32)
}

/// The first fields of the header, as `header_first` gives them.
fn write_header_first(p: &NdsParts, places: (u32, u32, u32, u32, u32, u32)) -> (r: Vec<u8>)
    requires
        p.header@.len() >= 0x180,
        p.arm9@.len() >= 12,
        nds_room(*p) <= 0x7FFF_FFFC,
        places.0 == table9_offset(*p),
        places.1 == arm7_offset(*p),
        places.2 == table7_offset(*p),
        places.3 == fnt_offset(*p),
        places.4 == fat_offset(*p),
        places.5 == banner_offset(*p),
    ensures
        r@ == header_first(*p),
        r@.len() == 0x180,
{
    proof {
        lemma_nds_room(*p);
        reveal(header_first);
    }
    let (_t9, a7, _t7, _fnt_off, _fat_off, _banner_off) = places;
    let mut h: Vec<u8> = vstd::slice::slice_to_vec(vstd::slice::slice_subrange(p.header.as_slice(), 0, 0x180));
    let (e9, r9) = arm9_addresses(read_u32_le(h.as_slice(), 0x24).unwrap(), read_u32_le(h.as_slice(), 0x28).unwrap());
    let footer = read_u32_le(p.arm9.as_slice(), p.arm9.len() - 12).unwrap();
    let arm9_size: usize = if footer == 0xDEC0_0621 { p.arm9.len() - 12 } else { p.arm9.len() };
    proof {
        lemma_next_multiple_bound(arm9_size as int, 4);
    }
    let arm9_rounded = next_multiple_usize(arm9_size, 4).unwrap();
    write_u32_at(&mut h, 0x84, 0x200);
    let logo = nintendo_logo_bytes();
    write_at(&mut h, 0xC0, logo.as_slice());
    write_u32_at(&mut h, 0x20, 0x200);
    write_u32_at(&mut h, 0x24, e9);
    write_u32_at(&mut h, 0x28, r9);
    write_u32_at(&mut h, 0x2C, arm9_rounded as u32);
    write_u32_at(&mut h, 0x30, a7);
    h
}

/// The next fields of the header, as `header_second` gives them.
fn write_header_second(p: &NdsParts, places: (u32, u32, u32, u32, u32, u32), h: &mut Vec<u8>)
    requires
        p.header@.len() >= 0x180,
        p.arm9@.len() >= 12,
        nds_room(*p) <= 0x7FFF_FFFC,
        places.0 == table9_offset(*p),
        places.1 == arm7_offset(*p),
        places.2 == table7_offset(*p),
        places.3 == fnt_offset(*p),
        places.4 == fat_offset(*p),
        places.5 == banner_offset(*p),
        old(h)@ == header_first(*p),
        old(h)@.len() == 0x180,
    ensures
        final(h)@ == header_second(*p),
        final(h)@.len() == 0x180,
{
    proof {
        lemma_nds_room(*p);
        reveal(header_second);
    }
    let (t9, _a7, t7, _fnt_off, _fat_off, _banner_off) = places;
    let (e7, r7) = arm7_addresses(read_u32_le(p.header.as_slice(), 0x34).unwrap(), read_u32_le(p.header.as_slice(), 0x38).unwrap());
    proof {
        let h0 = p.header@.subrange(0, 0x180);
        assert(u32_at(h0, 0x34) == u32_at(p.header@, 0x34));
        assert(u32_at(h0, 0x38) == u32_at(p.header@, 0x38));
        lemma_next_multiple_bound(p.arm7@.len() as int, 4);
    }
    let arm7_rounded = next_multiple_usize(p.arm7.len(), 4).unwrap();
    let t9v: u32 = if p.arm9_overlay_table.len() == 0 { 0 } else { t9 };
    let t7v: u32 = if p.arm7_overlay_table.len() == 0 { 0 } else { t7 };
    write_u32_at(h, 0x34, e7);
    write_u32_at(h, 0x38, r7);
    write_u32_at(h, 0x3C, arm7_rounded as u32);
    write_u32_at(h, 0x50, t9v);
    write_u32_at(h, 0x54, p.arm9_overlay_table.len() as u32);
    write_u32_at(h, 0x58, t7v);
    write_u32_at(h, 0x5C, p.arm7_overlay_table.len() as u32);
}

/// The header as `header_spec` gives it, from the places that the layout
/// gives the parts and the size fields of the rom.
fn write_header(p: &NdsParts, places: (u32, u32, u32, u32, u32, u32), sf: (u32, u8)) -> (r: Vec<u8>)
    requires
        p.header@.len() >= 0x180,
        p.arm9@.len() >= 12,
        nds_room(*p) <= 0x7FFF_FFFC,
        places.0 == table9_offset(*p),
        places.1 == arm7_offset(*p),
        places.2 == table7_offset(*p),
        places.3 == fnt_offset(*p),
        places.4 == fat_offset(*p),
        places.5 == banner_offset(*p),
        sf == size_fields_spec(with_fat(*p).len() as u32),
    ensures
        r@ == header_spec(*p),
        r@.len() == 0x180,
{
    proof {
        lemma_nds_room(*p);
        reveal(header_spec);
    }
    let mut h = write_header_first(p, places);
    write_header_second(p, places, &mut h);
    let (_t9, _a7, _t7, fnt_off, fat_off, banner_off) = places;
    let count = p.arm9_overlays.len() + p.arm7_overlays.len() + p.files.len();
    write_u32_at(&mut h, 0x40, fnt_off);
    write_u32_at(&mut h, 0x44, p.name_table.len() as u32);
    write_u32_at(&mut h, 0x48, fat_off);
    write_u32_at(&mut h, 0x4C, (8 * count) as u32);
    write_u32_at(&mut h, 0x68, banner_off);
    write_u32_at(&mut h, 0x80, sf.0);
    let cap: Vec<u8> = vec![sf.1];
    write_at(&mut h, 0x14, cap.as_slice());
    proof {
        assert(cap@ =~= seq![sf.1]);
    }
    h
}

/// Writes a rom from its parts; see `nds_rom_spec`.
pub fn write_nds_rom(p: &NdsParts) -> (r: Result<Vec<u8>, NdsBuildError>)
    requires
        nds_room(*p) <= 0x7FFF_FFFC,
    ensures
        match r {
            Ok(v) => nds_rom_spec(*p) == Ok::<Seq<u8>, NdsBuildError>(v@),
            Err(e) => nds_rom_spec(*p) == Err::<Seq<u8>, NdsBuildError>(e),
        },
{
    if p.header.len() < 0x180 {
        return Err(NdsBuildError::HeaderTooShort);
    }
    if p.arm9.len() < 12 {
        return Err(NdsBuildError::Arm9TooShort);
    }
    proof {
        lemma_nds_room(*p);
    }
    let mut out: Vec<u8> = Vec::new();
    push_repeat(&mut out, 0u8, 0x200);
    extend_bytes(&mut out, p.arm9.as_slice());
    assert(out@ =~= with_arm9(*p));
    if out.len() < 0x4008 {
        return Err(NdsBuildError::NoSecureArea);
    }
    if secure_area_decrypted(&out) {
        return Err(NdsBuildError::SecureAreaDecrypted);
    }
    let (t9, a7, t7, fat9, fat7) = write_binaries(p, &mut out);
    let (fnt_off, fat_off, banner_off) = write_tables(p, &mut out, fat9, fat7);
    let places = (t9, a7, t7, fnt_off, fat_off, banner_off);
    proof {
        lemma_next_multiple_bound(out@.len() as int, 4);
    }
    let sf = size_fields(out.len() as u32);
    let h = write_header(p, places, sf);
    pad_to_position(&mut out, sf.0 as usize, 0);
    write_at(&mut out, 0, h.as_slice());
    Ok(out)
}

/// The path of `name` below the directory at `prefix`, its parts joined by
/// `/`.
pub open spec fn joined(prefix: Option<Seq<char>>, name: Seq<char>) -> Seq<char> {
    match prefix {
        None => name,
        Some(p) => p + seq!['/'] + name,
    }
}

/// The paths of the files below the directory with children `cs` at
/// `prefix`, in the order of their ids: its own files, then those of each of
/// its directories in turn.
pub open spec fn file_paths(cs: Seq<SourceTreeNode>, prefix: Option<Seq<char>>) -> Seq<Seq<char>>
    decreases cs, 1int,
{
    own_file_paths(cs, prefix) + dir_file_paths(cs, prefix)
}

/// The paths of the files among `cs`.
pub open spec fn own_file_paths(cs: Seq<SourceTreeNode>, prefix: Option<Seq<char>>) -> Seq<Seq<char>>
    decreases cs.len(),
{
    if cs.len() == 0 {
        Seq::empty()
    } else {
        own_file_paths(cs.drop_last(), prefix) + if cs.last().children is None {
            seq![joined(prefix, cs.last().name@)]
        } else {
            Seq::empty()
        }
    }
}

/// The paths of the files below the directories among `cs`.
pub open spec fn dir_file_paths(cs: Seq<SourceTreeNode>, prefix: Option<Seq<char>>) -> Seq<Seq<char>>
    decreases cs, 0int,
{
    if cs.len() == 0 {
        Seq::empty()
    } else {
        dir_file_paths(cs.drop_last(), prefix) + match cs.last().children {
            Some(sub) => file_paths(sub@, Some(joined(prefix, cs.last().name@))),
            None => Seq::empty(),
        }
    }
}

fn joined_path(prefix: &Option<Vec<char>>, name: &str) -> (r: Vec<char>)
    ensures
        r@ == joined(
            match prefix {
                Some(p) => Some(p@),
                None => None,
            },
            name@,
        ),
{
    let n = chars_of(name);
    match prefix {
        None => n,
        Some(p) => {
            let mut r = p.clone();
            r.push('/');
            let ghost before = r@;
            let mut m = n;
            r.append(&mut m);
            assert(r@ =~= p@ + seq!['/'] + name@);
            r
        },
    }
}

/// Adds the paths of the files below the directory with children `cs` at
/// `prefix` to `out`.
fn push_file_paths(cs: &Vec<SourceTreeNode>, prefix: &Option<Vec<char>>, out: &mut Vec<String>)
    ensures
        final(out)@.map_values(|s: String| s@) == old(out)@.map_values(|s: String| s@) + file_paths(
            cs@,
            match prefix {
                Some(p) => Some(p@),
                None => None,
            },
        ),
    decreases cs@, 1int,
{
    let ghost pre = match prefix {
        Some(p) => Some(p@),
        None => None,
    };
    let ghost start = out@.map_values(|s: String| s@);
    let mut i: usize = 0;
    while i < cs.len()
        invariant
            i <= cs@.len(),
            out@.map_values(|s: String| s@) == start + own_file_paths(cs@.take(i as int), pre),
            pre == match prefix {
                Some(p) => Some(p@),
                None => None,
            },
        decreases cs@.len() - i,
    {
        assert(cs@.take(i + 1).drop_last() =~= cs@.take(i as int));
        let ghost before = out@.map_values(|s: String| s@);
        if cs[i].children.is_none() {
            let path = joined_path(prefix, cs[i].name.as_str());
            out.push(string_of(path.as_slice()));
            assert(out@.map_values(|s: String| s@) =~= before.push(path@));
        }
        i = i + 1;
        assert(out@.map_values(|s: String| s@) =~= start + own_file_paths(cs@.take(i as int), pre));
    }
    assert(cs@.take(cs@.len() as int) =~= cs@);
    let ghost mid = out@.map_values(|s: String| s@);
    let mut j: usize = 0;
    while j < cs.len()
        invariant
            j <= cs@.len(),
            out@.map_values(|s: String| s@) == mid + dir_file_paths(cs@.take(j as int), pre),
            mid == start + own_file_paths(cs@, pre),
            pre == match prefix {
                Some(p) => Some(p@),
                None => None,
            },
        decreases cs@.len() - j,
    {
        assert(cs@.take(j + 1).drop_last() =~= cs@.take(j as int));
        let ghost before = out@.map_values(|s: String| s@);
        match &cs[j].children {
            Some(sub) => {
                proof {
                    assert(decreases_to!(cs@ => cs@[j as int]));
                    assert(decreases_to!(cs@[j as int] => cs@[j as int].children));
                    let v = cs@[j as int].children->0;
                    assert(decreases_to!(cs@[j as int].children => v));
                    assert(decreases_to!(v => v@));
                }
                let sub_prefix = Some(joined_path(prefix, cs[j].name.as_str()));
                push_file_paths(sub, &sub_prefix, out);
            },
            None => {},
        }
        j = j + 1;
        assert(out@.map_values(|s: String| s@) =~= mid + dir_file_paths(cs@.take(j as int), pre));
    }
    assert(cs@.take(cs@.len() as int) =~= cs@);
}

/// The paths of the files of a rom's file system, from its root directory, in
/// the order of their ids; `None` for a file.
pub fn data_file_paths(root: &SourceTreeNode) -> (r: Option<Vec<String>>)
    ensures
        match root.children {
            Some(cs) => r matches Some(v) && v@.map_values(|s: String| s@) == file_paths(cs@, None),
            None => r is None,
        },
{
    match &root.children {
        Some(cs) => {
            let mut out: Vec<String> = Vec::new();
            assert(out@.map_values(|s: String| s@) =~= Seq::<Seq<char>>::empty());
            push_file_paths(cs, &None, &mut out);
            assert(out@.map_values(|s: String| s@) =~= file_paths(cs@, None));
            Some(out)
        },
        None => None,
    }
}

/// The room that writing `files` may take, when it is at most `limit`.
fn room_of(files: &Vec<Vec<u8>>, limit: u64) -> (r: Option<u64>)
    requires
        limit <= 0xFFFF_FFFF,
    ensures
        match r {
            Some(x) => x == files_room(contents(files@)) && x <= limit,
            None => files_room(contents(files@)) > limit,
        },
{
    let ghost fs = contents(files@);
    let mut total: u64 = 0;
    let mut i: usize = 0;
    while i < files.len()
        invariant
            i <= files@.len(),
            fs == contents(files@),
            total == files_room(fs.take(i as int)),
            total <= limit,
            limit <= 0xFFFF_FFFF,
        decreases files@.len() - i,
    {
        proof {
            assert(fs.take(i + 1).drop_last() =~= fs.take(i as int));
            assert(fs[i as int] == files@[i as int]@);
            lemma_room_prefix(fs, i + 1);
        }
        let n = files[i].len() as u64;
        if n > limit {
            proof {
                lemma_room_prefix(fs, i + 1);
            }
            return None;
        }
        if 0x200 + n > limit - total {
            proof {
                lemma_room_prefix(fs, i + 1);
            }
            return None;
        }
        total = total + 0x200 + n;
        i = i + 1;
    }
    assert(fs.take(files@.len() as int) =~= fs);
    Some(total)
}

/// Whether a rom can be written from `p`: whether its size stays below 2 GiB.
pub fn nds_fits(p: &NdsParts) -> (r: bool)
    ensures
        r == (nds_room(*p) <= 0x7FFF_FFFC),
{
    proof {
        lemma_nds_room(*p);
    }
    let limit: u64 = 0x7FFF_FFFC;
    let r9 = match room_of(&p.arm9_overlays, limit) {
        Some(x) => x,
        None => return false,
    };
    let r7 = match room_of(&p.arm7_overlays, limit) {
        Some(x) => x,
        None => return false,
    };
    let rf = match room_of(&p.files, limit) {
        Some(x) => x,
        None => return false,
    };
    let lens: [u64; 6] = [
        p.arm9.len() as u64,
        p.arm9_overlay_table.len() as u64,
        p.arm7.len() as u64,
        p.arm7_overlay_table.len() as u64,
        p.name_table.len() as u64,
        p.banner.len() as u64,
    ];
    if lens[0] > limit || lens[1] > limit || lens[2] > limit || lens[3] > limit || lens[4] > limit || lens[5] > limit {
        return false;
    }
    proof {
        lemma_room_count(contents(p.arm9_overlays@));
        lemma_room_count(contents(p.arm7_overlays@));
        lemma_room_count(contents(p.files@));
        assert(contents(p.arm9_overlays@).len() == p.arm9_overlays@.len());
        assert(contents(p.arm7_overlays@).len() == p.arm7_overlays@.len());
        assert(contents(p.files@).len() == p.files@.len());
        assert(p.arm9_overlays@.len() <= 0x40_0000);
        assert(p.arm7_overlays@.len() <= 0x40_0000);
        assert(p.files@.len() <= 0x40_0000);
    }
    let count = p.arm9_overlays.len() as u64 + p.arm7_overlays.len() as u64 + p.files.len() as u64;
    let total: u64 = 0x200 + lens[0] + 0x200 + lens[1] + r9 + 0x8200 + lens[2] + 0x200 + lens[3] + r7 + 0x200 + lens[4]
        + 0x200 + 8 * count + 0x200 + lens[5] + rf + 4;
    total <= limit
}

proof fn lemma_room_count(fs: Seq<Seq<u8>>)
    ensures
        files_room(fs) >= 0x200 * fs.len(),
    decreases fs.len(),
{
    if fs.len() > 0 {
        lemma_room_count(fs.drop_last());
    }
}

} // verus!
