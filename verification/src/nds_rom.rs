//! Reading the layout of a DS rom: its header, the positions of its files, the
//! overlays, and the DSi part of the header with the keys of its encrypted
//! binaries.
use vstd::prelude::*;
use crate::bytes::{u16_at, u32_at, read_u16_le, read_u32_le};
use crate::nds_tree::{RomTreeNode, OverlayEntry, find_spec};
use crate::blz::{blz_decode, blz_extend_size};
use crate::modcrypt::ctr_spec;
use vstd::utf8::{valid_utf8, decode_utf8};

verus! {

/// Why a rom cannot be read.
#[derive(Debug, Clone, Copy, PartialEq, Eq)]
pub enum NdsError {
    /// The rom ends before a structure that it points to does.
    UnexpectedEof,
    /// A file of the allocation table is larger than the rom can be.
    FatSize { file_id: u32 },
    /// A name of the name table is not UTF-8.
    NameUtf8,
}

/// The 0x180-byte header of a DS rom, held as its bytes.
pub struct DsHeader {
    pub raw: Vec<u8>,
}

/// The DSi part of the header (0xE80 bytes after the DS header), held as its
/// bytes.
pub struct DsiExtraFields {
    pub raw: Vec<u8>,
}

/// The `u128` whose 16 little-endian bytes start at `pos` of `s`.
pub open spec fn u128_at(s: Seq<u8>, pos: int) -> u128 {
    (u32_at(s, pos) as int + u32_at(s, pos + 4) as int * 0x1_0000_0000 + u32_at(s, pos + 8) as int
        * 0x1_0000_0000_0000_0000int + u32_at(s, pos + 12) as int * 0x1_0000_0000_0000_0000_0000_0000int) as u128
}

fn read_u128_le(d: &[u8], pos: usize) -> (r: u128)
    requires
        pos + 16 <= d.len(),
    ensures
        r == u128_at(d@, pos as int),
{
    let a = read_u32_le(d, pos).unwrap();
    let b = read_u32_le(d, pos + 4).unwrap();
    let c = read_u32_le(d, pos + 8).unwrap();
    let e = read_u32_le(d, pos + 12).unwrap();
    let v: u128 = (a as u128) | ((b as u128) << 32u128) | ((c as u128) << 64u128) | ((e as u128) << 96u128);
    assert(v == (a as int + b as int * 0x1_0000_0000 + c as int * 0x1_0000_0000_0000_0000int + e as int
        * 0x1_0000_0000_0000_0000_0000_0000int) as u128) by (bit_vector)
        requires
            v == (a as u128) | ((b as u128) << 32u128) | ((c as u128) << 64u128) | ((e as u128) << 96u128),
    ;
    v
}

/// "Nintendo" as a little-endian number.
pub open spec fn nintendo_le() -> u128 {
    0x6F646E65746E694Eu128
}

/// The keys of a DSi rom's encrypted binaries: the key (from the game code,
/// "Nintendo" and the ARM9i digest), and the counters of the ARM9i and ARM7i
/// areas (from the ARM9 and ARM7 digests).
pub open spec fn key_ivs_spec(gamecode: Seq<u8>, dsi: Seq<u8>) -> (u128, u128, u128) {
    let le = u32_at(gamecode, 0);
    let be = ((gamecode[0] as int) * 0x100_0000 + (gamecode[1] as int) * 0x1_0000 + (gamecode[2] as int)
        * 0x100 + gamecode[3] as int) as u32;
    let key_x: u128 = nintendo_le() | ((le as u128) << 64u128) | ((be as u128) << 96u128);
    let key_y = u128_at(dsi, 0x1D0);
    let sum = (((key_x ^ key_y) as int + 0xFFFEFB4E295902582A680F5F1A4F3E79int) % 0x1_0000_0000_0000_0000_0000_0000_0000_0000int) as u128;
    let key = (sum << 42u128) | (sum >> 86u128);
    (key, u128_at(dsi, 0x180), u128_at(dsi, 0x194))
}

impl DsHeader {
    /// The header holds its 0x180 bytes.
    pub open spec fn wf(&self) -> bool {
        self.raw@.len() == 0x180
    }

    /// The `u32` field at `off`.
    pub fn field_u32(&self, off: usize) -> (r: u32)
        requires
            self.wf(),
            off + 4 <= 0x180,
        ensures
            r == u32_at(self.raw@, off as int),
    {
        read_u32_le(self.raw.as_slice(), off).unwrap()
    }

    /// The `u16` field at `off`.
    pub fn field_u16(&self, off: usize) -> (r: u16)
        requires
            self.wf(),
            off + 2 <= 0x180,
        ensures
            r == u16_at(self.raw@, off as int),
    {
        read_u16_le(self.raw.as_slice(), off).unwrap()
    }

    /// The byte field at `off`.
    pub fn field_u8(&self, off: usize) -> (r: u8)
        requires
            self.wf(),
            off < 0x180,
        ensures
            r == self.raw@[off as int],
    {
        self.raw[off]
    }
}

impl DsiExtraFields {
    /// The DSi fields hold their 0xE80 bytes.
    pub open spec fn wf(&self) -> bool {
        self.raw@.len() == 0xE80
    }
}

/// The keys of a DSi rom's encrypted binaries.
pub fn get_key_ivs(header: &DsHeader, dsi_header: &DsiExtraFields) -> (r: (u128, u128, u128))
    requires
        header.wf(),
        dsi_header.wf(),
    ensures
        r == key_ivs_spec(header.raw@.subrange(0xC, 0x10), dsi_header.raw@),
{
    let g = vstd::slice::slice_subrange(header.raw.as_slice(), 0xC, 0x10);
    let le = read_u32_le(g, 0).unwrap();
    let be: u32 = (g[0] as u32) * 0x100_0000 + (g[1] as u32) * 0x1_0000 + (g[2] as u32) * 0x100 + g[3] as u32;
    let key_x: u128 = 0x6F646E65746E694Eu128 | ((le as u128) << 64u128) | ((be as u128) << 96u128);
    let key_y = read_u128_le(dsi_header.raw.as_slice(), 0x1D0);
    let sum = (key_x ^ key_y).wrapping_add(0xFFFEFB4E295902582A680F5F1A4F3E79u128);
    let key = (sum << 42u128) | (sum >> 86u128);
    let iv1 = read_u128_le(dsi_header.raw.as_slice(), 0x180);
    let iv2 = read_u128_le(dsi_header.raw.as_slice(), 0x194);
    (key, iv1, iv2)
}


/// The outcome of reading part of a rom: the value, a refusal, or an input on
/// which reading cannot go on (an index or an arithmetic overflow, or a
/// name table whose directories refer to each other without end).
pub enum RomOut<V> {
    Done(V),
    Refused(NdsError),
    Fault,
}

/// Whether the word after the binary at `pos` of `size` bytes is the
/// footer's magic `0xDEC00621`.
pub open spec fn footer_spec(d: Seq<u8>, pos: u32, size: u32) -> RomOut<bool> {
    let p = pos as int + size as int;
    if p > u32::MAX {
        RomOut::Fault
    } else if p + 4 > d.len() {
        RomOut::Refused(NdsError::UnexpectedEof)
    } else {
        RomOut::Done(u32_at(d, p) == 0xDEC00621)
    }
}

/// Whether the binary at `pos` of `size` bytes is followed by a footer.
pub fn has_footer(d: &[u8], pos: u32, size: u32) -> (r: Result<bool, NdsError>)
    requires
        !(footer_spec(d@, pos, size) is Fault),
    ensures
        match r {
            Ok(b) => footer_spec(d@, pos, size) == RomOut::Done(b),
            Err(e) => footer_spec(d@, pos, size) == RomOut::<bool>::Refused(e),
        },
{
    let p = pos + size;
    match read_u32_le(d, p as usize) {
        Some(x) => Ok(x == 0xDEC00621),
        None => Err(NdsError::UnexpectedEof),
    }
}

/// The number of 8-byte steps of a table of `size` bytes, a partial last
/// step counted.
pub open spec fn steps(size: int, step: int) -> int {
    (size + step - 1) / step
}

/// Reading the file allocation table at `off`, from its `i`-th entry on: each
/// entry is the top and bottom of a file, kept as (position, size); a size
/// above 2^(17 + devicecap) is refused.
pub open spec fn fat_from(d: Seq<u8>, off: int, n: int, cap: u8, i: int) -> RomOut<Seq<(u32, u32)>>
    decreases (if i < n {
        n - i
    } else {
        0
    }),
{
    if i >= n {
        RomOut::Done(Seq::empty())
    } else if off + 8 * i + 8 > d.len() {
        RomOut::Refused(NdsError::UnexpectedEof)
    } else {
        let top = u32_at(d, off + 8 * i);
        let bottom = u32_at(d, off + 8 * i + 4);
        if bottom < top || 17 + cap >= 32 {
            RomOut::Fault
        } else if bottom - top > pow2_u32((17 + cap) as nat) {
            RomOut::Refused(NdsError::FatSize { file_id: (8 * i) as u32 })
        } else {
            match fat_from(d, off, n, cap, i + 1) {
                RomOut::Done(rest) => RomOut::Done(seq![(top, (bottom - top) as u32)] + rest),
                RomOut::Refused(e) => RomOut::Refused(e),
                RomOut::Fault => RomOut::Fault,
            }
        }
    }
}

/// Two to the power `k`.
pub open spec fn pow2_u32(k: nat) -> int
    decreases k,
{
    if k == 0 {
        1
    } else {
        2 * pow2_u32((k - 1) as nat)
    }
}

/// What reading the file allocation table gives.
pub open spec fn fat_spec(d: Seq<u8>, fat_offset: u32, fat_size: u32, devicecap: u8) -> RomOut<Seq<(u32, u32)>> {
    fat_from(d, fat_offset as int, steps(fat_size as int, 8), devicecap, 0)
}

proof fn lemma_shift_pow2(k: u32)
    requires
        k < 32,
    ensures
        (1u32 << k) as int == pow2_u32(k as nat),
    decreases k,
{
    if k > 0 {
        lemma_shift_pow2((k - 1) as u32);
        assert((1u32 << k) == 2 * (1u32 << ((k - 1) as u32))) by (bit_vector)
            requires
                0 < k < 32,
        ;
    } else {
        assert(1u32 << 0u32 == 1) by (bit_vector);
    }
}

/// Reads the file allocation table.
pub fn read_fat(d: &[u8], fat_offset: u32, fat_size: u32, devicecap: u8) -> (r: Result<Vec<(u32, u32)>, NdsError>)
    requires
        !(fat_spec(d@, fat_offset, fat_size, devicecap) is Fault),
    ensures
        match r {
            Ok(v) => fat_spec(d@, fat_offset, fat_size, devicecap) == RomOut::Done(v@),
            Err(e) => fat_spec(d@, fat_offset, fat_size, devicecap) == RomOut::<Seq<(u32, u32)>>::Refused(e),
        },
{
    match fat_impl(d, fat_offset, fat_size, devicecap) {
        RomOut::Done(v) => Ok(v),
        RomOut::Refused(e) => Err(e),
        RomOut::Fault => Err(NdsError::UnexpectedEof),
    }
}

fn fat_impl(d: &[u8], fat_offset: u32, fat_size: u32, devicecap: u8) -> (r: RomOut<Vec<(u32, u32)>>)
    ensures
        match r {
            RomOut::Done(v) => fat_spec(d@, fat_offset, fat_size, devicecap) == RomOut::Done(v@),
            RomOut::Refused(e) => fat_spec(d@, fat_offset, fat_size, devicecap) == RomOut::<Seq<(u32, u32)>>::Refused(e),
            RomOut::Fault => fat_spec(d@, fat_offset, fat_size, devicecap) is Fault,
        },
{
    let n: u64 = (fat_size as u64 + 7) / 8;
    let off = fat_offset as u64;
    let mut out: Vec<(u32, u32)> = Vec::new();
    let mut i: u64 = 0;
    let ghost total = fat_spec(d@, fat_offset, fat_size, devicecap);
    assert(out@ =~= Seq::<(u32, u32)>::empty());
    while i < n
        invariant
            i <= n,
            n == steps(fat_size as int, 8),
            off == fat_offset,
            total == fat_spec(d@, fat_offset, fat_size, devicecap),
            total == (match fat_from(d@, off as int, n as int, devicecap, i as int) {
                RomOut::Done(rest) => RomOut::Done(out@ + rest),
                RomOut::Refused(e) => RomOut::Refused(e),
                RomOut::Fault => RomOut::Fault,
            }),
        decreases n - i,
    {
        let pos = off + 8 * i;
        if pos + 8 > d.len() as u64 {
            return RomOut::Refused(NdsError::UnexpectedEof);
        }
        let top = read_u32_le(d, pos as usize).unwrap();
        let bottom = read_u32_le(d, pos as usize + 4).unwrap();
        if bottom < top || devicecap >= 15 {
            return RomOut::Fault;
        }
        let size = bottom - top;
        let k: u32 = 17 + devicecap as u32;
        proof {
            lemma_shift_pow2(k);
        }
        if size > (1u32 << k) {
            return RomOut::Refused(NdsError::FatSize { file_id: (8 * i) as u32 });
        }
        let ghost before = out@;
        out.push((top, size));
        proof {
            let rest = fat_from(d@, off as int, n as int, devicecap, i + 1);
            if rest is Done {
                assert(before + (seq![(top, size)] + rest->Done_0) =~= out@ + rest->Done_0);
            }
        }
        i = i + 1;
    }
    assert(out@ + Seq::<(u32, u32)>::empty() =~= out@);
    RomOut::Done(out)
}

/// Reading an overlay table at `off` from its `i`-th entry on: each entry's
/// id picks the (position, size) of its file in the allocation table.
pub open spec fn overlays_from(d: Seq<u8>, off: int, n: int, fat: Seq<(u32, u32)>, i: int) -> RomOut<Seq<(u32, u32)>>
    decreases (if i < n {
        n - i
    } else {
        0
    }),
{
    if i >= n {
        RomOut::Done(Seq::empty())
    } else if off + 32 * i + 32 > d.len() {
        RomOut::Refused(NdsError::UnexpectedEof)
    } else {
        let id = u32_at(d, off + 32 * i);
        if id >= fat.len() {
            RomOut::Fault
        } else {
            match overlays_from(d, off, n, fat, i + 1) {
                RomOut::Done(rest) => RomOut::Done(seq![fat[id as int]] + rest),
                RomOut::Refused(e) => RomOut::Refused(e),
                RomOut::Fault => RomOut::Fault,
            }
        }
    }
}

/// What reading the positions and sizes of the overlays gives.
pub open spec fn overlays_spec(d: Seq<u8>, off: u32, size: u32, fat: Seq<(u32, u32)>) -> RomOut<Seq<(u32, u32)>> {
    overlays_from(d, off as int, steps(size as int, 32), fat, 0)
}

/// Reads the positions and sizes of the files of an overlay table.
pub fn overlay_pos_sizes(d: &[u8], overlay_offset: u32, overlay_size: u32, fat_pos_sizes: &[(u32, u32)]) -> (r: Result<
    Vec<(u32, u32)>,
    NdsError,
>)
    requires
        !(overlays_spec(d@, overlay_offset, overlay_size, fat_pos_sizes@) is Fault),
    ensures
        match r {
            Ok(v) => overlays_spec(d@, overlay_offset, overlay_size, fat_pos_sizes@) == RomOut::Done(v@),
            Err(e) => overlays_spec(d@, overlay_offset, overlay_size, fat_pos_sizes@) == RomOut::<
                Seq<(u32, u32)>,
            >::Refused(e),
        },
{
    match overlays_impl(d, overlay_offset, overlay_size, fat_pos_sizes) {
        RomOut::Done(v) => Ok(v),
        RomOut::Refused(e) => Err(e),
        RomOut::Fault => Err(NdsError::UnexpectedEof),
    }
}

fn overlays_impl(d: &[u8], overlay_offset: u32, overlay_size: u32, fat_pos_sizes: &[(u32, u32)]) -> (r: RomOut<Vec<(u32, u32)>>)
    ensures
        match r {
            RomOut::Done(v) => overlays_spec(d@, overlay_offset, overlay_size, fat_pos_sizes@) == RomOut::Done(v@),
            RomOut::Refused(e) => overlays_spec(d@, overlay_offset, overlay_size, fat_pos_sizes@) == RomOut::<
                Seq<(u32, u32)>,
            >::Refused(e),
            RomOut::Fault => overlays_spec(d@, overlay_offset, overlay_size, fat_pos_sizes@) is Fault,
        },
{
    let n: u64 = (overlay_size as u64 + 31) / 32;
    let off = overlay_offset as u64;
    let mut out: Vec<(u32, u32)> = Vec::new();
    let mut i: u64 = 0;
    let ghost total = overlays_spec(d@, overlay_offset, overlay_size, fat_pos_sizes@);
    assert(out@ =~= Seq::<(u32, u32)>::empty());
    while i < n
        invariant
            i <= n,
            n == steps(overlay_size as int, 32),
            off == overlay_offset,
            total == overlays_spec(d@, overlay_offset, overlay_size, fat_pos_sizes@),
            total == (match overlays_from(d@, off as int, n as int, fat_pos_sizes@, i as int) {
                RomOut::Done(rest) => RomOut::Done(out@ + rest),
                RomOut::Refused(e) => RomOut::Refused(e),
                RomOut::Fault => RomOut::Fault,
            }),
        decreases n - i,
    {
        let pos = off + 32 * i;
        if pos + 32 > d.len() as u64 {
            return RomOut::Refused(NdsError::UnexpectedEof);
        }
        let id = read_u32_le(d, pos as usize).unwrap();
        if id as usize >= fat_pos_sizes.len() {
            return RomOut::Fault;
        }
        let ghost before = out@;
        out.push(fat_pos_sizes[id as usize]);
        proof {
            let rest = overlays_from(d@, off as int, n as int, fat_pos_sizes@, i + 1);
            if rest is Done {
                assert(before + (seq![fat_pos_sizes@[id as int]] + rest->Done_0) =~= out@ + rest->Done_0);
            }
        }
        i = i + 1;
    }
    assert(out@ + Seq::<(u32, u32)>::empty() =~= out@);
    RomOut::Done(out)
}

/// The overlay table entry at byte `p` of `d`: eight little-endian numbers.
pub open spec fn overlay_entry_at(d: Seq<u8>, p: int) -> OverlayEntry {
    OverlayEntry {
        id: u32_at(d, p),
        ram_address: u32_at(d, p + 4),
        ram_size: u32_at(d, p + 8),
        bss_size: u32_at(d, p + 12),
        sinit_init: u32_at(d, p + 16),
        sinit_init_end: u32_at(d, p + 20),
        file_id: u32_at(d, p + 24),
        compressed_size_flag: u32_at(d, p + 28),
    }
}

/// The entries of the overlay table of `size` bytes at `off`, one for each
/// 32 bytes begun.
pub open spec fn overlay_entries_spec(d: Seq<u8>, off: u32, size: u32) -> Seq<OverlayEntry> {
    Seq::new(steps(size as int, 32) as nat, |i: int| overlay_entry_at(d, off + 32 * i))
}

proof fn lemma_overlays_in_bounds(d: Seq<u8>, off: int, n: int, fat: Seq<(u32, u32)>, i: int)
    requires
        0 <= i < n,
        overlays_from(d, off, n, fat, i) is Done,
    ensures
        off + 32 * (n - 1) + 32 <= d.len(),
    decreases n - i,
{
    if i + 1 < n {
        lemma_overlays_in_bounds(d, off, n, fat, i + 1);
    }
}

/// Reads the entries of an overlay table that lies within `d`.
fn overlay_entries(d: &[u8], overlay_offset: u32, overlay_size: u32) -> (r: Vec<OverlayEntry>)
    requires
        steps(overlay_size as int, 32) > 0 ==> overlay_offset + 32 * steps(overlay_size as int, 32) <= d@.len(),
    ensures
        r@ == overlay_entries_spec(d@, overlay_offset, overlay_size),
{
    let n: usize = ((overlay_size as u64 + 31) / 32) as usize;
    let mut out: Vec<OverlayEntry> = Vec::new();
    let mut i: usize = 0;
    while i < n
        invariant
            i <= n,
            n == steps(overlay_size as int, 32),
            n > 0 ==> overlay_offset + 32 * n <= d@.len(),
            out@ == overlay_entries_spec(d@, overlay_offset, overlay_size).take(i as int),
        decreases n - i,
    {
        let dl = d.len();
        assert(overlay_offset + 32 * i + 32 <= dl);
        let p = overlay_offset as usize + 32 * i;
        let e = OverlayEntry {
            id: read_u32_le(d, p).unwrap(),
            ram_address: read_u32_le(d, p + 4).unwrap(),
            ram_size: read_u32_le(d, p + 8).unwrap(),
            bss_size: read_u32_le(d, p + 12).unwrap(),
            sinit_init: read_u32_le(d, p + 16).unwrap(),
            sinit_init_end: read_u32_le(d, p + 20).unwrap(),
            file_id: read_u32_le(d, p + 24).unwrap(),
            compressed_size_flag: read_u32_le(d, p + 28).unwrap(),
        };
        out.push(e);
        assert(out@ =~= overlay_entries_spec(d@, overlay_offset, overlay_size).take(i + 1));
        i = i + 1;
    }
    assert(overlay_entries_spec(d@, overlay_offset, overlay_size).take(n as int) =~= overlay_entries_spec(
        d@,
        overlay_offset,
        overlay_size,
    ));
    out
}

/// The size of the banner of a DS rom from its version field.
pub open spec fn banner_size_spec(version: u16) -> u32 {
    if version == 0x0002 {
        0x940
    } else if version == 0x0003 {
        0xA40
    } else if version == 0x0103 {
        0x23C0
    } else {
        0x840
    }
}

/// The banner of a DS rom: version 1 holds the icon and six titles in 0x840
/// bytes; versions 2 and 3 each add one more title (Chinese, then Korean) of
/// 0x100 bytes; version 0x103 adds the animated icon, 0x23C0 bytes in all;
/// any other version is read as version 1.
pub proof fn lemma_banner_sizes(version: u16)
    ensures
        1 <= version <= 3 ==> banner_size_spec(version) == 0x840 + 0x100 * (version - 1),
        version == 0x103 ==> banner_size_spec(version) == 0x23C0,
        !(1 <= version <= 3 || version == 0x103) ==> banner_size_spec(version) == 0x840,
{
}

/// The size of the banner of a DS rom from its version field.
pub fn banner_size(version: u16) -> (r: u32)
    ensures
        r == banner_size_spec(version),
{
    match version {
        0x0001 => 0x840,
        0x0002 => 0x840 + 0x100,
        0x0003 => 0x840 + 0x200,
        0x0103 => 0x23C0,
        _ => 0x840,
    }
}


/// The shape of a file system tree: a file with its name, position and size,
/// or a directory with its name and children.
pub enum Shape {
    File(Seq<char>, u32, u32),
    Dir(Seq<char>, Seq<Shape>),
}

/// The rom tree `r` has the shape `s`.
pub open spec fn shape_of(r: RomTreeNode, s: Shape) -> bool
    decreases r,
{
    match (r.children, s) {
        (None, Shape::File(n, p, z)) => r.name@ == n && r.pos == p && r.size == z,
        (Some(cs), Shape::Dir(n, ss)) => r.name@ == n && r.pos == 0 && r.size == 0 && cs@.len() == ss.len()
            && forall|i: int| 0 <= i < cs@.len() ==> shape_of(#[trigger] cs@[i], ss[i]),
        _ => false,
    }
}

/// The directory `dir_id` of the name table at `off`, named `name`, with at
/// most `fuel` levels of directories below it before the reading must have
/// come back to a directory it is already in (and so never ends).
pub open spec fn fnt_dir(d: Seq<u8>, fat: Seq<(u32, u32)>, off: int, dir_id: int, name: Seq<char>, fuel: nat) -> RomOut<Shape>
    decreases fuel, 1int, 0int,
{
    let e = off + 8 * (dir_id % 4096);
    if e > u32::MAX {
        RomOut::Fault
    } else if e + 8 > d.len() {
        RomOut::Refused(NdsError::UnexpectedEof)
    } else {
        let p = off + u32_at(d, e);
        if p > u32::MAX {
            RomOut::Fault
        } else {
            match fnt_entries(d, fat, off, p, u16_at(d, e + 4) as int, fuel) {
                RomOut::Done(cs) => RomOut::Done(Shape::Dir(name, cs)),
                RomOut::Refused(x) => RomOut::Refused(x),
                RomOut::Fault => RomOut::Fault,
            }
        }
    }
}

/// The entries of a directory's list from `p`, the next file being file
/// `file_id`: each is a length byte (bit 7 marks a directory) and a name, a
/// directory's id after it; a zero length ends the list. Only files take
/// file ids, one after another.
pub open spec fn fnt_entries(d: Seq<u8>, fat: Seq<(u32, u32)>, off: int, p: int, file_id: int, fuel: nat) -> RomOut<Seq<Shape>>
    decreases fuel, 0int, (if 0 <= p < d.len() {
        d.len() - p
    } else {
        0
    }),
{
    if file_id > 0xFFFE {
        RomOut::Fault
    } else if p < 0 || p >= d.len() {
        RomOut::Refused(NdsError::UnexpectedEof)
    } else {
        let b = d[p];
        let len = (b & 0x7Fu8) as int;
        if len == 0 {
            RomOut::Done(Seq::empty())
        } else if p + 1 + len > d.len() {
            RomOut::Refused(NdsError::UnexpectedEof)
        } else {
            let nb = d.subrange(p + 1, p + 1 + len);
            if !valid_utf8(nb) {
                RomOut::Refused(NdsError::NameUtf8)
            } else if b & 0x80u8 == 0 {
                if file_id >= fat.len() {
                    RomOut::Fault
                } else {
                    let f = Shape::File(decode_utf8(nb), fat[file_id].0, fat[file_id].1);
                    match fnt_entries(d, fat, off, p + 1 + len, file_id + 1, fuel) {
                        RomOut::Done(rest) => RomOut::Done(seq![f] + rest),
                        RomOut::Refused(x) => RomOut::Refused(x),
                        RomOut::Fault => RomOut::Fault,
                    }
                }
            } else if p + 3 + len > d.len() {
                RomOut::Refused(NdsError::UnexpectedEof)
            } else if fuel == 0 {
                RomOut::Fault
            } else {
                match fnt_dir(d, fat, off, u16_at(d, p + 1 + len) as int, decode_utf8(nb), (fuel - 1) as nat) {
                    RomOut::Done(c) => match fnt_entries(d, fat, off, p + 3 + len, file_id, fuel) {
                        RomOut::Done(rest) => RomOut::Done(seq![c] + rest),
                        RomOut::Refused(x) => RomOut::Refused(x),
                        RomOut::Fault => RomOut::Fault,
                    },
                    RomOut::Refused(x) => RomOut::Refused(x),
                    RomOut::Fault => RomOut::Fault,
                }
            }
        }
    }
}

/// What reading the name table at `fnt_offset` gives: the root directory
/// (id 0xF000, no name). 4096 directory ids can be told apart, so a path of
/// more directories repeats one, and the reading never ends.
pub open spec fn fnt_spec(d: Seq<u8>, fat: Seq<(u32, u32)>, fnt_offset: u32) -> RomOut<Shape> {
    fnt_dir(d, fat, fnt_offset as int, 0xF000, Seq::empty(), 4095)
}


/// Reads directory `dir_id` of the name table, with `fuel` levels of
/// directories allowed below it.
fn read_fnt_dir(d: &[u8], fat: &[(u32, u32)], off: u32, dir_id: u16, name: String, fuel: u32) -> (r: RomOut<RomTreeNode>)
    requires
        d@.len() <= isize::MAX,
    ensures
        match r {
            RomOut::Done(n) => fnt_dir(d@, fat@, off as int, dir_id as int, name@, fuel as nat) matches RomOut::Done(s)
                && shape_of(n, s),
            RomOut::Refused(x) => fnt_dir(d@, fat@, off as int, dir_id as int, name@, fuel as nat) == RomOut::<Shape>::Refused(x),
            RomOut::Fault => fnt_dir(d@, fat@, off as int, dir_id as int, name@, fuel as nat) is Fault,
        },
    decreases fuel, 1int, 0int,
{
    let e: u64 = off as u64 + 8 * ((dir_id & 0xFFF) as u64);
    proof {
        assert(dir_id & 0xFFF == dir_id % 4096) by (bit_vector);
    }
    if e > 0xFFFF_FFFF {
        return RomOut::Fault;
    }
    if e + 8 > d.len() as u64 {
        return RomOut::Refused(NdsError::UnexpectedEof);
    }
    let start = read_u32_le(d, e as usize).unwrap();
    let top = read_u16_le(d, e as usize + 4).unwrap();
    let p: u64 = off as u64 + start as u64;
    if p > 0xFFFF_FFFF {
        return RomOut::Fault;
    }
    match read_fnt_entries(d, fat, off, p, top as u64, fuel) {
        RomOut::Done(cs) => {
            let n = RomTreeNode { name, pos: 0, size: 0, children: Some(cs.0) };
            proof {
                let ss = cs.1@;
                assert(shape_of(n, Shape::Dir(name@, ss)));
            }
            RomOut::Done(n)
        },
        RomOut::Refused(x) => RomOut::Refused(x),
        RomOut::Fault => RomOut::Fault,
    }
}

/// Reads the entries of a directory's list from `p`, the next file being
/// `file_id`; the children with their shapes.
fn read_fnt_entries(d: &[u8], fat: &[(u32, u32)], off: u32, p: u64, file_id: u64, fuel: u32) -> (r: RomOut<(Vec<RomTreeNode>, Ghost<Seq<Shape>>)>)
    requires
        p <= 0xFFFF_FFFF || p <= d@.len(),
        d@.len() <= isize::MAX,
        file_id <= 0xFFFF,
    ensures
        match r {
            RomOut::Done((v, ss)) => fnt_entries(d@, fat@, off as int, p as int, file_id as int, fuel as nat) == RomOut::Done(ss@)
                && v@.len() == ss@.len() && forall|i: int| 0 <= i < v@.len() ==> shape_of(#[trigger] v@[i], ss@[i]),
            RomOut::Refused(x) => fnt_entries(d@, fat@, off as int, p as int, file_id as int, fuel as nat) == RomOut::<Seq<Shape>>::Refused(x),
            RomOut::Fault => fnt_entries(d@, fat@, off as int, p as int, file_id as int, fuel as nat) is Fault,
        },
    decreases fuel, 0int, (if p < d@.len() {
        d@.len() - p
    } else {
        0
    }),
{
    if file_id > 0xFFFE {
        return RomOut::Fault;
    }
    if p >= d.len() as u64 {
        return RomOut::Refused(NdsError::UnexpectedEof);
    }
    let b = d[p as usize];
    let len = (b & 0x7F) as u64;
    if len == 0 {
        return RomOut::Done((Vec::new(), Ghost(Seq::empty())));
    }
    if p + 1 + len > d.len() as u64 {
        return RomOut::Refused(NdsError::UnexpectedEof);
    }
    let nb = vstd::slice::slice_subrange(d, p as usize + 1, (p + 1 + len) as usize);
    let name = match crate::text::utf8_string(nb) {
        Some(s) => s,
        None => return RomOut::Refused(NdsError::NameUtf8),
    };
    if b & 0x80 == 0 {
        if file_id as usize >= fat.len() {
            return RomOut::Fault;
        }
        let (pos, size) = fat[file_id as usize];
        let node = RomTreeNode { name, pos, size, children: None };
        let ghost s = Shape::File(decode_utf8(nb@), pos, size);
        assert(shape_of(node, s));
        match read_fnt_entries(d, fat, off, p + 1 + len, file_id + 1, fuel) {
            RomOut::Done((rest, ss)) => {
                let mut v: Vec<RomTreeNode> = Vec::new();
                v.push(node);
                let mut rest = rest;
                let ghost rv = rest@;
                v.append(&mut rest);
                let ghost all = seq![s] + ss@;
                assert forall|i: int| 0 <= i < v@.len() implies shape_of(#[trigger] v@[i], all[i]) by {
                    if i > 0 {
                        assert(v@[i] == rv[i - 1]);
                    }
                }
                RomOut::Done((v, Ghost(all)))
            },
            RomOut::Refused(x) => RomOut::Refused(x),
            RomOut::Fault => RomOut::Fault,
        }
    } else {
        if p + 3 + len > d.len() as u64 {
            return RomOut::Refused(NdsError::UnexpectedEof);
        }
        if fuel == 0 {
            return RomOut::Fault;
        }
        let cid = read_u16_le(d, (p + 1 + len) as usize).unwrap();
        match read_fnt_dir(d, fat, off, cid, name, fuel - 1) {
            RomOut::Done(c) => {
                let ghost cs = fnt_dir(d@, fat@, off as int, cid as int, decode_utf8(nb@), (fuel - 1) as nat)->Done_0;
                match read_fnt_entries(d, fat, off, p + 3 + len, file_id, fuel) {
                    RomOut::Done((rest, ss)) => {
                        let mut v: Vec<RomTreeNode> = Vec::new();
                        v.push(c);
                        let mut rest = rest;
                        let ghost rv = rest@;
                        v.append(&mut rest);
                        let ghost all = seq![cs] + ss@;
                        assert forall|i: int| 0 <= i < v@.len() implies shape_of(#[trigger] v@[i], all[i]) by {
                            if i > 0 {
                                assert(v@[i] == rv[i - 1]);
                            }
                        }
                        RomOut::Done((v, Ghost(all)))
                    },
                    RomOut::Refused(x) => RomOut::Refused(x),
                    RomOut::Fault => RomOut::Fault,
                }
            },
            RomOut::Refused(x) => RomOut::Refused(x),
            RomOut::Fault => RomOut::Fault,
        }
    }
}

/// Reads the directory tree of a rom from its name table at `fnt_offset`,
/// files taking their positions and sizes from the allocation table.
pub fn read_fnt(d: &[u8], fat_pos_sizes: &[(u32, u32)], fnt_offset: u32) -> (r: Result<RomTreeNode, NdsError>)
    requires
        d@.len() <= isize::MAX,
        !(fnt_spec(d@, fat_pos_sizes@, fnt_offset) is Fault),
    ensures
        match r {
            Ok(n) => fnt_spec(d@, fat_pos_sizes@, fnt_offset) matches RomOut::Done(s) && shape_of(n, s),
            Err(e) => fnt_spec(d@, fat_pos_sizes@, fnt_offset) == RomOut::<Shape>::Refused(e),
        },
{
    let root_name = String::new();
    match read_fnt_dir(d, fat_pos_sizes, fnt_offset, 0xF000, root_name, 4095) {
        RomOut::Done(n) => Ok(n),
        RomOut::Refused(e) => Err(e),
        RomOut::Fault => Err(NdsError::UnexpectedEof),
    }
}


/// The DSi part of a rom's layout: its header fields, whether the ARM9i binary
/// has a footer, whether its binaries are encrypted, and their keys.
pub struct DsiLayout {
    pub dsi_fields: DsiExtraFields,
    pub arm9i_has_footer: bool,
    pub is_modcrypted: bool,
    pub key: u128,
    pub iv1: u128,
    pub iv2: u128,
}

/// What reading a rom gives: its header, whether the ARM9 binary has a
/// footer, the sizes of the banner and header, where the overlays are and
/// their table entries, the directory tree, and the DSi part for a DSi rom.
pub struct RomLayout {
    pub header: DsHeader,
    pub arm9_has_footer: bool,
    pub banner_size: u32,
    pub header_size: u32,
    pub arm9_overlay_pos_sizes: Vec<(u32, u32)>,
    pub arm7_overlay_pos_sizes: Vec<(u32, u32)>,
    pub arm9_overlays: Vec<OverlayEntry>,
    pub arm7_overlays: Vec<OverlayEntry>,
    pub root_node: RomTreeNode,
    pub dsi: Option<DsiLayout>,
}

/// The DSi part of a layout as values.
pub type DsiView = (Seq<u8>, bool, bool, (u128, u128, u128));

/// A layout as values.
pub type RomView = (Seq<u8>, bool, u32, u32, Seq<(u32, u32)>, Seq<(u32, u32)>, Shape, Option<DsiView>);

/// What reading the rom `d` gives: the 0x180-byte header, whether the ARM9
/// binary has a footer, the allocation table, the overlay tables, the name
/// table; for a DSi rom (bit 1 of the unit code) the DSi fields after the
/// header and a banner of the size they give, else a banner whose size
/// follows from its version.
pub open spec fn rom_parse(d: Seq<u8>) -> RomOut<RomView> {
    if d.len() < 0x180 {
        RomOut::Refused(NdsError::UnexpectedEof)
    } else {
        let h = d.subrange(0, 0x180);
        match footer_spec(d, u32_at(h, 0x20), u32_at(h, 0x2C)) {
            RomOut::Fault => RomOut::Fault,
            RomOut::Refused(e) => RomOut::Refused(e),
            RomOut::Done(f9) => match fat_spec(d, u32_at(h, 0x48), u32_at(h, 0x4C), h[0x14]) {
                RomOut::Fault => RomOut::Fault,
                RomOut::Refused(e) => RomOut::Refused(e),
                RomOut::Done(fat) => match overlays_spec(d, u32_at(h, 0x50), u32_at(h, 0x54), fat) {
                    RomOut::Fault => RomOut::Fault,
                    RomOut::Refused(e) => RomOut::Refused(e),
                    RomOut::Done(o9) => match overlays_spec(d, u32_at(h, 0x58), u32_at(h, 0x5C), fat) {
                        RomOut::Fault => RomOut::Fault,
                        RomOut::Refused(e) => RomOut::Refused(e),
                        RomOut::Done(o7) => match fnt_spec(d, fat, u32_at(h, 0x40)) {
                            RomOut::Fault => RomOut::Fault,
                            RomOut::Refused(e) => RomOut::Refused(e),
                            RomOut::Done(tree) => if h[0x12] & 2u8 != 0 {
                                if d.len() < 0x1000 {
                                    RomOut::Refused(NdsError::UnexpectedEof)
                                } else {
                                    let x = d.subrange(0x180, 0x1000);
                                    match footer_spec(d, u32_at(x, 0x40), u32_at(x, 0x4C)) {
                                        RomOut::Fault => RomOut::Fault,
                                        RomOut::Refused(e) => RomOut::Refused(e),
                                        RomOut::Done(f9i) => RomOut::Done(
                                            (
                                                h,
                                                f9,
                                                u32_at(x, 0x88),
                                                0x1000,
                                                o9,
                                                o7,
                                                tree,
                                                Some((x, f9i, h[0x1C] & 2u8 != 0, key_ivs_spec(h.subrange(0xC, 0x10), x))),
                                            ),
                                        ),
                                    }
                                }
                            } else {
                                let bo = u32_at(h, 0x68) as int;
                                if bo + 2 > d.len() {
                                    RomOut::Refused(NdsError::UnexpectedEof)
                                } else {
                                    RomOut::Done((h, f9, banner_size_spec(u16_at(d, bo)), 0x200, o9, o7, tree, None))
                                }
                            },
                        },
                    },
                },
            },
        }
    }
}

/// A layout holds the values `v`.
pub open spec fn layout_matches(l: RomLayout, v: RomView) -> bool {
    &&& l.header.raw@ == v.0
    &&& l.arm9_has_footer == v.1
    &&& l.banner_size == v.2
    &&& l.header_size == v.3
    &&& l.arm9_overlay_pos_sizes@ == v.4
    &&& l.arm7_overlay_pos_sizes@ == v.5
    &&& shape_of(l.root_node, v.6)
    &&& match (l.dsi, v.7) {
        (None, None) => true,
        (Some(x), Some(w)) => x.dsi_fields.raw@ == w.0 && x.arm9i_has_footer == w.1 && x.is_modcrypted == w.2
            && (x.key, x.iv1, x.iv2) == w.3,
        _ => false,
    }
}

/// The overlay entries of a layout are those of the tables that the header
/// of the rom `d` points to.
pub open spec fn overlays_read(l: RomLayout, d: Seq<u8>) -> bool {
    &&& l.arm9_overlays@ == overlay_entries_spec(d, u32_at(l.header.raw@, 0x50), u32_at(l.header.raw@, 0x54))
    &&& l.arm7_overlays@ == overlay_entries_spec(d, u32_at(l.header.raw@, 0x58), u32_at(l.header.raw@, 0x5C))
}

fn rom_impl(d: &[u8]) -> (r: RomOut<RomLayout>)
    requires
        d@.len() <= isize::MAX,
    ensures
        match r {
            RomOut::Done(l) => rom_parse(d@) matches RomOut::Done(v) && layout_matches(l, v) && overlays_read(l, d@),
            RomOut::Refused(e) => rom_parse(d@) == RomOut::<RomView>::Refused(e),
            RomOut::Fault => rom_parse(d@) is Fault,
        },
{
    if d.len() < 0x180 {
        return RomOut::Refused(NdsError::UnexpectedEof);
    }
    let header = DsHeader { raw: vstd::slice::slice_to_vec(vstd::slice::slice_subrange(d, 0, 0x180)) };
    let ghost h = header.raw@;
    let p9 = header.field_u32(0x20);
    let s9 = header.field_u32(0x2C);
    if p9 as u64 + s9 as u64 > 0xFFFF_FFFF {
        return RomOut::Fault;
    }
    let f9 = match has_footer(d, p9, s9) {
        Ok(b) => b,
        Err(e) => return RomOut::Refused(e),
    };
    let cap = header.field_u8(0x14);
    let fat = match fat_impl(d, header.field_u32(0x48), header.field_u32(0x4C), cap) {
        RomOut::Done(v) => v,
        RomOut::Refused(e) => return RomOut::Refused(e),
        RomOut::Fault => return RomOut::Fault,
    };
    let o9 = match overlays_impl(d, header.field_u32(0x50), header.field_u32(0x54), fat.as_slice()) {
        RomOut::Done(v) => v,
        RomOut::Refused(e) => return RomOut::Refused(e),
        RomOut::Fault => return RomOut::Fault,
    };
    let o7 = match overlays_impl(d, header.field_u32(0x58), header.field_u32(0x5C), fat.as_slice()) {
        RomOut::Done(v) => v,
        RomOut::Refused(e) => return RomOut::Refused(e),
        RomOut::Fault => return RomOut::Fault,
    };
    proof {
        if steps(u32_at(h, 0x54) as int, 32) > 0 {
            lemma_overlays_in_bounds(d@, u32_at(h, 0x50) as int, steps(u32_at(h, 0x54) as int, 32), fat@, 0);
        }
        if steps(u32_at(h, 0x5C) as int, 32) > 0 {
            lemma_overlays_in_bounds(d@, u32_at(h, 0x58) as int, steps(u32_at(h, 0x5C) as int, 32), fat@, 0);
        }
    }
    let e9 = overlay_entries(d, header.field_u32(0x50), header.field_u32(0x54));
    let e7 = overlay_entries(d, header.field_u32(0x58), header.field_u32(0x5C));
    let root_name = String::new();
    let root = match read_fnt_dir(d, fat.as_slice(), header.field_u32(0x40), 0xF000, root_name, 4095) {
        RomOut::Done(n) => n,
        RomOut::Refused(e) => return RomOut::Refused(e),
        RomOut::Fault => return RomOut::Fault,
    };
    let ghost tree = fnt_spec(d@, fat@, u32_at(h, 0x40))->Done_0;
    if header.field_u8(0x12) & 2 != 0 {
        if d.len() < 0x1000 {
            return RomOut::Refused(NdsError::UnexpectedEof);
        }
        let dsi_fields = DsiExtraFields { raw: vstd::slice::slice_to_vec(vstd::slice::slice_subrange(d, 0x180, 0x1000)) };
        let ghost x = dsi_fields.raw@;
        let q9 = read_u32_le(dsi_fields.raw.as_slice(), 0x40).unwrap();
        let t9 = read_u32_le(dsi_fields.raw.as_slice(), 0x4C).unwrap();
        if q9 as u64 + t9 as u64 > 0xFFFF_FFFF {
            return RomOut::Fault;
        }
        let f9i = match has_footer(d, q9, t9) {
            Ok(b) => b,
            Err(e) => return RomOut::Refused(e),
        };
        let banner = read_u32_le(dsi_fields.raw.as_slice(), 0x88).unwrap();
        let modcrypted = header.field_u8(0x1C) & 2 != 0;
        let (key, iv1, iv2) = get_key_ivs(&header, &dsi_fields);
        let l = RomLayout {
            header,
            arm9_has_footer: f9,
            banner_size: banner,
            header_size: 0x1000,
            arm9_overlay_pos_sizes: o9,
            arm7_overlay_pos_sizes: o7,
            arm9_overlays: e9,
            arm7_overlays: e7,
            root_node: root,
            dsi: Some(DsiLayout { dsi_fields, arm9i_has_footer: f9i, is_modcrypted: modcrypted, key, iv1, iv2 }),
        };
        assert(h.subrange(0xC, 0x10) =~= l.header.raw@.subrange(0xC, 0x10));
        RomOut::Done(l)
    } else {
        let bo = header.field_u32(0x68);
        let version = match read_u16_le(d, bo as usize) {
            Some(v) => v,
            None => return RomOut::Refused(NdsError::UnexpectedEof),
        };
        let l = RomLayout {
            header,
            arm9_has_footer: f9,
            banner_size: banner_size(version),
            header_size: 0x200,
            arm9_overlay_pos_sizes: o9,
            arm7_overlay_pos_sizes: o7,
            arm9_overlays: e9,
            arm7_overlays: e7,
            root_node: root,
            dsi: None,
        };
        RomOut::Done(l)
    }
}

/// Reads the layout of a rom from its bytes.
pub fn read_from_rom(d: &[u8]) -> (r: Result<RomLayout, NdsError>)
    requires
        d@.len() <= isize::MAX,
        !(rom_parse(d@) is Fault),
    ensures
        match r {
            Ok(l) => rom_parse(d@) matches RomOut::Done(v) && layout_matches(l, v) && overlays_read(l, d@),
            Err(e) => rom_parse(d@) == RomOut::<RomView>::Refused(e),
        },
{
    match rom_impl(d) {
        RomOut::Done(l) => Ok(l),
        RomOut::Refused(e) => Err(e),
        RomOut::Fault => Err(NdsError::UnexpectedEof),
    }
}

/// Whether `read_from_rom` can read `d`: no index or arithmetic overflow on
/// the way, and no endless walk of the name table.
pub fn rom_is_readable(d: &[u8]) -> (r: bool)
    requires
        d@.len() <= isize::MAX,
    ensures
        r == !(rom_parse(d@) is Fault),
{
    match rom_impl(d) {
        RomOut::Fault => false,
        _ => true,
    }
}


/// The bytes of the rom from `pos`, at most `size` of them (fewer at its end).
pub open spec fn rom_part(d: Seq<u8>, pos: int, size: int) -> Seq<u8> {
    let a = if pos < d.len() {
        pos
    } else {
        d.len() as int
    };
    let b = if pos + size < d.len() {
        pos + size
    } else {
        d.len() as int
    };
    d.subrange(a, b)
}

/// The bytes of the rom from `pos`, at most `size` of them.
pub fn open_pos_size(d: &[u8], pos: u32, size: u32) -> (r: Vec<u8>)
    ensures
        r@ == rom_part(d@, pos as int, size as int),
{
    let n = d.len();
    let a: usize = if (pos as usize) < n {
        pos as usize
    } else {
        n
    };
    let end: u64 = pos as u64 + size as u64;
    let b: usize = if end < n as u64 {
        end as usize
    } else {
        n
    };
    vstd::slice::slice_to_vec(vstd::slice::slice_subrange(d, a, b))
}

/// The ARM9 binary of the rom `d`: its bytes decompressed, then the 12 bytes
/// of its footer if it has one.
pub open spec fn arm9_spec(d: Seq<u8>, h: Seq<u8>, has_footer: bool) -> Seq<u8> {
    let part = rom_part(d, u32_at(h, 0x20) as int, u32_at(h, 0x2C) as int);
    (blz_decode(part)->Done_0) + if has_footer {
        rom_part(d, u32_at(h, 0x20) + u32_at(h, 0x2C), 0xC)
    } else {
        Seq::empty()
    }
}

/// Where overlay number `id` lies in the rom, counting the ARM9 overlays
/// first and the ARM7 overlays after them.
pub open spec fn overlay_location(l: RomLayout, id: u32) -> (u32, u32) {
    let n9 = l.arm9_overlay_pos_sizes@.len();
    if id < n9 {
        l.arm9_overlay_pos_sizes@[id as int]
    } else {
        l.arm7_overlay_pos_sizes@[id - n9]
    }
}

/// The stored bytes of overlay number `id` in the rom `d`.
pub open spec fn overlay_stored(l: RomLayout, d: Seq<u8>, id: u32) -> Seq<u8> {
    rom_part(d, overlay_location(l, id).0 as int, overlay_location(l, id).1 as int)
}

/// The overlay of entry `e`: its stored bytes, decompressed when the entry
/// marks it compressed.
pub open spec fn overlay_spec(l: RomLayout, d: Seq<u8>, e: OverlayEntry) -> Seq<u8> {
    let part = overlay_stored(l, d, e.id);
    if e.compressed_size_flag >> 24u32 == 3 {
        blz_decode(part)->Done_0
    } else {
        part
    }
}

/// The overlay of entry `e` can be opened: its number is one of the layout's
/// overlays, and if it is compressed its bytes can be decompressed and their
/// size grown by the extend size fits in memory.
pub open spec fn overlay_openable(l: RomLayout, d: Seq<u8>, e: OverlayEntry) -> bool {
    let part = overlay_stored(l, d, e.id);
    &&& e.id < l.arm9_overlay_pos_sizes@.len() + l.arm7_overlay_pos_sizes@.len()
    &&& e.compressed_size_flag >> 24u32 == 3 ==> {
        &&& !(blz_decode(part) is Fault)
        &&& part.len() >= 8 ==> part.len() + blz_extend_size(part) <= usize::MAX
    }
}

impl RomLayout {
    /// The ARM9 binary of the rom `d` read with this layout, decompressed.
    pub fn open_arm9(&self, d: &[u8]) -> (r: Vec<u8>)
        requires
            self.header.wf(),
            u32_at(self.header.raw@, 0x20) + u32_at(self.header.raw@, 0x2C) <= u32::MAX,
            !(blz_decode(rom_part(d@, u32_at(self.header.raw@, 0x20) as int, u32_at(self.header.raw@, 0x2C) as int)) is Fault),
            rom_part(d@, u32_at(self.header.raw@, 0x20) as int, u32_at(self.header.raw@, 0x2C) as int).len() >= 8 ==> rom_part(
                d@,
                u32_at(self.header.raw@, 0x20) as int,
                u32_at(self.header.raw@, 0x2C) as int,
            ).len() + blz_extend_size(rom_part(d@, u32_at(self.header.raw@, 0x20) as int, u32_at(self.header.raw@, 0x2C) as int))
                <= usize::MAX,
        ensures
            r@ == arm9_spec(d@, self.header.raw@, self.arm9_has_footer),
    {
        let pos = self.header.field_u32(0x20);
        let size = self.header.field_u32(0x2C);
        let compressed = open_pos_size(d, pos, size);
        let mut out = match crate::blz::blz_decompress(compressed.as_slice()) {
            Ok(v) => v,
            Err(_) => {
                assert(false);
                Vec::new()
            },
        };
        if self.arm9_has_footer {
            let mut footer = open_pos_size(d, pos + size, 0xC);
            out.append(&mut footer);
        }
        out
    }

    /// Whether `open_arm9` can open the ARM9 binary of the rom `d`: its end
    /// fits in 32 bits, and its bytes can be decompressed and their size
    /// grown by the extend size fits in memory.
    pub fn arm9_is_openable(&self, d: &[u8]) -> (r: bool)
        requires
            self.header.wf(),
        ensures
            r == ({
                let part = rom_part(d@, u32_at(self.header.raw@, 0x20) as int, u32_at(self.header.raw@, 0x2C) as int);
                &&& u32_at(self.header.raw@, 0x20) + u32_at(self.header.raw@, 0x2C) <= u32::MAX
                &&& !(blz_decode(part) is Fault)
                &&& part.len() >= 8 ==> part.len() + blz_extend_size(part) <= usize::MAX
            }),
    {
        let pos = self.header.field_u32(0x20);
        let size = self.header.field_u32(0x2C);
        if pos as u64 + size as u64 > 0xFFFF_FFFF {
            return false;
        }
        let part = open_pos_size(d, pos, size);
        let l = part.len();
        if l >= 8 {
            let ext: u64 = part[l - 4] as u64 + part[l - 3] as u64 * 256 + part[l - 2] as u64 * 65536
                + part[l - 1] as u64 * 16777216;
            if l as u128 + ext as u128 > usize::MAX as u128 {
                return false;
            }
        }
        crate::blz::blz_is_decodable(part.as_slice())
    }

    fn overlay_part(&self, d: &[u8], id: u32) -> (r: Vec<u8>)
        requires
            id < self.arm9_overlay_pos_sizes@.len() + self.arm7_overlay_pos_sizes@.len(),
        ensures
            r@ == overlay_stored(*self, d@, id),
    {
        let n9 = self.arm9_overlay_pos_sizes.len();
        let k = id as usize;
        let (pos, size) = if k < n9 {
            self.arm9_overlay_pos_sizes[k]
        } else {
            self.arm7_overlay_pos_sizes[k - n9]
        };
        open_pos_size(d, pos, size)
    }

    /// The overlay of `overlay_entry` in the rom `d`: the file of overlay
    /// number `overlay_entry.id` (the ARM9 overlays first, then the ARM7
    /// ones), decompressed when the entry marks it compressed.
    pub fn open_overlay(&self, d: &[u8], overlay_entry: &OverlayEntry) -> (r: Vec<u8>)
        requires
            overlay_openable(*self, d@, *overlay_entry),
        ensures
            r@ == overlay_spec(*self, d@, *overlay_entry),
    {
        let part = self.overlay_part(d, overlay_entry.id);
        if overlay_entry.is_compressed() {
            match crate::blz::blz_decompress(part.as_slice()) {
                Ok(v) => v,
                Err(_) => {
                    assert(false);
                    Vec::new()
                },
            }
        } else {
            part
        }
    }

    /// Whether `open_overlay` can open the overlay of `overlay_entry`.
    pub fn overlay_is_openable(&self, d: &[u8], overlay_entry: &OverlayEntry) -> (r: bool)
        ensures
            r == overlay_openable(*self, d@, *overlay_entry),
    {
        let id = overlay_entry.id;
        if id as usize >= self.arm9_overlay_pos_sizes.len() && id as usize - self.arm9_overlay_pos_sizes.len()
            >= self.arm7_overlay_pos_sizes.len() {
            return false;
        }
        if !overlay_entry.is_compressed() {
            return true;
        }
        let part = self.overlay_part(d, id);
        let l = part.len();
        if l >= 8 {
            let ext: u64 = part[l - 4] as u64 + part[l - 3] as u64 * 256 + part[l - 2] as u64 * 65536
                + part[l - 1] as u64 * 16777216;
            if l as u128 + ext as u128 > usize::MAX as u128 {
                return false;
            }
        }
        crate::blz::blz_is_decodable(part.as_slice())
    }

    /// The file at the path `name` of the rom `d`, if there is such a node.
    pub fn open_file(&self, d: &[u8], name: &str) -> (r: Option<Vec<u8>>)
        ensures
            match r {
                Some(v) => find_spec(self.root_node, Some(name@)) matches Some(n) && v@ == rom_part(d@, n.pos as int, n.size as int),
                None => find_spec(self.root_node, Some(name@)) is None,
            },
    {
        match self.root_node.find_node(Some(name)) {
            Some(n) => {
                let (pos, size) = n.pos_size();
                Some(open_pos_size(d, pos, size))
            },
            None => None,
        }
    }
}

/// A DSi binary read from the rom: `size` bytes from `pos` (and its 12-byte
/// footer when `footer`); when the rom is encrypted and `crypt_size` is not
/// zero, the bytes from `crypt_start` (counted from the start of the rom) of
/// that size are decrypted in counter mode from `iv`.
pub open spec fn dsi_binary_spec(
    d: Seq<u8>,
    pos: u32,
    size: int,
    encrypted: bool,
    crypt_start: u32,
    crypt_size: u32,
    key: u128,
    iv: u128,
) -> Seq<u8> {
    let buf = rom_part(d, pos as int, size);
    if encrypted && crypt_size != 0 {
        let s = crypt_start - pos;
        let e = s + crypt_size;
        buf.subrange(0, s) + ctr_spec(buf.subrange(s, e), key, iv) + buf.subrange(e, buf.len() as int)
    } else {
        buf
    }
}

/// Reading a DSi binary cannot be done: its size with the footer
/// overflows 32 bits, the encrypted area starts before the binary or ends
/// past it, is not a whole number of blocks, or its counter overflows.
pub open spec fn dsi_binary_panics(
    d: Seq<u8>,
    pos: u32,
    size: int,
    encrypted: bool,
    crypt_start: u32,
    crypt_size: u32,
    iv: u128,
) -> bool {
    size > u32::MAX || (encrypted && crypt_size != 0 && (crypt_start < pos || crypt_start - pos + crypt_size > rom_part(
        d,
        pos as int,
        size,
    ).len() || crypt_size % 16 != 0 || iv + crypt_size / 16 > u128::MAX))
}

/// Reads a DSi binary and decrypts its encrypted area.
pub fn open_dsi_binary(
    d: &[u8],
    pos: u32,
    size: u64,
    encrypted: bool,
    crypt_start: u32,
    crypt_size: u32,
    key: u128,
    iv: u128,
) -> (r: Vec<u8>)
    requires
        !dsi_binary_panics(d@, pos, size as int, encrypted, crypt_start, crypt_size, iv),
    ensures
        r@ == dsi_binary_spec(d@, pos, size as int, encrypted, crypt_start, crypt_size, key, iv),
{
    let buf = open_pos_size(d, pos, size as u32);
    if encrypted && crypt_size != 0 {
        let s = (crypt_start - pos) as usize;
        let e = s + crypt_size as usize;
        let mut mid = vstd::slice::slice_to_vec(vstd::slice::slice_subrange(buf.as_slice(), s, e));
        crate::modcrypt::aes_ctr(&mut mid, key, iv);
        let mut out = vstd::slice::slice_to_vec(vstd::slice::slice_subrange(buf.as_slice(), 0, s));
        out.append(&mut mid);
        let mut tail = vstd::slice::slice_to_vec(vstd::slice::slice_subrange(buf.as_slice(), e, buf.len()));
        out.append(&mut tail);
        out
    } else {
        buf
    }
}

/// Where the ARM9i binary (`arm7` false) or the ARM7i binary (`arm7` true) of
/// a DSi rom lies and how it is encrypted, from the DSi fields: its position,
/// its size (with the 12 bytes of the footer for an ARM9i binary that has
/// one), the start and size of its encrypted area, and its counter.
pub open spec fn dsi_binary_fields(x: DsiLayout, arm7: bool) -> (u32, int, u32, u32, u128) {
    let f = x.dsi_fields.raw@;
    if arm7 {
        (u32_at(f, 0x50), u32_at(f, 0x5C) as int, u32_at(f, 0xA8), u32_at(f, 0xAC), x.iv2)
    } else {
        (
            u32_at(f, 0x40),
            u32_at(f, 0x4C) + if x.arm9i_has_footer {
                0xCint
            } else {
                0
            },
            u32_at(f, 0xA0),
            u32_at(f, 0xA4),
            x.iv1,
        )
    }
}

impl DsiLayout {
    fn binary_fields(&self, arm7: bool) -> (r: (u32, u64, u32, u32, u128))
        requires
            self.dsi_fields.wf(),
        ensures
            (r.0, r.1 as int, r.2, r.3, r.4) == dsi_binary_fields(*self, arm7),
    {
        let f = self.dsi_fields.raw.as_slice();
        if arm7 {
            (
                read_u32_le(f, 0x50).unwrap(),
                read_u32_le(f, 0x5C).unwrap() as u64,
                read_u32_le(f, 0xA8).unwrap(),
                read_u32_le(f, 0xAC).unwrap(),
                self.iv2,
            )
        } else {
            let footer: u64 = if self.arm9i_has_footer {
                0xC
            } else {
                0
            };
            (
                read_u32_le(f, 0x40).unwrap(),
                read_u32_le(f, 0x4C).unwrap() as u64 + footer,
                read_u32_le(f, 0xA0).unwrap(),
                read_u32_le(f, 0xA4).unwrap(),
                self.iv1,
            )
        }
    }

    /// Whether the ARM9i binary (`arm7` false) or the ARM7i binary of the rom
    /// `d` can be read: its size fits in 32 bits and its encrypted area, if
    /// any, lies within it in whole blocks.
    pub fn binary_is_readable(&self, d: &[u8], arm7: bool) -> (r: bool)
        requires
            self.dsi_fields.wf(),
        ensures
            r == !dsi_binary_panics(
                d@,
                dsi_binary_fields(*self, arm7).0,
                dsi_binary_fields(*self, arm7).1,
                self.is_modcrypted,
                dsi_binary_fields(*self, arm7).2,
                dsi_binary_fields(*self, arm7).3,
                dsi_binary_fields(*self, arm7).4,
            ),
    {
        let (pos, size, cs, cz, iv) = self.binary_fields(arm7);
        if size > 0xFFFF_FFFF {
            return false;
        }
        if !self.is_modcrypted || cz == 0 {
            return true;
        }
        let part_len = open_pos_size(d, pos, size as u32).len() as u64;
        !(cs < pos || (cs - pos) as u64 + cz as u64 > part_len || cz % 16 != 0 || iv > u128::MAX - (cz / 16) as u128)
    }

    /// The ARM9i binary (`arm7` false) or the ARM7i binary of the rom `d`,
    /// with its encrypted area decrypted when the rom is encrypted.
    pub fn open_binary(&self, d: &[u8], arm7: bool) -> (r: Vec<u8>)
        requires
            self.dsi_fields.wf(),
            !dsi_binary_panics(
                d@,
                dsi_binary_fields(*self, arm7).0,
                dsi_binary_fields(*self, arm7).1,
                self.is_modcrypted,
                dsi_binary_fields(*self, arm7).2,
                dsi_binary_fields(*self, arm7).3,
                dsi_binary_fields(*self, arm7).4,
            ),
        ensures
            r@ == dsi_binary_spec(
                d@,
                dsi_binary_fields(*self, arm7).0,
                dsi_binary_fields(*self, arm7).1,
                self.is_modcrypted,
                dsi_binary_fields(*self, arm7).2,
                dsi_binary_fields(*self, arm7).3,
                self.key,
                dsi_binary_fields(*self, arm7).4,
            ),
    {
        let (pos, size, cs, cz, iv) = self.binary_fields(arm7);
        open_dsi_binary(d, pos, size, self.is_modcrypted, cs, cz, self.key, iv)
    }
}

} // verus!
