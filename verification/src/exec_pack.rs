//! The executables of a rom as it is built: the ARM9 binary and the overlays
//! whose table entries mark them compressed are stored BLZ-compressed, and
//! reading them back decompresses them into what was given.
use vstd::prelude::*;
use crate::bytes::{u32_at, read_u32_le, next_multiple};
use crate::blz::{blz_compress, blz_compress_accepts, blz_compressed, blz_panics, blz_decode, BlzDecoded};
use crate::nds_write::{NdsParts, contents, nds_rom_spec, nds_room, arm9_size_spec};
use crate::blz_roundtrip::lemma_blz_roundtrip;
use crate::rom_roundtrip::{lemma_rom_overlay_read_back, lemma_rom_binaries_read_back};

verus! {

/// The code that begins the footer of an ARM9 binary.
pub open spec fn nitro_code() -> u32 {
    0xDEC0_0621
}

/// Compressing `x`, its first `m` bytes left as they are, can be done and
/// makes it smaller.
pub open spec fn compresses(x: Seq<u8>, m: int) -> bool {
    !blz_panics(x, m) && blz_compressed(x, m) matches Ok(Some(_))
}

/// `x` as it is stored: BLZ-compressed with its first `m` bytes left as they
/// are, or as given where compression cannot be done or does not make it
/// smaller.
pub open spec fn packed_spec(x: Seq<u8>, m: int) -> Seq<u8> {
    if compresses(x, m) {
        blz_compressed(x, m)->Ok_0->Some_0
    } else {
        x
    }
}

/// An ARM9 binary ends with its 12-byte footer.
pub open spec fn has_arm9_footer(a: Seq<u8>) -> bool {
    a.len() >= 12 && u32_at(a, a.len() - 12) == nitro_code()
}

/// The ARM9 binary without its footer.
pub open spec fn arm9_body(a: Seq<u8>) -> Seq<u8> {
    if has_arm9_footer(a) {
        a.take(a.len() - 12)
    } else {
        a
    }
}

/// The footer of the ARM9 binary, if it has one.
pub open spec fn arm9_footer(a: Seq<u8>) -> Seq<u8> {
    if has_arm9_footer(a) {
        a.skip(a.len() - 12)
    } else {
        Seq::empty()
    }
}

/// The ARM9 binary as it is stored: its body compressed past the secure
/// area (the first 0x4000 bytes), then its footer.
pub open spec fn arm9_packed(a: Seq<u8>) -> Seq<u8> {
    packed_spec(arm9_body(a), 0x4000) + arm9_footer(a)
}

/// The entry `k` of the overlay table `t` marks its overlay compressed.
pub open spec fn overlay_flagged(t: Seq<u8>, k: int) -> bool {
    32 * k + 32 <= t.len() && u32_at(t, 32 * k + 28) >> 24u32 == 3
}

/// The overlays `os` of the table `t` as they are stored.
pub open spec fn overlays_packed(t: Seq<u8>, os: Seq<Seq<u8>>) -> Seq<Seq<u8>> {
    Seq::new(os.len(), |k: int| if overlay_flagged(t, k) { packed_spec(os[k], 0) } else { os[k] })
}

/// `q` holds the parts `p` with their executables as they are stored.
pub open spec fn parts_packed(p: NdsParts, q: NdsParts) -> bool {
    &&& q.header@ == p.header@
    &&& q.arm9@ == arm9_packed(p.arm9@)
    &&& q.arm9_overlay_table@ == p.arm9_overlay_table@
    &&& contents(q.arm9_overlays@) == overlays_packed(p.arm9_overlay_table@, contents(p.arm9_overlays@))
    &&& q.arm7@ == p.arm7@
    &&& q.arm7_overlay_table@ == p.arm7_overlay_table@
    &&& contents(q.arm7_overlays@) == overlays_packed(p.arm7_overlay_table@, contents(p.arm7_overlays@))
    &&& q.name_table@ == p.name_table@
    &&& q.banner@ == p.banner@
    &&& contents(q.files@) == contents(p.files@)
}

/// `x` as it is stored, its first `m` bytes left as they are.
pub fn pack_executable(x: &[u8], m: usize) -> (r: Vec<u8>)
    requires
        x@.len() <= isize::MAX,
    ensures
        r@ == packed_spec(x@, m as int),
{
    if blz_compress_accepts(x, m) {
        match blz_compress(x, m) {
            Ok(Some(c)) => c,
            _ => vstd::slice::slice_to_vec(x),
        }
    } else {
        vstd::slice::slice_to_vec(x)
    }
}

/// The ARM9 binary as it is stored: its body compressed past the secure
/// area, then its footer.
pub fn pack_arm9(a: &[u8]) -> (r: Vec<u8>)
    requires
        a@.len() <= isize::MAX,
    ensures
        r@ == arm9_packed(a@),
{
    let n = a.len();
    if n >= 12 && read_u32_le(a, n - 12) == Some(0xDEC0_0621u32) {
        let body = vstd::slice::slice_subrange(a, 0, n - 12);
        let mut out = pack_executable(body, 0x4000);
        let mut footer = vstd::slice::slice_to_vec(vstd::slice::slice_subrange(a, n - 12, n));
        out.append(&mut footer);
        assert(body@ =~= arm9_body(a@));
        assert(a@.subrange(n - 12, n as int) =~= arm9_footer(a@));
        out
    } else {
        let out = pack_executable(a, 0x4000);
        assert(arm9_footer(a@) =~= Seq::<u8>::empty());
        assert(out@ + Seq::<u8>::empty() =~= out@);
        out
    }
}

/// Whether entry `k` of the overlay table `t` marks its overlay compressed.
fn is_flagged(t: &[u8], k: usize) -> (r: bool)
    ensures
        r == overlay_flagged(t@, k as int),
{
    if k >= t.len() / 32 {
        return false;
    }
    let f = read_u32_le(t, 32 * k + 28).unwrap();
    f >> 24u32 == 3
}

/// The overlays of the table `t` as they are stored.
pub fn pack_overlays(t: &[u8], os: &[Vec<u8>]) -> (r: Vec<Vec<u8>>)
    requires
        forall|k: int| 0 <= k < os@.len() ==> (#[trigger] os@[k])@.len() <= isize::MAX,
    ensures
        contents(r@) == overlays_packed(t@, contents(os@)),
{
    let mut out: Vec<Vec<u8>> = Vec::new();
    let mut k: usize = 0;
    while k < os.len()
        invariant
            k <= os@.len(),
            forall|j: int| 0 <= j < os@.len() ==> (#[trigger] os@[j])@.len() <= isize::MAX,
            contents(out@) == overlays_packed(t@, contents(os@)).take(k as int),
        decreases os@.len() - k,
    {
        let x = os[k].as_slice();
        let v = if is_flagged(t, k) {
            pack_executable(x, 0)
        } else {
            vstd::slice::slice_to_vec(x)
        };
        let ghost before = out@;
        out.push(v);
        assert(contents(os@)[k as int] == x@);
        assert(contents(out@) =~= contents(before).push(v@));
        assert(contents(out@) =~= overlays_packed(t@, contents(os@)).take(k + 1));
        k = k + 1;
    }
    assert(overlays_packed(t@, contents(os@)).take(os@.len() as int) =~= overlays_packed(t@, contents(os@)));
    out
}

/// Whether each executable of `p` is short enough for `pack_parts`.
pub fn parts_fit_packing(p: &NdsParts) -> (r: bool)
    ensures
        r == (p.arm9@.len() <= isize::MAX && (forall|k: int| 0 <= k < p.arm9_overlays@.len()
            ==> (#[trigger] p.arm9_overlays@[k])@.len() <= isize::MAX) && (forall|k: int| 0 <= k
            < p.arm7_overlays@.len() ==> (#[trigger] p.arm7_overlays@[k])@.len() <= isize::MAX)),
{
    if p.arm9.len() > isize::MAX as usize {
        return false;
    }
    let mut k: usize = 0;
    while k < p.arm9_overlays.len()
        invariant
            k <= p.arm9_overlays@.len(),
            forall|j: int| 0 <= j < k ==> (#[trigger] p.arm9_overlays@[j])@.len() <= isize::MAX,
        decreases p.arm9_overlays@.len() - k,
    {
        if p.arm9_overlays[k].len() > isize::MAX as usize {
            return false;
        }
        k = k + 1;
    }
    let mut k: usize = 0;
    while k < p.arm7_overlays.len()
        invariant
            k <= p.arm7_overlays@.len(),
            forall|j: int| 0 <= j < p.arm9_overlays@.len() ==> (#[trigger] p.arm9_overlays@[j])@.len()
                <= isize::MAX,
            forall|j: int| 0 <= j < k ==> (#[trigger] p.arm7_overlays@[j])@.len() <= isize::MAX,
        decreases p.arm7_overlays@.len() - k,
    {
        if p.arm7_overlays[k].len() > isize::MAX as usize {
            return false;
        }
        k = k + 1;
    }
    true
}

fn copy_all(fs: &Vec<Vec<u8>>) -> (r: Vec<Vec<u8>>)
    ensures
        contents(r@) == contents(fs@),
{
    let mut out: Vec<Vec<u8>> = Vec::new();
    let mut k: usize = 0;
    while k < fs.len()
        invariant
            k <= fs@.len(),
            contents(out@) == contents(fs@).take(k as int),
        decreases fs@.len() - k,
    {
        let ghost before = out@;
        let v = vstd::slice::slice_to_vec(fs[k].as_slice());
        out.push(v);
        assert(contents(fs@)[k as int] == v@);
        assert(contents(out@) =~= contents(before).push(v@));
        assert(contents(out@) =~= contents(fs@).take(k + 1));
        k = k + 1;
    }
    assert(contents(fs@).take(fs@.len() as int) =~= contents(fs@));
    out
}

/// The parts of a rom with their executables as they are stored: the ARM9
/// binary compressed past its secure area, and each overlay whose table
/// entry marks it compressed.
pub fn pack_parts(p: &NdsParts) -> (q: NdsParts)
    requires
        p.arm9@.len() <= isize::MAX,
        forall|k: int| 0 <= k < p.arm9_overlays@.len() ==> (#[trigger] p.arm9_overlays@[k])@.len() <= isize::MAX,
        forall|k: int| 0 <= k < p.arm7_overlays@.len() ==> (#[trigger] p.arm7_overlays@[k])@.len() <= isize::MAX,
    ensures
        parts_packed(*p, q),
{
    NdsParts {
        header: vstd::slice::slice_to_vec(p.header.as_slice()),
        arm9: pack_arm9(p.arm9.as_slice()),
        arm9_overlay_table: vstd::slice::slice_to_vec(p.arm9_overlay_table.as_slice()),
        arm9_overlays: pack_overlays(p.arm9_overlay_table.as_slice(), p.arm9_overlays.as_slice()),
        arm7: vstd::slice::slice_to_vec(p.arm7.as_slice()),
        arm7_overlay_table: vstd::slice::slice_to_vec(p.arm7_overlay_table.as_slice()),
        arm7_overlays: pack_overlays(p.arm7_overlay_table.as_slice(), p.arm7_overlays.as_slice()),
        name_table: vstd::slice::slice_to_vec(p.name_table.as_slice()),
        banner: vstd::slice::slice_to_vec(p.banner.as_slice()),
        files: copy_all(&p.files),
    }
}

/// Reading back a rom built from packed parts: overlay `k` (the ARM9 overlays
/// first), when its table entry marks it compressed and compressing it makes
/// it smaller, decompresses from the bytes that its allocation-table entry
/// points to into the overlay as it was given.
pub proof fn lemma_packed_overlay_read_back(p: NdsParts, q: NdsParts, k: int)
    requires
        parts_packed(p, q),
        nds_room(q) <= 0x7FFF_FFFC,
        nds_rom_spec(q) is Ok,
        0 <= k < p.arm9_overlays@.len() + p.arm7_overlays@.len(),
        k < p.arm9_overlays@.len() ==> overlay_flagged(p.arm9_overlay_table@, k) && compresses(
            p.arm9_overlays@[k]@,
            0,
        ),
        k >= p.arm9_overlays@.len() ==> overlay_flagged(p.arm7_overlay_table@, k - p.arm9_overlays@.len())
            && compresses(p.arm7_overlays@[k - p.arm9_overlays@.len()]@, 0),
    ensures
        ({
            let rom = nds_rom_spec(q)->Ok_0;
            let e = u32_at(rom, 0x48) + 8 * k;
            let top = u32_at(rom, e) as int;
            let bottom = u32_at(rom, e + 4) as int;
            &&& top <= bottom <= rom.len()
            &&& blz_decode(rom.subrange(top, bottom)) == BlzDecoded::Done(
                if k < p.arm9_overlays@.len() {
                    p.arm9_overlays@[k]@
                } else {
                    p.arm7_overlays@[k - p.arm9_overlays@.len()]@
                },
            )
        }),
{
    let n9 = p.arm9_overlays@.len() as int;
    assert(contents(q.arm9_overlays@).len() == q.arm9_overlays@.len());
    assert(contents(q.arm7_overlays@).len() == q.arm7_overlays@.len());
    lemma_rom_overlay_read_back(q, k);
    if k < n9 {
        let x = p.arm9_overlays@[k]@;
        assert(contents(p.arm9_overlays@)[k] == x);
        assert(q.arm9_overlays@[k]@ == contents(q.arm9_overlays@)[k]);
        lemma_blz_roundtrip(x, 0);
    } else {
        let x = p.arm7_overlays@[k - n9]@;
        assert(contents(p.arm7_overlays@)[k - n9] == x);
        assert(q.arm7_overlays@[k - n9]@ == contents(q.arm7_overlays@)[k - n9]);
        lemma_blz_roundtrip(x, 0);
    }
}

/// Reading back a rom built from packed parts: when compressing the ARM9
/// binary's body past its secure area makes it smaller, the bytes at the
/// header's ARM9 place, as many as the header's ARM9 size, decompress into
/// the body as it was given, and its footer follows them. (Where the binary
/// had no footer, the stored binary must not look as if it had one.)
pub proof fn lemma_packed_arm9_read_back(p: NdsParts, q: NdsParts)
    requires
        parts_packed(p, q),
        nds_room(q) <= 0x7FFF_FFFC,
        nds_rom_spec(q) is Ok,
        compresses(arm9_body(p.arm9@), 0x4000),
        has_arm9_footer(p.arm9@) || u32_at(q.arm9@, q.arm9@.len() - 12) != nitro_code(),
    ensures
        ({
            let rom = nds_rom_spec(q)->Ok_0;
            let p9 = u32_at(rom, 0x20) as int;
            let s9 = u32_at(rom, 0x2C) as int;
            let f = arm9_footer(p.arm9@);
            &&& p9 + s9 + f.len() <= rom.len()
            &&& blz_decode(rom.subrange(p9, p9 + s9)) == BlzDecoded::Done(arm9_body(p.arm9@))
            &&& rom.subrange(p9 + s9, p9 + s9 + f.len()) == f
        }),
{
    let body = arm9_body(p.arm9@);
    lemma_blz_roundtrip(body, 0x4000);
    let c = blz_compressed(body, 0x4000)->Ok_0->Some_0;
    lemma_stored_arm9_read_back(p, q, c);
}

proof fn lemma_stored_size(a: Seq<u8>, c: Seq<u8>)
    requires
        c.len() % 4 == 0,
        (c + arm9_footer(a)).len() >= 12,
        has_arm9_footer(a) || u32_at(c + arm9_footer(a), (c + arm9_footer(a)).len() - 12) != nitro_code(),
    ensures
        arm9_size_spec(c + arm9_footer(a)) == c.len(),
        next_multiple(c.len() as int, 4) == c.len(),
{
    let f = arm9_footer(a);
    let qa = c + f;
    if has_arm9_footer(a) {
        assert(f.len() == 12);
        assert(qa[qa.len() - 12] == a[a.len() - 12] && qa[qa.len() - 11] == a[a.len() - 11]);
        assert(qa[qa.len() - 10] == a[a.len() - 10] && qa[qa.len() - 9] == a[a.len() - 9]);
        assert(u32_at(qa, qa.len() - 12) == u32_at(a, a.len() - 12));
    } else {
        assert(f.len() == 0);
        assert(qa =~= c);
    }
}

#[verifier::rlimit(40)]
proof fn lemma_stored_arm9_read_back(p: NdsParts, q: NdsParts, c: Seq<u8>)
    requires
        nds_room(q) <= 0x7FFF_FFFC,
        nds_rom_spec(q) is Ok,
        q.arm9@ == c + arm9_footer(p.arm9@),
        c.len() % 4 == 0,
        blz_decode(c) == BlzDecoded::Done(arm9_body(p.arm9@)),
        has_arm9_footer(p.arm9@) || u32_at(q.arm9@, q.arm9@.len() - 12) != nitro_code(),
    ensures
        ({
            let rom = nds_rom_spec(q)->Ok_0;
            let p9 = u32_at(rom, 0x20) as int;
            let s9 = u32_at(rom, 0x2C) as int;
            let f = arm9_footer(p.arm9@);
            &&& p9 + s9 + f.len() <= rom.len()
            &&& blz_decode(rom.subrange(p9, p9 + s9)) == BlzDecoded::Done(arm9_body(p.arm9@))
            &&& rom.subrange(p9 + s9, p9 + s9 + f.len()) == f
        }),
{
    let rom = nds_rom_spec(q)->Ok_0;
    let f = arm9_footer(p.arm9@);
    let qa = q.arm9@;
    lemma_rom_binaries_read_back(q);
    lemma_stored_size(p.arm9@, c);
    let p9 = u32_at(rom, 0x20) as int;
    let s9 = u32_at(rom, 0x2C) as int;
    assert(s9 == c.len());
    let whole = rom.subrange(p9, p9 + qa.len());
    assert(whole == qa);
    assert(rom.subrange(p9, p9 + s9) =~= whole.subrange(0, c.len() as int));
    assert(whole.subrange(0, c.len() as int) =~= c);
    assert(rom.subrange(p9 + s9, p9 + s9 + f.len()) =~= whole.subrange(c.len() as int, qa.len() as int));
    assert(whole.subrange(c.len() as int, qa.len() as int) =~= f);
}

} // verus!
