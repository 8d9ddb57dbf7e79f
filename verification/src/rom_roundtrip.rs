//! What reading a written rom gives back: the name table, each overlay and
//! each file where the header and the allocation table say they are.
use vstd::prelude::*;
use crate::bytes::{next_multiple, u32_at, le_bytes_u32, lemma_u32_roundtrip};
use crate::nds_write::{
    NdsParts, set_bytes, fill_to, files_put, files_room, fat_bytes, contents, with_fat, with_files, with_overlays9,
    with_overlays7, header_spec, header_first, header_second, nds_rom_spec, nds_room, fnt_offset, fat_offset,
    banner_offset, fat_count, with_arm9, with_arm7, table9_offset, table7_offset, arm7_offset,
    lemma_room_nonneg, arm9_size_spec,
};

verus! {

/// Writing `b` over `h` changes only the bytes it covers.
proof fn lemma_set_bytes_all()
    ensures
        forall|h: Seq<u8>, off: int, b: Seq<u8>|
            0 <= off && off + b.len() <= h.len() ==> #[trigger] set_bytes(h, off, b).len() == h.len(),
        forall|h: Seq<u8>, off: int, b: Seq<u8>, q: int|
            0 <= off && off + b.len() <= h.len() && 0 <= q < h.len() ==> #[trigger] set_bytes(h, off, b)[q] == if off
                <= q < off + b.len() {
                b[q - off]
            } else {
                h[q]
            },
{
    reveal(set_bytes);
}

/// Each file that `files_put` writes lies where its entry says, after what
/// was there before, which stays.
proof fn lemma_files_put_places(s: Seq<u8>, fs: Seq<Seq<u8>>)
    requires
        s.len() + files_room(fs) <= u32::MAX,
    ensures
        ({
            let (t, es) = files_put(s, fs);
            &&& es.len() == fs.len()
            &&& t.len() >= s.len()
            &&& t.len() <= s.len() + files_room(fs)
            &&& t.subrange(0, s.len() as int) == s
            &&& forall|k: int| 0 <= k < fs.len() ==> {
                &&& s.len() <= (#[trigger] es[k]).0 <= es[k].1 <= t.len()
                &&& es[k].1 == es[k].0 + fs[k].len()
                &&& t.subrange(es[k].0 as int, es[k].1 as int) == fs[k]
            }
        }),
    decreases fs.len(),
{
    if fs.len() == 0 {
        assert(s.subrange(0, s.len() as int) =~= s);
    } else {
        let dl = fs.drop_last();
        crate::nds_write::lemma_room_nonneg(dl);
        lemma_files_put_places(s, dl);
        let (t0, es0) = files_put(s, dl);
        let top = next_multiple(t0.len() as int, 0x200);
        assert(t0.len() <= top < t0.len() + 0x200);
        let last = fs.last();
        let t = fill_to(t0, top, 0xFF) + last;
        assert(files_put(s, fs).0 == t);
        assert(fill_to(t0, top, 0xFF).len() == top);
        assert(t.subrange(0, t0.len() as int) =~= t0);
        assert(t.subrange(0, s.len() as int) =~= t0.subrange(0, s.len() as int));
        let es = files_put(s, fs).1;
        assert forall|k: int| 0 <= k < fs.len() implies {
            &&& s.len() <= (#[trigger] es[k]).0 <= es[k].1 <= t.len()
            &&& es[k].1 == es[k].0 + fs[k].len()
            &&& t.subrange(es[k].0 as int, es[k].1 as int) == fs[k]
        } by {
            if k < fs.len() - 1 {
                assert(es[k] == es0[k]);
                assert(fs[k] == dl[k]);
                assert(t.subrange(es[k].0 as int, es[k].1 as int) =~= t0.subrange(es[k].0 as int, es[k].1 as int));
            } else {
                assert(es[k] == (top as u32, (top + last.len()) as u32));
                assert(t.subrange(top, top + last.len()) =~= last);
            }
        }
    }
}

/// The entries of the allocation table read back from its bytes.
proof fn lemma_fat_bytes_read(es: Seq<(u32, u32)>, k: int)
    requires
        0 <= k < es.len(),
    ensures
        fat_bytes(es).len() == 8 * es.len(),
        u32_at(fat_bytes(es), 8 * k) == es[k].0,
        u32_at(fat_bytes(es), 8 * k + 4) == es[k].1,
    decreases es.len(),
{
    let dl = es.drop_last();
    let e = es.last();
    let b = fat_bytes(es);
    lemma_fat_len(dl);
    assert(b == fat_bytes(dl) + le_bytes_u32(e.0) + le_bytes_u32(e.1));
    if k == es.len() - 1 {
        lemma_u32_roundtrip(e.0);
        lemma_u32_roundtrip(e.1);
        assert(b[8 * k] == le_bytes_u32(e.0)[0] && b[8 * k + 1] == le_bytes_u32(e.0)[1]);
        assert(b[8 * k + 2] == le_bytes_u32(e.0)[2] && b[8 * k + 3] == le_bytes_u32(e.0)[3]);
        assert(b[8 * k + 4] == le_bytes_u32(e.1)[0] && b[8 * k + 5] == le_bytes_u32(e.1)[1]);
        assert(b[8 * k + 6] == le_bytes_u32(e.1)[2] && b[8 * k + 7] == le_bytes_u32(e.1)[3]);
    } else {
        lemma_fat_bytes_read(dl, k);
        let d = fat_bytes(dl);
        assert(b[8 * k] == d[8 * k] && b[8 * k + 1] == d[8 * k + 1] && b[8 * k + 2] == d[8 * k + 2] && b[8 * k + 3] == d[8 * k + 3]);
        assert(b[8 * k + 4] == d[8 * k + 4] && b[8 * k + 5] == d[8 * k + 5] && b[8 * k + 6] == d[8 * k + 6] && b[8 * k + 7] == d[8 * k + 7]);
    }
}

proof fn lemma_fat_len(es: Seq<(u32, u32)>)
    ensures
        fat_bytes(es).len() == 8 * es.len(),
    decreases es.len(),
{
    if es.len() > 0 {
        lemma_fat_len(es.drop_last());
    }
}

proof fn lemma_next_multiple(x: int, m: int)
    requires
        x >= 0,
        m > 0,
    ensures
        x <= next_multiple(x, m) < x + m,
{
}

/// Where the layout puts the parts, and that all of it stays within the
/// room the parts may take.
proof fn lemma_layout(p: NdsParts)
    requires
        nds_room(p) <= 0x7FFF_FFFC,
    ensures
        with_overlays9(p).1.len() == p.arm9_overlays@.len(),
        with_overlays7(p).1.len() == p.arm7_overlays@.len(),
        with_files(p).1.len() == p.files@.len(),
        0x8000 <= fnt_offset(p),
        fnt_offset(p) + p.name_table@.len() <= fat_offset(p),
        fat_offset(p) + 8 * fat_count(p) <= banner_offset(p),
        with_files(p).0.len() == with_fat(p).len(),
        banner_offset(p) <= with_fat(p).len() <= nds_room(p) - 4,
        with_fat(p).subrange(fnt_offset(p), fnt_offset(p) + p.name_table@.len()) == p.name_table@,
        with_files(p).0.subrange(fnt_offset(p), fnt_offset(p) + p.name_table@.len()) == p.name_table@,
        ({
            let s = fill_to(fill_to(with_overlays7(p).0, fnt_offset(p), 0) + p.name_table@, banner_offset(p), 0xFF) + p.banner@;
            &&& with_files(p) == files_put(s, contents(p.files@))
            &&& s.len() >= banner_offset(p)
            &&& s.len() + files_room(contents(p.files@)) <= nds_room(p) - 4
            &&& s.subrange(fnt_offset(p), fnt_offset(p) + p.name_table@.len()) == p.name_table@
        }),
{
    reveal(with_overlays9);
    reveal(with_arm7);
    reveal(with_overlays7);
    reveal(with_files);
    reveal(with_fat);
    lemma_set_bytes_all();
    lemma_room_nonneg(contents(p.arm9_overlays@));
    lemma_room_nonneg(contents(p.arm7_overlays@));
    lemma_room_nonneg(contents(p.files@));
    let a9 = with_arm9(p);
    lemma_next_multiple(a9.len() as int, 0x200);
    let s9 = fill_to(a9, table9_offset(p), 0xFF) + p.arm9_overlay_table@;
    lemma_files_put_places(s9, contents(p.arm9_overlays@));
    let o9 = with_overlays9(p).0;
    lemma_next_multiple(o9.len() as int, 0x200);
    let a7 = with_arm7(p);
    lemma_next_multiple(a7.len() as int, 0x200);
    let s7 = fill_to(a7, table7_offset(p), 0xFF) + p.arm7_overlay_table@;
    lemma_files_put_places(s7, contents(p.arm7_overlays@));
    let o7 = with_overlays7(p).0;
    lemma_next_multiple(o7.len() as int, 0x200);
    let t = fill_to(o7, fnt_offset(p), 0) + p.name_table@;
    lemma_next_multiple(fnt_offset(p) + p.name_table@.len(), 0x200);
    lemma_next_multiple(fat_offset(p) + 8 * fat_count(p), 0x200);
    let s = fill_to(t, banner_offset(p), 0xFF) + p.banner@;
    assert(t.subrange(fnt_offset(p), fnt_offset(p) + p.name_table@.len()) =~= p.name_table@);
    assert(s.subrange(fnt_offset(p), fnt_offset(p) + p.name_table@.len()) =~= p.name_table@);
    lemma_files_put_places(s, contents(p.files@));
    let wf = with_files(p).0;
    assert(wf.subrange(fnt_offset(p), fnt_offset(p) + p.name_table@.len()) =~= p.name_table@) by {
        assert forall|i: int| 0 <= i < p.name_table@.len() implies wf.subrange(fnt_offset(p), fnt_offset(p) + p.name_table@.len())[i]
            == p.name_table@[i] by {
            assert(wf.subrange(0, s.len() as int)[fnt_offset(p) + i] == s[fnt_offset(p) + i]);
            assert(s.subrange(fnt_offset(p), fnt_offset(p) + p.name_table@.len())[i] == s[fnt_offset(p) + i]);
        }
    }
    let es = with_overlays9(p).1 + with_overlays7(p).1 + with_files(p).1;
    lemma_fat_len(es);
    assert(es.len() == fat_count(p));
    let w = with_fat(p);
    assert(w.subrange(fnt_offset(p), fnt_offset(p) + p.name_table@.len()) =~= p.name_table@) by {
        assert forall|i: int| 0 <= i < p.name_table@.len() implies w.subrange(fnt_offset(p), fnt_offset(p) + p.name_table@.len())[i]
            == p.name_table@[i] by {
            assert(wf.subrange(fnt_offset(p), fnt_offset(p) + p.name_table@.len())[i] == wf[fnt_offset(p) + i]);
        }
    }
}

/// The header as written gives the places of the name table and the
/// allocation table, and the name table's size.
#[verifier::rlimit(100)]
proof fn lemma_header_fields(p: NdsParts)
    requires
        p.header@.len() >= 0x180,
        fnt_offset(p) <= u32::MAX,
        fat_offset(p) <= u32::MAX,
        p.name_table@.len() <= u32::MAX,
    ensures
        header_spec(p).len() == 0x180,
        u32_at(header_spec(p), 0x40) == fnt_offset(p),
        u32_at(header_spec(p), 0x44) == p.name_table@.len(),
        u32_at(header_spec(p), 0x48) == fat_offset(p),
{
    reveal(header_spec);
    reveal(header_second);
    reveal(header_first);
    lemma_set_bytes_all();
    let h = header_spec(p);
    let fo = fnt_offset(p) as u32;
    let nl = p.name_table@.len() as u32;
    let fa = fat_offset(p) as u32;
    lemma_u32_roundtrip(fo);
    lemma_u32_roundtrip(nl);
    lemma_u32_roundtrip(fa);
    assert(h[0x40] == le_bytes_u32(fo)[0] && h[0x41] == le_bytes_u32(fo)[1] && h[0x42] == le_bytes_u32(fo)[2] && h[0x43] == le_bytes_u32(fo)[3]);
    assert(h[0x44] == le_bytes_u32(nl)[0] && h[0x45] == le_bytes_u32(nl)[1] && h[0x46] == le_bytes_u32(nl)[2] && h[0x47] == le_bytes_u32(nl)[3]);
    assert(h[0x48] == le_bytes_u32(fa)[0] && h[0x49] == le_bytes_u32(fa)[1] && h[0x4A] == le_bytes_u32(fa)[2] && h[0x4B] == le_bytes_u32(fa)[3]);
}

/// The written rom's bytes from 0x180 on are those of the layout.
proof fn lemma_rom_body(p: NdsParts, q: int)
    requires
        nds_room(p) <= 0x7FFF_FFFC,
        nds_rom_spec(p) is Ok,
        0x180 <= q < with_fat(p).len(),
    ensures
        q < nds_rom_spec(p)->Ok_0.len(),
        nds_rom_spec(p)->Ok_0[q] == with_fat(p)[q],
{
    lemma_set_bytes_all();
    lemma_layout(p);
    lemma_header_fields(p);
    let end = crate::nds_build::size_fields_spec(with_fat(p).len() as u32).0;
    let f = fill_to(with_fat(p), end as int, 0);
    assert(f[q] == with_fat(p)[q]);
}

/// Reading back a written rom's name table: the header gives its place and
/// size, and the bytes there are the name table that was written.
pub proof fn lemma_rom_name_table_read_back(p: NdsParts)
    requires
        nds_room(p) <= 0x7FFF_FFFC,
        nds_rom_spec(p) is Ok,
    ensures
        ({
            let rom = nds_rom_spec(p)->Ok_0;
            let fnt = u32_at(rom, 0x40) as int;
            let size = u32_at(rom, 0x44) as int;
            &&& fnt + size <= rom.len()
            &&& rom.subrange(fnt, fnt + size) == p.name_table@
        }),
{
    let rom = nds_rom_spec(p)->Ok_0;
    lemma_set_bytes_all();
    lemma_layout(p);
    lemma_header_fields(p);
    let h = header_spec(p);
    assert(rom[0x40] == h[0x40] && rom[0x41] == h[0x41] && rom[0x42] == h[0x42] && rom[0x43] == h[0x43]);
    assert(rom[0x44] == h[0x44] && rom[0x45] == h[0x45] && rom[0x46] == h[0x46] && rom[0x47] == h[0x47]);
    let fo = fnt_offset(p);
    let n = p.name_table@.len() as int;
    if n > 0 {
        lemma_rom_body(p, fo + n - 1);
    }
    assert(rom.subrange(fo, fo + n) =~= p.name_table@) by {
        assert forall|i: int| 0 <= i < n implies rom.subrange(fo, fo + n)[i] == p.name_table@[i] by {
            lemma_rom_body(p, fo + i);
            assert(with_fat(p).subrange(fo, fo + n)[i] == with_fat(p)[fo + i]);
        }
    }
}

/// Reading back a written rom's file `k`: its entry in the allocation table,
/// after those of the overlays, gives where it starts and ends, and the bytes
/// there are the file's contents.
pub proof fn lemma_rom_file_read_back(p: NdsParts, k: int)
    requires
        nds_room(p) <= 0x7FFF_FFFC,
        nds_rom_spec(p) is Ok,
        0 <= k < p.files@.len(),
    ensures
        ({
            let rom = nds_rom_spec(p)->Ok_0;
            let e = u32_at(rom, 0x48) + 8 * (p.arm9_overlays@.len() + p.arm7_overlays@.len() + k);
            let top = u32_at(rom, e) as int;
            let bottom = u32_at(rom, e + 4) as int;
            &&& top <= bottom <= rom.len()
            &&& rom.subrange(top, bottom) == p.files@[k]@
        }),
{
    let rom = nds_rom_spec(p)->Ok_0;
    reveal(with_fat);
    lemma_set_bytes_all();
    lemma_layout(p);
    lemma_header_fields(p);
    let h = header_spec(p);
    assert(rom[0x48] == h[0x48] && rom[0x49] == h[0x49] && rom[0x4A] == h[0x4A] && rom[0x4B] == h[0x4B]);
    let fa = fat_offset(p);
    let n9 = p.arm9_overlays@.len() as int;
    let n7 = p.arm7_overlays@.len() as int;
    let j = n9 + n7 + k;
    let es = with_overlays9(p).1 + with_overlays7(p).1 + with_files(p).1;
    lemma_fat_bytes_read(es, j);
    let fb = fat_bytes(es);
    assert(es[j] == with_files(p).1[k]);
    let e = fa + 8 * j;
    let w = with_fat(p);
    lemma_rom_body(p, e);
    lemma_rom_body(p, e + 1);
    lemma_rom_body(p, e + 2);
    lemma_rom_body(p, e + 3);
    lemma_rom_body(p, e + 4);
    lemma_rom_body(p, e + 5);
    lemma_rom_body(p, e + 6);
    lemma_rom_body(p, e + 7);
    assert(rom[e] == fb[8 * j] && rom[e + 1] == fb[8 * j + 1] && rom[e + 2] == fb[8 * j + 2] && rom[e + 3] == fb[8 * j + 3]);
    assert(rom[e + 4] == fb[8 * j + 4] && rom[e + 5] == fb[8 * j + 5] && rom[e + 6] == fb[8 * j + 6] && rom[e + 7] == fb[8 * j + 7]);
    let sb = fill_to(fill_to(with_overlays7(p).0, fnt_offset(p), 0) + p.name_table@, banner_offset(p), 0xFF) + p.banner@;
    lemma_files_put_places(sb, contents(p.files@));
    let (top, bottom) = with_files(p).1[k];
    let data = p.files@[k]@;
    assert(contents(p.files@)[k] == data);
    let wf = with_files(p).0;
    assert(rom.subrange(top as int, bottom as int) =~= data) by {
        assert forall|i: int| 0 <= i < data.len() implies rom.subrange(top as int, bottom as int)[i] == data[i] by {
            lemma_rom_body(p, top + i);
            assert(wf.subrange(top as int, bottom as int)[i] == wf[top + i]);
        }
    }
    if data.len() > 0 {
        lemma_rom_body(p, bottom - 1);
    }
}

/// Each overlay lies in the written rom, before the name table, where its
/// place in the allocation table says.
proof fn lemma_overlays_placed(p: NdsParts)
    requires
        nds_room(p) <= 0x7FFF_FFFC,
    ensures
        forall|k: int| 0 <= k < p.arm9_overlays@.len() ==> {
            let (top, bottom) = #[trigger] with_overlays9(p).1[k];
            &&& 0x200 <= top <= bottom <= fnt_offset(p)
            &&& with_files(p).0.subrange(top as int, bottom as int) == p.arm9_overlays@[k]@
        },
        forall|k: int| 0 <= k < p.arm7_overlays@.len() ==> {
            let (top, bottom) = #[trigger] with_overlays7(p).1[k];
            &&& 0x200 <= top <= bottom <= fnt_offset(p)
            &&& with_files(p).0.subrange(top as int, bottom as int) == p.arm7_overlays@[k]@
        },
{
    reveal(with_overlays9);
    reveal(with_arm7);
    reveal(with_overlays7);
    reveal(with_files);
    lemma_layout(p);
    lemma_room_nonneg(contents(p.arm9_overlays@));
    lemma_room_nonneg(contents(p.arm7_overlays@));
    lemma_room_nonneg(contents(p.files@));
    let a9 = with_arm9(p);
    lemma_next_multiple(a9.len() as int, 0x200);
    let s9 = fill_to(a9, table9_offset(p), 0xFF) + p.arm9_overlay_table@;
    lemma_files_put_places(s9, contents(p.arm9_overlays@));
    let o9 = with_overlays9(p).0;
    lemma_next_multiple(o9.len() as int, 0x200);
    let a7 = with_arm7(p);
    lemma_next_multiple(a7.len() as int, 0x200);
    let s7 = fill_to(a7, table7_offset(p), 0xFF) + p.arm7_overlay_table@;
    lemma_files_put_places(s7, contents(p.arm7_overlays@));
    let o7 = with_overlays7(p).0;
    lemma_next_multiple(o7.len() as int, 0x200);
    let t = fill_to(o7, fnt_offset(p), 0) + p.name_table@;
    let sb = fill_to(t, banner_offset(p), 0xFF) + p.banner@;
    lemma_files_put_places(sb, contents(p.files@));
    let wf = with_files(p).0;
    assert forall|q: int| 0 <= q < o7.len() implies wf[q] == o7[q] by {
        assert(wf.subrange(0, sb.len() as int)[q] == sb[q]);
        assert(fill_to(t, banner_offset(p), 0xFF)[q] == t[q]);
        assert(fill_to(o7, fnt_offset(p), 0)[q] == o7[q]);
    }
    assert forall|q: int| 0 <= q < o9.len() implies o7[q] == o9[q] by {
        assert(o7.subrange(0, s7.len() as int)[q] == s7[q]);
        assert(fill_to(a7, table7_offset(p), 0xFF)[q] == a7[q]);
        assert(fill_to(o9, arm7_offset(p), 0xFF)[q] == o9[q]);
    }
    assert forall|k: int| 0 <= k < p.arm9_overlays@.len() implies {
        let (top, bottom) = #[trigger] with_overlays9(p).1[k];
        &&& 0x200 <= top <= bottom <= fnt_offset(p)
        &&& with_files(p).0.subrange(top as int, bottom as int) == p.arm9_overlays@[k]@
    } by {
        let (top, bottom) = with_overlays9(p).1[k];
        let data = contents(p.arm9_overlays@)[k];
        assert(s9.len() >= 0x200);
        assert forall|i: int| 0 <= i < data.len() implies wf.subrange(top as int, bottom as int)[i] == data[i] by {
            assert(o9.subrange(top as int, bottom as int)[i] == o9[top + i]);
        }
        assert(wf.subrange(top as int, bottom as int) =~= data);
    }
    assert forall|k: int| 0 <= k < p.arm7_overlays@.len() implies {
        let (top, bottom) = #[trigger] with_overlays7(p).1[k];
        &&& 0x200 <= top <= bottom <= fnt_offset(p)
        &&& with_files(p).0.subrange(top as int, bottom as int) == p.arm7_overlays@[k]@
    } by {
        let (top, bottom) = with_overlays7(p).1[k];
        let data = contents(p.arm7_overlays@)[k];
        assert(s7.len() >= 0x200);
        assert forall|i: int| 0 <= i < data.len() implies wf.subrange(top as int, bottom as int)[i] == data[i] by {
            assert(o7.subrange(top as int, bottom as int)[i] == o7[top + i]);
        }
        assert(wf.subrange(top as int, bottom as int) =~= data);
    }
}

/// Reading back a written rom's overlay `k`, counting the ARM9 overlays
/// first: its entry in the allocation table gives where it starts and ends,
/// and the bytes there are the overlay as it was given.
pub proof fn lemma_rom_overlay_read_back(p: NdsParts, k: int)
    requires
        nds_room(p) <= 0x7FFF_FFFC,
        nds_rom_spec(p) is Ok,
        0 <= k < p.arm9_overlays@.len() + p.arm7_overlays@.len(),
    ensures
        ({
            let rom = nds_rom_spec(p)->Ok_0;
            let e = u32_at(rom, 0x48) + 8 * k;
            let top = u32_at(rom, e) as int;
            let bottom = u32_at(rom, e + 4) as int;
            &&& top <= bottom <= rom.len()
            &&& rom.subrange(top, bottom) == if k < p.arm9_overlays@.len() {
                p.arm9_overlays@[k]@
            } else {
                p.arm7_overlays@[k - p.arm9_overlays@.len()]@
            }
        }),
{
    let rom = nds_rom_spec(p)->Ok_0;
    reveal(with_fat);
    lemma_set_bytes_all();
    lemma_layout(p);
    lemma_header_fields(p);
    lemma_overlays_placed(p);
    let h = header_spec(p);
    assert(rom[0x48] == h[0x48] && rom[0x49] == h[0x49] && rom[0x4A] == h[0x4A] && rom[0x4B] == h[0x4B]);
    let fa = fat_offset(p);
    let n9 = p.arm9_overlays@.len() as int;
    let es = with_overlays9(p).1 + with_overlays7(p).1 + with_files(p).1;
    lemma_fat_bytes_read(es, k);
    let fb = fat_bytes(es);
    let e = fa + 8 * k;
    lemma_rom_body(p, e);
    lemma_rom_body(p, e + 1);
    lemma_rom_body(p, e + 2);
    lemma_rom_body(p, e + 3);
    lemma_rom_body(p, e + 4);
    lemma_rom_body(p, e + 5);
    lemma_rom_body(p, e + 6);
    lemma_rom_body(p, e + 7);
    assert(rom[e] == fb[8 * k] && rom[e + 1] == fb[8 * k + 1] && rom[e + 2] == fb[8 * k + 2] && rom[e + 3] == fb[8 * k + 3]);
    assert(rom[e + 4] == fb[8 * k + 4] && rom[e + 5] == fb[8 * k + 5] && rom[e + 6] == fb[8 * k + 6] && rom[e + 7] == fb[8 * k + 7]);
    let (top, bottom) = es[k];
    let data = if k < n9 {
        assert(es[k] == with_overlays9(p).1[k]);
        p.arm9_overlays@[k]@
    } else {
        assert(es[k] == with_overlays7(p).1[k - n9]);
        p.arm7_overlays@[k - n9]@
    };
    let wf = with_files(p).0;
    assert(wf.subrange(top as int, bottom as int) == data);
    assert(rom.subrange(top as int, bottom as int) =~= data) by {
        assert forall|i: int| 0 <= i < data.len() implies rom.subrange(top as int, bottom as int)[i] == data[i] by {
            lemma_rom_body(p, top + i);
            assert(wf.subrange(top as int, bottom as int)[i] == wf[top + i]);
        }
    }
    if data.len() > 0 {
        lemma_rom_body(p, bottom - 1);
    }
}

/// The header as written gives the places of the ARM9 and ARM7 binaries and
/// their sizes rounded up to four bytes.
#[verifier::rlimit(100)]
proof fn lemma_header_binaries(p: NdsParts)
    requires
        p.header@.len() >= 0x180,
        arm7_offset(p) <= u32::MAX,
        0 <= arm9_size_spec(p.arm9@),
        next_multiple(arm9_size_spec(p.arm9@), 4) <= u32::MAX,
        next_multiple(p.arm7@.len() as int, 4) <= u32::MAX,
    ensures
        u32_at(header_spec(p), 0x20) == 0x200,
        u32_at(header_spec(p), 0x2C) == next_multiple(arm9_size_spec(p.arm9@), 4),
        u32_at(header_spec(p), 0x30) == arm7_offset(p),
        u32_at(header_spec(p), 0x3C) == next_multiple(p.arm7@.len() as int, 4),
{
    reveal(header_spec);
    reveal(header_second);
    reveal(header_first);
    lemma_set_bytes_all();
    let h = header_spec(p);
    let s9 = next_multiple(arm9_size_spec(p.arm9@), 4) as u32;
    let a7 = arm7_offset(p) as u32;
    let s7 = next_multiple(p.arm7@.len() as int, 4) as u32;
    lemma_u32_roundtrip(0x200);
    lemma_u32_roundtrip(s9);
    lemma_u32_roundtrip(a7);
    lemma_u32_roundtrip(s7);
    assert(h[0x20] == le_bytes_u32(0x200)[0] && h[0x21] == le_bytes_u32(0x200)[1] && h[0x22] == le_bytes_u32(0x200)[2] && h[0x23] == le_bytes_u32(0x200)[3]);
    assert(h[0x2C] == le_bytes_u32(s9)[0] && h[0x2D] == le_bytes_u32(s9)[1] && h[0x2E] == le_bytes_u32(s9)[2] && h[0x2F] == le_bytes_u32(s9)[3]);
    assert(h[0x30] == le_bytes_u32(a7)[0] && h[0x31] == le_bytes_u32(a7)[1] && h[0x32] == le_bytes_u32(a7)[2] && h[0x33] == le_bytes_u32(a7)[3]);
    assert(h[0x3C] == le_bytes_u32(s7)[0] && h[0x3D] == le_bytes_u32(s7)[1] && h[0x3E] == le_bytes_u32(s7)[2] && h[0x3F] == le_bytes_u32(s7)[3]);
}

/// The ARM9 binary lies at 0x200 and the ARM7 binary at its offset in the
/// written layout, both before the name table.
proof fn lemma_binaries_placed(p: NdsParts)
    requires
        nds_room(p) <= 0x7FFF_FFFC,
    ensures
        0x200 + p.arm9@.len() <= arm7_offset(p),
        arm7_offset(p) + p.arm7@.len() <= fnt_offset(p),
        forall|i: int| 0 <= i < p.arm9@.len() ==> with_files(p).0[0x200 + i] == #[trigger] p.arm9@[i],
        forall|i: int| 0 <= i < p.arm7@.len() ==> with_files(p).0[arm7_offset(p) + i] == #[trigger] p.arm7@[i],
{
    reveal(with_overlays9);
    reveal(with_arm7);
    reveal(with_overlays7);
    reveal(with_files);
    lemma_layout(p);
    lemma_room_nonneg(contents(p.arm9_overlays@));
    lemma_room_nonneg(contents(p.arm7_overlays@));
    lemma_room_nonneg(contents(p.files@));
    let a9 = with_arm9(p);
    lemma_next_multiple(a9.len() as int, 0x200);
    let s9 = fill_to(a9, table9_offset(p), 0xFF) + p.arm9_overlay_table@;
    lemma_files_put_places(s9, contents(p.arm9_overlays@));
    let o9 = with_overlays9(p).0;
    lemma_next_multiple(o9.len() as int, 0x200);
    let a7 = with_arm7(p);
    lemma_next_multiple(a7.len() as int, 0x200);
    let s7 = fill_to(a7, table7_offset(p), 0xFF) + p.arm7_overlay_table@;
    lemma_files_put_places(s7, contents(p.arm7_overlays@));
    let o7 = with_overlays7(p).0;
    lemma_next_multiple(o7.len() as int, 0x200);
    let t = fill_to(o7, fnt_offset(p), 0) + p.name_table@;
    let sb = fill_to(t, banner_offset(p), 0xFF) + p.banner@;
    lemma_files_put_places(sb, contents(p.files@));
    let wf = with_files(p).0;
    let q7 = arm7_offset(p);
    assert forall|q: int| 0 <= q < o7.len() implies wf[q] == o7[q] by {
        assert(wf.subrange(0, sb.len() as int)[q] == sb[q]);
        assert(fill_to(t, banner_offset(p), 0xFF)[q] == t[q]);
        assert(fill_to(o7, fnt_offset(p), 0)[q] == o7[q]);
    }
    assert forall|q: int| 0 <= q < a7.len() implies o7[q] == a7[q] by {
        assert(o7.subrange(0, s7.len() as int)[q] == s7[q]);
        assert(fill_to(a7, table7_offset(p), 0xFF)[q] == a7[q]);
    }
    assert forall|q: int| 0 <= q < o9.len() implies a7[q] == o9[q] by {
        assert(fill_to(o9, q7, 0xFF)[q] == o9[q]);
    }
    assert forall|q: int| 0 <= q < a9.len() implies o9[q] == a9[q] by {
        assert(o9.subrange(0, s9.len() as int)[q] == s9[q]);
        assert(fill_to(a9, table9_offset(p), 0xFF)[q] == a9[q]);
    }
    assert forall|i: int| 0 <= i < p.arm9@.len() implies wf[0x200 + i] == #[trigger] p.arm9@[i] by {
        assert(a9[0x200 + i] == p.arm9@[i]);
    }
    assert forall|i: int| 0 <= i < p.arm7@.len() implies wf[q7 + i] == #[trigger] p.arm7@[i] by {
        assert(a7[q7 + i] == p.arm7@[i]);
    }
}

/// Reading back a written rom's ARM9 and ARM7 binaries: the header gives
/// where each starts and its size rounded up to four bytes (for the ARM9
/// binary, without its footer), and the bytes there are the binaries as they
/// were given.
pub proof fn lemma_rom_binaries_read_back(p: NdsParts)
    requires
        nds_room(p) <= 0x7FFF_FFFC,
        nds_rom_spec(p) is Ok,
    ensures
        ({
            let rom = nds_rom_spec(p)->Ok_0;
            let p9 = u32_at(rom, 0x20) as int;
            let p7 = u32_at(rom, 0x30) as int;
            &&& p9 + p.arm9@.len() <= rom.len()
            &&& rom.subrange(p9, p9 + p.arm9@.len()) == p.arm9@
            &&& u32_at(rom, 0x2C) == next_multiple(arm9_size_spec(p.arm9@), 4)
            &&& p7 + p.arm7@.len() <= rom.len()
            &&& rom.subrange(p7, p7 + p.arm7@.len()) == p.arm7@
            &&& u32_at(rom, 0x3C) == next_multiple(p.arm7@.len() as int, 4)
        }),
{
    let rom = nds_rom_spec(p)->Ok_0;
    lemma_set_bytes_all();
    lemma_layout(p);
    lemma_binaries_placed(p);
    let n9 = p.arm9@.len() as int;
    let n7 = p.arm7@.len() as int;
    let q7 = arm7_offset(p);
    lemma_next_multiple(arm9_size_spec(p.arm9@), 4);
    lemma_next_multiple(n7, 4);
    lemma_header_binaries(p);
    lemma_header_fields(p);
    let h = header_spec(p);
    assert(rom[0x20] == h[0x20] && rom[0x21] == h[0x21] && rom[0x22] == h[0x22] && rom[0x23] == h[0x23]);
    assert(rom[0x2C] == h[0x2C] && rom[0x2D] == h[0x2D] && rom[0x2E] == h[0x2E] && rom[0x2F] == h[0x2F]);
    assert(rom[0x30] == h[0x30] && rom[0x31] == h[0x31] && rom[0x32] == h[0x32] && rom[0x33] == h[0x33]);
    assert(rom[0x3C] == h[0x3C] && rom[0x3D] == h[0x3D] && rom[0x3E] == h[0x3E] && rom[0x3F] == h[0x3F]);
    reveal(with_fat);
    let wf = with_files(p).0;
    let es = with_overlays9(p).1 + with_overlays7(p).1 + with_files(p).1;
    lemma_fat_len(es);
    assert forall|q: int| 0x200 <= q < fnt_offset(p) implies #[trigger] with_fat(p)[q] == wf[q] by {
        assert(fat_offset(p) + fat_bytes(es).len() <= wf.len());
    }
    assert(rom.subrange(0x200, 0x200 + n9) =~= p.arm9@) by {
        assert forall|i: int| 0 <= i < n9 implies rom.subrange(0x200, 0x200 + n9)[i] == p.arm9@[i] by {
            lemma_rom_body(p, 0x200 + i);
            assert(wf[0x200 + i] == p.arm9@[i]);
            assert(with_fat(p)[0x200 + i] == wf[0x200 + i]);
        }
    }
    assert(rom.subrange(q7, q7 + n7) =~= p.arm7@) by {
        assert forall|i: int| 0 <= i < n7 implies rom.subrange(q7, q7 + n7)[i] == p.arm7@[i] by {
            lemma_rom_body(p, q7 + i);
            assert(wf[q7 + i] == p.arm7@[i]);
            assert(with_fat(p)[q7 + i] == wf[q7 + i]);
        }
    }
    if n7 > 0 {
        lemma_rom_body(p, q7 + n7 - 1);
    }
    lemma_rom_body(p, 0x200 + n9 - 1);
}

} // verus!
