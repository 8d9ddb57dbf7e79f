//! What reading a name table that was built from a tree gives back.
use vstd::prelude::*;
use crate::nds_tree::{SourceTreeNode, indexed, indexed_list, dirs_in, dirs_in_list, IndexedTreeNode, dnt, dnt_list, names_of, file_count, entry_name_bytes};
use crate::nds_rom::{Shape, RomOut, fnt_entries, fnt_dir, fnt_spec};
use crate::byte_roundtrip::{placed, lemma_placed_split, lemma_placed_byte, lemma_placed_u16};
use crate::bytes::{le_bytes_u16, le_bytes_u32, u16_at, u32_at, lemma_u16_roundtrip, lemma_u32_roundtrip};
use crate::nds_build::dir_entries_bytes;
use crate::byte_roundtrip::lemma_placed_u32;
use vstd::utf8::{encode_utf8, encode_utf8_valid_utf8, encode_utf8_decode_utf8};

verus! {

/// The number of directories in `t`, itself included.
pub open spec fn dir_total(t: IndexedTreeNode) -> int
    decreases t,
{
    match t.children {
        None => 0,
        Some(cs) => 1 + dir_total_list(cs@),
    }
}

/// The number of directories in the nodes `cs`.
pub open spec fn dir_total_list(cs: Seq<IndexedTreeNode>) -> int
    decreases cs,
{
    if cs.len() == 0 {
        0
    } else {
        dir_total_list(cs.drop_last()) + dir_total(cs.last())
    }
}

/// The directories of `t` are numbered from `free` in depth-first order.
pub open spec fn numbered(t: IndexedTreeNode, free: int) -> bool
    decreases t,
{
    match t.children {
        None => true,
        Some(cs) => t.dir_id == free && numbered_list(cs@, free + 1),
    }
}

/// The directories of the nodes `cs` are numbered one after another from
/// `free`.
pub open spec fn numbered_list(cs: Seq<IndexedTreeNode>, free: int) -> bool
    decreases cs,
{
    cs.len() == 0 || (numbered_list(cs.drop_last(), free) && numbered(cs.last(), free + dir_total_list(cs.drop_last())))
}

/// The sizes of a subtree's part of the name table: one directory entry for
/// each of its directories, its lists ending where the next part starts, and
/// file ids going up from `file`.
proof fn lemma_dnt_sizes(t: IndexedTreeNode, parent: int, pos: int, file: int)
    ensures
        dnt(t, parent, pos, file).0.len() == dir_total(t),
        dnt(t, parent, pos, file).2 == pos + dnt(t, parent, pos, file).1.len(),
        dnt(t, parent, pos, file).3 >= file,
        dir_total(t) >= 0,
    decreases t,
{
    match t.children {
        None => {},
        Some(cs) => {
            assert(decreases_to!(t => t.children));
            let own = names_of(cs@, false) + names_of(cs@, true) + seq![0u8];
            crate::nds_tree::lemma_file_count_nonneg(cs@);
            lemma_dnt_list_sizes(cs@, t.dir_id as int, pos + own.len(), file + file_count(cs@));
        },
    }
}

proof fn lemma_dnt_list_sizes(cs: Seq<IndexedTreeNode>, parent: int, pos: int, file: int)
    ensures
        dnt_list(cs, parent, pos, file).0.len() == dir_total_list(cs),
        dnt_list(cs, parent, pos, file).2 == pos + dnt_list(cs, parent, pos, file).1.len(),
        dnt_list(cs, parent, pos, file).3 >= file,
        dir_total_list(cs) >= 0,
    decreases cs,
{
    if cs.len() > 0 {
        lemma_dnt_list_sizes(cs.drop_last(), parent, pos, file);
        let a = dnt_list(cs.drop_last(), parent, pos, file);
        lemma_dnt_sizes(cs.last(), parent, a.2, a.3);
    }
}

/// The entries `pre` before what reading the rest of a list gives.
pub open spec fn then_prefix(pre: Seq<Shape>, r: RomOut<Seq<Shape>>) -> RomOut<Seq<Shape>> {
    match r {
        RomOut::Done(rest) => RomOut::Done(pre + rest),
        RomOut::Refused(x) => RomOut::Refused(x),
        RomOut::Fault => RomOut::Fault,
    }
}

proof fn lemma_then_prefix_twice(a: Seq<Shape>, b: Seq<Shape>, r: RomOut<Seq<Shape>>)
    ensures
        then_prefix(a, then_prefix(b, r)) == then_prefix(a + b, r),
{
    match r {
        RomOut::Done(rest) => {
            assert(a + (b + rest) =~= (a + b) + rest);
        },
        _ => {},
    }
}

/// A name that its list can hold: one to 127 bytes of UTF-8.
pub open spec fn name_fits(name: Seq<char>) -> bool {
    1 <= encode_utf8(name).len() <= 127
}

/// The files among `cs`, in order, as read with ids from `fid`: each with its
/// position and size in the allocation table.
pub open spec fn files_read(cs: Seq<IndexedTreeNode>, fid: int, fat: Seq<(u32, u32)>) -> Seq<Shape>
    decreases cs.len(),
{
    if cs.len() == 0 {
        Seq::empty()
    } else {
        let dl = cs.drop_last();
        files_read(dl, fid, fat) + if cs.last().children is None {
            let id = fid + file_count(dl);
            seq![Shape::File(cs.last().name@, fat[id].0, fat[id].1)]
        } else {
            Seq::empty()
        }
    }
}

/// Reading the list entries of the files of `cs` gives those files, then
/// what follows.
proof fn lemma_files_read(
    rom: Seq<u8>,
    fat: Seq<(u32, u32)>,
    off: int,
    cs: Seq<IndexedTreeNode>,
    p: int,
    fid: int,
    fuel: nat,
)
    requires
        placed(rom, p, names_of(cs, false)),
        forall|i: int| 0 <= i < cs.len() ==> name_fits(#[trigger] cs[i].name@),
        0 <= fid,
        fid + file_count(cs) <= fat.len(),
        fid + file_count(cs) <= 0xFFFE,
    ensures
        fnt_entries(rom, fat, off, p, fid, fuel) == then_prefix(
            files_read(cs, fid, fat),
            fnt_entries(rom, fat, off, p + names_of(cs, false).len(), fid + file_count(cs), fuel),
        ),
    decreases cs.len(),
{
    if cs.len() == 0 {
        match fnt_entries(rom, fat, off, p, fid, fuel) {
            RomOut::Done(rest) => {
                assert(Seq::<Shape>::empty() + rest =~= rest);
            },
            _ => {},
        }
    } else {
        let dl = cs.drop_last();
        let last = cs.last();
        let e = if last.children is None { entry_name_bytes(last) } else { Seq::<u8>::empty() };
        assert(names_of(cs, false) == names_of(dl, false) + e);
        lemma_placed_split(rom, p, names_of(dl, false), e);
        crate::nds_tree::lemma_file_count_nonneg(dl);
        assert forall|i: int| 0 <= i < dl.len() implies name_fits(#[trigger] dl[i].name@) by {
            assert(dl[i] == cs[i]);
        }
        lemma_files_read(rom, fat, off, dl, p, fid, fuel);
        let p1 = p + names_of(dl, false).len();
        let f1 = fid + file_count(dl);
        if last.children is None {
            assert(name_fits(cs[cs.len() - 1].name@));
            let nb = encode_utf8(last.name@);
            let len = nb.len() as int;
            let l8 = len as u8;
            assert(l8 == len);
            let b = (l8 & 0x7Fu8) | 0u8;
            assert(e == seq![b] + nb);
            assert(b == l8 && (b & 0x7Fu8) == l8 && b & 0x80u8 == 0u8) by (bit_vector)
                requires
                    b == (l8 & 0x7Fu8) | 0u8,
                    1 <= l8 <= 127;
            lemma_placed_split(rom, p1, seq![b], nb);
            lemma_placed_byte(rom, p1, seq![b], 0);
            assert(rom.subrange(p1 + 1, p1 + 1 + len) == nb);
            encode_utf8_valid_utf8(last.name@);
            encode_utf8_decode_utf8(last.name@);
            let f = Shape::File(last.name@, fat[f1].0, fat[f1].1);
            assert(fnt_entries(rom, fat, off, p1, f1, fuel) == then_prefix(
                seq![f],
                fnt_entries(rom, fat, off, p1 + 1 + len, f1 + 1, fuel),
            ));
            lemma_then_prefix_twice(files_read(dl, fid, fat), seq![f], fnt_entries(rom, fat, off, p1 + 1 + len, f1 + 1, fuel));
        } else {
            assert(files_read(cs, fid, fat) =~= files_read(dl, fid, fat));
            assert(e.len() == 0);
        }
    }
}

/// The bytes of directory entries one after another.
proof fn lemma_dir_entries_concat(a: Seq<(u32, u16, u16)>, b: Seq<(u32, u16, u16)>)
    ensures
        dir_entries_bytes(a + b) == dir_entries_bytes(a) + dir_entries_bytes(b),
        dir_entries_bytes(a).len() == 8 * a.len(),
    decreases b.len(),
{
    lemma_dir_entries_len(a);
    if b.len() == 0 {
        assert(a + b =~= a);
        assert(dir_entries_bytes(a) + dir_entries_bytes(b) =~= dir_entries_bytes(a));
    } else {
        lemma_dir_entries_concat(a, b.drop_last());
        assert((a + b).drop_last() =~= a + b.drop_last());
        assert((a + b).last() == b.last());
        let e = b.last();
        assert(dir_entries_bytes(a) + dir_entries_bytes(b) =~= dir_entries_bytes(a) + dir_entries_bytes(b.drop_last())
            + le_bytes_u32(e.0) + le_bytes_u16(e.1) + le_bytes_u16(e.2));
    }
}

proof fn lemma_dir_entries_len(a: Seq<(u32, u16, u16)>)
    ensures
        dir_entries_bytes(a).len() == 8 * a.len(),
    decreases a.len(),
{
    if a.len() > 0 {
        lemma_dir_entries_len(a.drop_last());
    }
}

/// Every name below `t` fits its list.
pub open spec fn names_fit(t: IndexedTreeNode) -> bool
    decreases t,
{
    match t.children {
        None => true,
        Some(cs) => names_fit_list(cs@),
    }
}

/// Every name of the nodes `cs` and below them fits its list.
pub open spec fn names_fit_list(cs: Seq<IndexedTreeNode>) -> bool
    decreases cs,
{
    cs.len() == 0 || (names_fit_list(cs.drop_last()) && name_fits(cs.last().name@) && names_fit(cs.last()))
}

proof fn lemma_names_fit_each(cs: Seq<IndexedTreeNode>)
    requires
        names_fit_list(cs),
    ensures
        forall|i: int| 0 <= i < cs.len() ==> name_fits(#[trigger] cs[i].name@),
    decreases cs.len(),
{
    if cs.len() > 0 {
        lemma_names_fit_each(cs.drop_last());
        assert forall|i: int| 0 <= i < cs.len() implies name_fits(#[trigger] cs[i].name@) by {
            if i < cs.len() - 1 {
                assert(cs[i] == cs.drop_last()[i]);
            }
        }
    }
}

/// The number of directories among `cs`.
pub open spec fn dir_count(cs: Seq<IndexedTreeNode>) -> int {
    cs.len() - file_count(cs)
}

proof fn lemma_dir_count(cs: Seq<IndexedTreeNode>)
    ensures
        0 <= dir_count(cs) <= dir_total_list(cs),
    decreases cs.len(),
{
    if cs.len() > 0 {
        lemma_dir_count(cs.drop_last());
        lemma_dnt_list_sizes(cs, 0, 0, 0);
        lemma_dnt_list_sizes(cs.drop_last(), 0, 0, 0);
        lemma_dnt_sizes(cs.last(), 0, 0, 0);
    }
}

/// The directory `t` as its name table gives it back: named `name`, its
/// files with the ids that the table gives them, then its directories.
pub open spec fn tree_read(t: IndexedTreeNode, name: Seq<char>, parent: int, pos: int, file: int, fat: Seq<(u32, u32)>) -> Shape
    decreases t,
{
    match t.children {
        None => Shape::Dir(name, Seq::empty()),
        Some(cs) => {
            let own = names_of(cs@, false) + names_of(cs@, true) + seq![0u8];
            Shape::Dir(
                name,
                files_read(cs@, file, fat) + dirs_read(cs@, t.dir_id as int, pos + own.len(), file + file_count(cs@), fat),
            )
        },
    }
}

/// The directories among `cs` as the name table gives them back.
pub open spec fn dirs_read(cs: Seq<IndexedTreeNode>, parent: int, pos: int, file: int, fat: Seq<(u32, u32)>) -> Seq<Shape>
    decreases cs,
{
    if cs.len() == 0 {
        Seq::empty()
    } else {
        let dl = cs.drop_last();
        let a = dnt_list(dl, parent, pos, file);
        dirs_read(dl, parent, pos, file, fat) + if cs.last().children is Some {
            seq![tree_read(cs.last(), cs.last().name@, parent, a.2, a.3, fat)]
        } else {
            Seq::empty()
        }
    }
}

/// Reading directory `t` from its name table, laid out in `rom` at `off`,
/// gives it back.
proof fn lemma_dir_read(
    rom: Seq<u8>,
    fat: Seq<(u32, u32)>,
    off: int,
    t: IndexedTreeNode,
    parent: int,
    pos: int,
    file: int,
    name: Seq<char>,
    fuel: nat,
)
    requires
        t.children is Some,
        numbered(t, t.dir_id as int),
        names_fit(t),
        0xF000 <= t.dir_id,
        t.dir_id + dir_total(t) <= 0xF000 + 4096,
        dir_total(t) <= fuel + 1,
        0 <= off,
        0 <= pos,
        0 <= file,
        placed(rom, off + 8 * (t.dir_id - 0xF000), dir_entries_bytes(dnt(t, parent, pos, file).0)),
        placed(rom, off + pos, dnt(t, parent, pos, file).1),
        off + 8 * (t.dir_id - 0xF000 + dir_total(t)) <= u32::MAX,
        off + pos + dnt(t, parent, pos, file).1.len() <= u32::MAX,
        dnt(t, parent, pos, file).3 <= fat.len(),
        dnt(t, parent, pos, file).3 + dir_total(t) <= 0xFFFE,
        0 <= parent <= 0xFFFF,
    ensures
        fnt_dir(rom, fat, off, t.dir_id as int, name, fuel) == RomOut::Done(tree_read(t, name, parent, pos, file, fat)),
    decreases t, 1int,
{
    let cs = t.children->0;
    assert(decreases_to!(t => t.children));
    let d = dnt(t, parent, pos, file);
    let own = names_of(cs@, false) + names_of(cs@, true) + seq![0u8];
    let fc = file_count(cs@);
    crate::nds_tree::lemma_file_count_nonneg(cs@);
    let rest = dnt_list(cs@, t.dir_id as int, pos + own.len(), file + fc);
    lemma_dnt_list_sizes(cs@, t.dir_id as int, pos + own.len(), file + fc);
    lemma_dnt_sizes(t, parent, pos, file);
    assert(d.0 == seq![(pos as u32, file as u16, parent as u16)] + rest.0);
    assert(d.1 == own + rest.1);
    assert(d.3 == rest.3);
    // the directory's entry
    let id = t.dir_id as int;
    assert(id % 4096 == id - 0xF000);
    let e = off + 8 * (id - 0xF000);
    lemma_dir_entries_concat(seq![(pos as u32, file as u16, parent as u16)], rest.0);
    let ob = dir_entries_bytes(seq![(pos as u32, file as u16, parent as u16)]);
    assert(seq![(pos as u32, file as u16, parent as u16)].drop_last() =~= Seq::<(u32, u16, u16)>::empty());
    assert(ob =~= le_bytes_u32(pos as u32) + le_bytes_u16(file as u16) + le_bytes_u16(parent as u16));
    lemma_placed_split(rom, e, ob, dir_entries_bytes(rest.0));
    lemma_placed_split(rom, e, le_bytes_u32(pos as u32) + le_bytes_u16(file as u16), le_bytes_u16(parent as u16));
    lemma_placed_split(rom, e, le_bytes_u32(pos as u32), le_bytes_u16(file as u16));
    lemma_placed_u32(rom, e, le_bytes_u32(pos as u32), 0);
    lemma_u32_roundtrip(pos as u32);
    lemma_placed_u16(rom, e + 4, le_bytes_u16(file as u16), 0);
    lemma_u16_roundtrip(file as u16);
    assert(u32_at(rom, e) == pos);
    assert(u16_at(rom, e + 4) == file);
    // the directory's list: its files, its directories, a zero byte
    let p = off + pos;
    lemma_placed_split(rom, p, own, rest.1);
    lemma_placed_split(rom, p, names_of(cs@, false) + names_of(cs@, true), seq![0u8]);
    lemma_placed_split(rom, p, names_of(cs@, false), names_of(cs@, true));
    lemma_names_fit_each(cs@);
    lemma_files_read(rom, fat, off, cs@, p, file, fuel);
    let p2 = p + names_of(cs@, false).len();
    lemma_dir_count(cs@);
    lemma_dirs_read(rom, fat, off, cs@, id, pos + own.len(), file + fc, id + 1, p2, file + fc, fuel);
    let p3 = p2 + names_of(cs@, true).len();
    lemma_placed_byte(rom, p3, seq![0u8], 0);
    assert(rom[p3] == 0u8);
    assert((0u8 & 0x7Fu8) == 0u8) by (bit_vector);
    assert(file + fc <= 0xFFFE);
    assert(fnt_entries(rom, fat, off, p3, file + fc, fuel) == RomOut::Done(Seq::<Shape>::empty()));
    let fr = files_read(cs@, file, fat);
    let dr = dirs_read(cs@, id, pos + own.len(), file + fc, fat);
    assert(dr + Seq::<Shape>::empty() =~= dr);
    lemma_then_prefix_twice(fr, dr, RomOut::Done(Seq::<Shape>::empty()));
}

/// Reading the list entries of the directories of `cs` gives those
/// directories, each read from its own part of the name table, then what
/// follows.
proof fn lemma_dirs_read(
    rom: Seq<u8>,
    fat: Seq<(u32, u32)>,
    off: int,
    cs: Seq<IndexedTreeNode>,
    parent: int,
    pos0: int,
    file0: int,
    first_id: int,
    p: int,
    fid: int,
    fuel: nat,
)
    requires
        placed(rom, p, names_of(cs, true)),
        names_fit_list(cs),
        numbered_list(cs, first_id),
        0xF000 <= first_id,
        first_id + dir_total_list(cs) <= 0xF000 + 4096,
        dir_total_list(cs) <= fuel,
        0 <= off,
        0 <= pos0,
        0 <= file0,
        placed(rom, off + 8 * (first_id - 0xF000), dir_entries_bytes(dnt_list(cs, parent, pos0, file0).0)),
        placed(rom, off + pos0, dnt_list(cs, parent, pos0, file0).1),
        off + 8 * (first_id - 0xF000 + dir_total_list(cs)) <= u32::MAX,
        off + pos0 + dnt_list(cs, parent, pos0, file0).1.len() <= u32::MAX,
        dnt_list(cs, parent, pos0, file0).3 <= fat.len(),
        dnt_list(cs, parent, pos0, file0).3 + dir_total_list(cs) <= 0xFFFE,
        0 <= parent <= 0xFFFF,
        0 <= fid,
        fid <= 0xFFFE,
    ensures
        fnt_entries(rom, fat, off, p, fid, fuel) == then_prefix(
            dirs_read(cs, parent, pos0, file0, fat),
            fnt_entries(rom, fat, off, p + names_of(cs, true).len(), fid, fuel),
        ),
    decreases cs, 0int,
{
    if cs.len() == 0 {
        match fnt_entries(rom, fat, off, p, fid, fuel) {
            RomOut::Done(rest) => {
                assert(Seq::<Shape>::empty() + rest =~= rest);
            },
            _ => {},
        }
    } else {
        let dl = cs.drop_last();
        let last = cs.last();
        let a = dnt_list(dl, parent, pos0, file0);
        let b = dnt(last, parent, a.2, a.3);
        lemma_dnt_list_sizes(dl, parent, pos0, file0);
        lemma_dnt_sizes(last, parent, a.2, a.3);
        lemma_dnt_list_sizes(cs, parent, pos0, file0);
        assert(dnt_list(cs, parent, pos0, file0) == (a.0 + b.0, a.1 + b.1, b.2, b.3));
        lemma_dir_entries_concat(a.0, b.0);
        lemma_placed_split(rom, off + 8 * (first_id - 0xF000), dir_entries_bytes(a.0), dir_entries_bytes(b.0));
        lemma_placed_split(rom, off + pos0, a.1, b.1);
        let e = if last.children is Some { entry_name_bytes(last) } else { Seq::<u8>::empty() };
        assert(names_of(cs, true) == names_of(dl, true) + e);
        lemma_placed_split(rom, p, names_of(dl, true), e);
        lemma_dir_count(dl);
        lemma_dirs_read(rom, fat, off, dl, parent, pos0, file0, first_id, p, fid, fuel);
        let p1 = p + names_of(dl, true).len();
        let f1 = fid;
        assert(file_count(cs) == file_count(dl) + if last.children is None { 1int } else { 0int });
        if last.children is Some {
            let nb = encode_utf8(last.name@);
            let len = nb.len() as int;
            let l8 = len as u8;
            assert(l8 == len);
            let bb = (l8 & 0x7Fu8) | 0x80u8;
            assert(e == seq![bb] + nb + le_bytes_u16(last.dir_id));
            assert((bb & 0x7Fu8) == l8 && bb & 0x80u8 != 0u8) by (bit_vector)
                requires
                    bb == (l8 & 0x7Fu8) | 0x80u8,
                    1 <= l8 <= 127;
            lemma_placed_split(rom, p1, seq![bb] + nb, le_bytes_u16(last.dir_id));
            lemma_placed_split(rom, p1, seq![bb], nb);
            lemma_placed_byte(rom, p1, seq![bb], 0);
            lemma_placed_u16(rom, p1 + 1 + len, le_bytes_u16(last.dir_id), 0);
            lemma_u16_roundtrip(last.dir_id);
            assert(u16_at(rom, p1 + 1 + len) == last.dir_id);
            assert(rom.subrange(p1 + 1, p1 + 1 + len) == nb);
            encode_utf8_valid_utf8(last.name@);
            encode_utf8_decode_utf8(last.name@);
            assert(numbered(last, first_id + dir_total_list(dl)));
            assert(last.dir_id == first_id + dir_total_list(dl));
            assert(decreases_to!(cs => cs.last()));
            lemma_dir_read(rom, fat, off, last, parent, a.2, a.3, last.name@, (fuel - 1) as nat);
            let c = tree_read(last, last.name@, parent, a.2, a.3, fat);
            assert(fnt_entries(rom, fat, off, p1, f1, fuel) == then_prefix(
                seq![c],
                fnt_entries(rom, fat, off, p1 + 3 + len, f1, fuel),
            ));
            lemma_then_prefix_twice(dirs_read(dl, parent, pos0, file0, fat), seq![c], fnt_entries(rom, fat, off, p1 + 3 + len, f1, fuel));
        } else {
            assert(dirs_read(cs, parent, pos0, file0, fat) =~= dirs_read(dl, parent, pos0, file0, fat));
            assert(e.len() == 0);
        }
    }
}

/// A tree numbered by `indexed` is numbered depth-first, with as many
/// directories as its source.
proof fn lemma_indexed_numbered(src: SourceTreeNode, free: int, t: IndexedTreeNode)
    requires
        indexed(src, free, t),
    ensures
        numbered(t, free),
        dir_total(t) == dirs_in(src),
    decreases src,
{
    match (src.children, t.children) {
        (Some(sc), Some(oc)) => {
            assert(decreases_to!(src => src.children));
            lemma_indexed_numbered_list(sc@, free + 1, oc@);
        },
        _ => {},
    }
}

proof fn lemma_indexed_numbered_list(sc: Seq<SourceTreeNode>, free: int, oc: Seq<IndexedTreeNode>)
    requires
        indexed_list(sc, free, oc),
    ensures
        numbered_list(oc, free),
        dir_total_list(oc) == dirs_in_list(sc),
    decreases sc,
{
    if sc.len() > 0 {
        lemma_indexed_numbered_list(sc.drop_last(), free, oc.drop_last());
        lemma_indexed_numbered(sc.last(), free + dirs_in_list(sc.drop_last()), oc.last());
    }
}

/// Reading a name table built from a tree gives the tree back: the root
/// directory with, in each directory, its files (with their positions and
/// sizes from the allocation table, by the ids that the table gives them)
/// and then its directories, each under its own name. This holds when every
/// name takes one to 127 bytes of UTF-8 and the table, its offsets and the
/// file ids fit their fields.
pub proof fn lemma_name_table_read_back(
    src: SourceTreeNode,
    t: IndexedTreeNode,
    first_file_id: int,
    rom: Seq<u8>,
    off: int,
    fat: Seq<(u32, u32)>,
)
    requires
        src.children is Some,
        indexed(src, 0xF000, t),
        0xF000 + dirs_in(src) <= 0xFFFF,
        names_fit(t),
        0 <= first_file_id,
        0 <= off,
        ({
            let count = dirs_in(src);
            let d = dnt(t, count, 8 * count, first_file_id);
            &&& placed(rom, off, dir_entries_bytes(d.0) + d.1)
            &&& off + 8 * d.0.len() + d.1.len() <= u32::MAX
            &&& d.3 <= fat.len()
            &&& d.3 + count <= 0xFFFE
        }),
    ensures
        fnt_spec(rom, fat, off as u32) == RomOut::Done(
            tree_read(t, Seq::empty(), dirs_in(src), 8 * dirs_in(src), first_file_id, fat),
        ),
{
    let count = dirs_in(src);
    let d = dnt(t, count, 8 * count, first_file_id);
    lemma_indexed_numbered(src, 0xF000, t);
    lemma_dnt_sizes(t, count, 8 * count, first_file_id);
    lemma_dir_entries_len(d.0);
    assert(t.children is Some);
    assert(t.dir_id == 0xF000);
    lemma_placed_split(rom, off, dir_entries_bytes(d.0), d.1);
    assert(off + 8 * (t.dir_id - 0xF000) == off);
    lemma_dir_read(rom, fat, off, t, count, 8 * count, first_file_id, Seq::empty(), 4095);
}

} // verus!
