//! The file system of a DS rom: overlay tables, the directory tree, and its
//! name table (FNT) with the file positions it points into (FAT).
use vstd::prelude::*;
use crate::bytes::{le_bytes_u32, le_bytes_u16, push_u32_le};
use crate::text::{chars_of, string_of, push_decimal, dec_chars};
use vstd::utf8::encode_utf8;

verus! {

/// An entry of an overlay table.
#[derive(Debug, Clone, Copy, PartialEq, Eq)]
pub struct OverlayEntry {
    pub id: u32,
    pub ram_address: u32,
    pub ram_size: u32,
    pub bss_size: u32,
    pub sinit_init: u32,
    pub sinit_init_end: u32,
    pub file_id: u32,
    pub compressed_size_flag: u32,
}

impl OverlayEntry {
    /// Whether the overlay is stored compressed: the top byte of its size
    /// field is 3.
    pub fn is_compressed(&self) -> (r: bool)
        ensures
            r == (self.compressed_size_flag >> 24u32 == 3),
    {
        self.compressed_size_flag >> 24u32 == 3
    }
}

/// The decimal numeral of `n` with leading zeros to four digits.
pub open spec fn dec4_chars(n: nat) -> Seq<char> {
    let d = dec_chars(n);
    if d.len() < 4 {
        Seq::new((4 - d.len()) as nat, |_i: int| '0') + d
    } else {
        d
    }
}

/// The file name of an overlay: `overlay_` and its id with four digits, then `.bin`.
pub open spec fn overlay_name_spec(id: u32) -> Seq<char> {
    "overlay_"@ + dec4_chars(id as nat) + ".bin"@
}

/// The file name of an overlay.
pub fn format_overlay_string(overlay_entry: &OverlayEntry) -> (r: String)
    ensures
        r@ == overlay_name_spec(overlay_entry.id),
{
    let mut out = chars_of("overlay_");
    let mut d: Vec<char> = Vec::new();
    push_decimal(&mut d, overlay_entry.id as u64);
    assert(d@ =~= dec_chars(overlay_entry.id as nat));
    let ghost head = out@;
    if d.len() < 4 {
        let z = 4 - d.len();
        let mut k: usize = 0;
        while k < z
            invariant
                k <= z,
                out@ == head + Seq::new(k as nat, |_i: int| '0'),
            decreases z - k,
        {
            out.push('0');
            k = k + 1;
            assert(out@ =~= head + Seq::new(k as nat, |_i: int| '0'));
        }
    }
    out.append(&mut d);
    let mut tail = chars_of(".bin");
    out.append(&mut tail);
    assert(out@ =~= overlay_name_spec(overlay_entry.id));
    string_of(out.as_slice())
}

/// The path of an overlay's file, relative to the overlay directory.
pub fn format_overlay_name(overlay_entry: &OverlayEntry) -> (r: String)
    ensures
        r@ == overlay_name_spec(overlay_entry.id),
{
    format_overlay_string(overlay_entry)
}

/// The 32 bytes of an overlay entry.
pub open spec fn overlay_entry_bytes(e: OverlayEntry) -> Seq<u8> {
    le_bytes_u32(e.id) + le_bytes_u32(e.ram_address) + le_bytes_u32(e.ram_size) + le_bytes_u32(
        e.bss_size,
    ) + le_bytes_u32(e.sinit_init) + le_bytes_u32(e.sinit_init_end) + le_bytes_u32(e.file_id)
        + le_bytes_u32(e.compressed_size_flag)
}

/// The bytes of overlay entries, one after another.
pub open spec fn overlay_table_bytes(es: Seq<OverlayEntry>) -> Seq<u8>
    decreases es.len(),
{
    if es.len() == 0 {
        Seq::empty()
    } else {
        overlay_table_bytes(es.drop_last()) + overlay_entry_bytes(es.last())
    }
}

/// The bytes of an overlay table.
pub fn write_overlay_table(overlay_entries: &[OverlayEntry]) -> (r: Vec<u8>)
    ensures
        r@ == overlay_table_bytes(overlay_entries@),
{
    let mut out: Vec<u8> = Vec::new();
    let mut i: usize = 0;
    while i < overlay_entries.len()
        invariant
            i <= overlay_entries@.len(),
            out@ == overlay_table_bytes(overlay_entries@.take(i as int)),
        decreases overlay_entries@.len() - i,
    {
        let e = overlay_entries[i];
        push_u32_le(&mut out, e.id);
        push_u32_le(&mut out, e.ram_address);
        push_u32_le(&mut out, e.ram_size);
        push_u32_le(&mut out, e.bss_size);
        push_u32_le(&mut out, e.sinit_init);
        push_u32_le(&mut out, e.sinit_init_end);
        push_u32_le(&mut out, e.file_id);
        push_u32_le(&mut out, e.compressed_size_flag);
        assert(overlay_entries@.take(i + 1).drop_last() =~= overlay_entries@.take(i as int));
        i = i + 1;
        assert(out@ =~= overlay_table_bytes(overlay_entries@.take(i as int)));
    }
    assert(overlay_entries@.take(overlay_entries@.len() as int) =~= overlay_entries@);
    out
}

/// A file (no children) or directory of a rom's file system, by name.
#[derive(Debug)]
pub struct SourceTreeNode {
    pub name: String,
    pub children: Option<Vec<SourceTreeNode>>,
}

/// A file or directory of a rom: a file has its position and size in the rom.
pub struct RomTreeNode {
    pub name: String,
    pub pos: u32,
    pub size: u32,
    pub children: Option<Vec<RomTreeNode>>,
}

/// `s` has the same names and shape as `r`.
pub open spec fn same_tree(r: RomTreeNode, s: SourceTreeNode) -> bool
    decreases r,
{
    &&& s.name@ == r.name@
    &&& match (r.children, s.children) {
        (None, None) => true,
        (Some(rc), Some(sc)) => rc@.len() == sc@.len() && forall|i: int|
            0 <= i < rc@.len() ==> same_tree(#[trigger] rc@[i], sc@[i]),
        _ => false,
    }
}

impl RomTreeNode {
    /// The tree of names of this node.
    pub fn to_source_tree_node(&self) -> (r: SourceTreeNode)
        ensures
            same_tree(*self, r),
        decreases self,
    {
        let name = string_of(chars_of(self.name.as_str()).as_slice());
        match &self.children {
            None => SourceTreeNode { name, children: None },
            Some(cs) => {
                let mut out: Vec<SourceTreeNode> = Vec::new();
                let mut i: usize = 0;
                while i < cs.len()
                    invariant
                        i <= cs@.len(),
                        self.children == Some(*cs),
                        out@.len() == i,
                        forall|k: int| 0 <= k < i ==> same_tree(#[trigger] cs@[k], out@[k]),
                    decreases cs@.len() - i,
                {
                    proof {
                        let v = self.children->0;
                        assert(decreases_to!(*self => self.children));
                        assert(decreases_to!(self.children => v));
                        assert(decreases_to!(v => v@));
                        assert(decreases_to!(v@ => v@[i as int]));
                        assert(decreases_to!(*self => cs@[i as int]));
                    }
                    let c = cs[i].to_source_tree_node();
                    out.push(c);
                    i = i + 1;
                }
                SourceTreeNode { name, children: Some(out) }
            },
        }
    }

    /// The position and size of this file in the rom.
    pub fn pos_size(&self) -> (r: (u32, u32))
        ensures
            r == (self.pos, self.size),
    {
        (self.pos, self.size)
    }
}


/// Where the first `/` of `s` at or after `i` is.
pub open spec fn slash_from(s: Seq<char>, i: int) -> Option<int>
    decreases s.len() - i,
{
    if i < 0 || i >= s.len() {
        None
    } else if s[i] == '/' {
        Some(i)
    } else {
        slash_from(s, i + 1)
    }
}

/// A path split at its first `/`: the first name, and the rest if there is one.
pub open spec fn split_path(s: Seq<char>) -> (Seq<char>, Option<Seq<char>>) {
    match slash_from(s, 0) {
        Some(k) => (s.subrange(0, k), Some(s.subrange(k + 1, s.len() as int))),
        None => (s, None),
    }
}

/// The first of `cs` from `i` named `c`.
pub open spec fn first_named(cs: Seq<RomTreeNode>, c: Seq<char>, i: int) -> Option<int>
    decreases cs.len() - i,
{
    if i < 0 || i >= cs.len() {
        None
    } else if cs[i].name@ == c {
        Some(i)
    } else {
        first_named(cs, c, i + 1)
    }
}

/// The node at the path `name` below `node`: the node itself for no path;
/// else the first child named as the path's first name, searched for the
/// rest of the path.
pub open spec fn find_spec(node: RomTreeNode, name: Option<Seq<char>>) -> Option<RomTreeNode>
    decreases node,
{
    match name {
        None => Some(node),
        Some(n) => match node.children {
            None => None,
            Some(cs) => {
                let (c, rest) = split_path(n);
                match first_named(cs@, c, 0) {
                    None => None,
                    Some(k) => if 0 <= k < cs@.len() {
                        find_spec(cs@[k], rest)
                    } else {
                        None
                    },
                }
            },
        },
    }
}

/// The view of an optional name.
pub open spec fn opt_chars(o: Option<&str>) -> Option<Seq<char>> {
    match o {
        Some(s) => Some(s@),
        None => None,
    }
}

impl RomTreeNode {
    /// The node at the path `node_name` (names joined by `/`) below this one.
    pub fn find_node(&self, node_name: Option<&str>) -> (r: Option<&RomTreeNode>)
        ensures
            match r {
                Some(n) => find_spec(*self, opt_chars(node_name)) == Some(*n),
                None => find_spec(*self, opt_chars(node_name)) is None,
            },
        decreases self,
    {
        let name = match node_name {
            Some(n) => n,
            None => return Some(self),
        };
        let cs = match &self.children {
            Some(cs) => cs,
            None => return None,
        };
        let chars = chars_of(name);
        let n = chars.len();
        let mut k: usize = 0;
        while k < n && chars[k] != '/'
            invariant
                k <= n,
                n == chars@.len(),
                slash_from(chars@, 0) == slash_from(chars@, k as int),
            decreases n - k,
        {
            k = k + 1;
        }
        let child_name = crate::text::slice_chars(chars.as_slice(), 0, k);
        let rest: Option<String> = if k < n {
            Some(string_of(crate::text::slice_chars(chars.as_slice(), k + 1, n).as_slice()))
        } else {
            None
        };
        assert(split_path(name@).0 == child_name@);
        let ghost restv = split_path(name@).1;
        assert(restv == (match rest {
            Some(s) => Some(s@),
            None => None::<Seq<char>>,
        })) by {
            if k < n {
                assert(slash_from(chars@, k as int) == Some(k as int));
            }
        }
        let ghost whole = find_spec(*self, opt_chars(node_name));
        assert(whole == (match first_named(cs@, child_name@, 0) {
            None => None,
            Some(j) => if 0 <= j < cs@.len() {
                find_spec(cs@[j], restv)
            } else {
                None
            },
        }));
        let mut i: usize = 0;
        while i < cs.len()
            invariant
                i <= cs@.len(),
                self.children == Some(*cs),
                whole == find_spec(*self, opt_chars(node_name)),
                restv == (match rest {
                    Some(s) => Some(s@),
                    None => None::<Seq<char>>,
                }),
                whole == (match first_named(cs@, child_name@, 0) {
                    None => None,
                    Some(j) => if 0 <= j < cs@.len() {
                        find_spec(cs@[j], restv)
                    } else {
                        None
                    },
                }),
                first_named(cs@, child_name@, 0) == first_named(cs@, child_name@, i as int),
            decreases cs@.len() - i,
        {
            let cn = chars_of(cs[i].name.as_str());
            if crate::text::chars_eq(cn.as_slice(), child_name.as_slice()) {
                proof {
                    let v = self.children->0;
                    assert(decreases_to!(*self => self.children));
                    assert(decreases_to!(self.children => v));
                    assert(decreases_to!(v => v@));
                    assert(decreases_to!(v@ => v@[i as int]));
                }
                let r = match &rest {
                    Some(s) => cs[i].find_node(Some(s.as_str())),
                    None => cs[i].find_node(None),
                };
                return r;
            }
            i = i + 1;
        }
        None
    }
}


/// A node of the tree with directory ids: each directory numbered in
/// depth-first order, with the number of directories in it (itself
/// included).
pub struct IndexedTreeNode {
    pub name: String,
    pub children: Option<Vec<IndexedTreeNode>>,
    pub dir_id: u16,
    pub dir_count: u16,
}

/// The number of directories in `node`, itself included.
pub open spec fn dirs_in(node: SourceTreeNode) -> int
    decreases node,
{
    match node.children {
        None => 0,
        Some(cs) => 1 + dirs_in_list(cs@),
    }
}

/// The number of directories in the nodes `cs`.
pub open spec fn dirs_in_list(cs: Seq<SourceTreeNode>) -> int
    decreases cs,
{
    if cs.len() == 0 {
        0
    } else {
        dirs_in_list(cs.drop_last()) + dirs_in(cs.last())
    }
}

/// `out` is `src` with its directories numbered from `free` in depth-first
/// order.
pub open spec fn indexed(src: SourceTreeNode, free: int, out: IndexedTreeNode) -> bool
    decreases src,
{
    &&& out.name@ == src.name@
    &&& match (src.children, out.children) {
        (None, None) => out.dir_id == 0 && out.dir_count == 0,
        (Some(sc), Some(oc)) => out.dir_id == free && out.dir_count == 1 + dirs_in_list(sc@)
            && indexed_list(sc@, free + 1, oc@),
        _ => false,
    }
}

/// `oc` are the nodes `sc` numbered one after another from `free`.
pub open spec fn indexed_list(sc: Seq<SourceTreeNode>, free: int, oc: Seq<IndexedTreeNode>) -> bool
    decreases sc,
{
    &&& sc.len() == oc.len()
    &&& (sc.len() == 0 || (indexed_list(sc.drop_last(), free, oc.drop_last()) && indexed(
        sc.last(),
        free + dirs_in_list(sc.drop_last()),
        oc.last(),
    )))
}

pub proof fn lemma_dirs_nonneg(node: SourceTreeNode)
    ensures
        dirs_in(node) >= 0,
    decreases node,
{
    match node.children {
        None => {},
        Some(cs) => {
            assert(decreases_to!(node => node.children));
            lemma_dirs_list_nonneg(cs@);
        },
    }
}

pub proof fn lemma_dirs_list_nonneg(cs: Seq<SourceTreeNode>)
    ensures
        dirs_in_list(cs) >= 0,
    decreases cs,
{
    if cs.len() > 0 {
        lemma_dirs_list_nonneg(cs.drop_last());
        lemma_dirs_nonneg(cs.last());
    }
}

impl IndexedTreeNode {
    /// Numbers the directories of `node` from `*free_dir_id` in depth-first
    /// order, leaving it past the last number used.
    pub fn from_source_tree_node(node: &SourceTreeNode, free_dir_id: &mut u16) -> (r: IndexedTreeNode)
        requires
            *old(free_dir_id) + dirs_in(*node) <= 0xFFFF,
        ensures
            indexed(*node, *old(free_dir_id) as int, r),
            *final(free_dir_id) == *old(free_dir_id) + dirs_in(*node),
            r.dir_count == dirs_in(*node),
        decreases node,
    {
        let name = string_of(chars_of(node.name.as_str()).as_slice());
        match &node.children {
            None => IndexedTreeNode { name, children: None, dir_id: 0, dir_count: 0 },
            Some(cs) => {
                let dir_id = *free_dir_id;
                proof {
                    lemma_dirs_list_nonneg(cs@);
                }
                *free_dir_id = *free_dir_id + 1;
                let mut out: Vec<IndexedTreeNode> = Vec::new();
                let mut count: u16 = 1;
                let mut i: usize = 0;
                assert(cs@.take(0) =~= Seq::<SourceTreeNode>::empty());
                assert(out@ =~= Seq::<IndexedTreeNode>::empty());
                while i < cs.len()
                    invariant
                        i <= cs@.len(),
                        node.children == Some(*cs),
                        dir_id + 1 + dirs_in_list(cs@) <= 0xFFFF,
                        *free_dir_id == dir_id + 1 + dirs_in_list(cs@.take(i as int)),
                        count == 1 + dirs_in_list(cs@.take(i as int)),
                        indexed_list(cs@.take(i as int), dir_id + 1, out@),
                    decreases cs@.len() - i,
                {
                    proof {
                        let v = node.children->0;
                        assert(decreases_to!(*node => node.children));
                        assert(decreases_to!(node.children => v));
                        assert(decreases_to!(v => v@));
                        assert(decreases_to!(v@ => v@[i as int]));
                        assert(cs@.take(i + 1).drop_last() =~= cs@.take(i as int));
                        assert(cs@.take(i + 1).last() == cs@[i as int]);
                        lemma_dirs_prefix(cs@, i + 1);
                        lemma_dirs_nonneg(cs@[i as int]);
                    }
                    let c = IndexedTreeNode::from_source_tree_node(&cs[i], free_dir_id);
                    count = count + c.dir_count;
                    let ghost before = out@;
                    out.push(c);
                    proof {
                        assert(out@.drop_last() =~= before);
                    }
                    i = i + 1;
                }
                assert(cs@.take(cs@.len() as int) =~= cs@);
                IndexedTreeNode { name, children: Some(out), dir_id, dir_count: count }
            },
        }
    }
}

proof fn lemma_dirs_prefix(cs: Seq<SourceTreeNode>, i: int)
    requires
        0 <= i <= cs.len(),
    ensures
        dirs_in_list(cs.take(i)) <= dirs_in_list(cs),
    decreases cs.len() - i,
{
    if i < cs.len() {
        lemma_dirs_prefix(cs, i + 1);
        assert(cs.take(i + 1).drop_last() =~= cs.take(i));
        lemma_dirs_nonneg(cs.take(i + 1).last());
    } else {
        assert(cs.take(i) =~= cs);
    }
}


/// The bytes naming a node in its directory's list: the length of its UTF-8
/// name (7 bits) with bit 7 set for a directory, the name, and a directory's
/// id.
pub open spec fn entry_name_bytes(n: IndexedTreeNode) -> Seq<u8> {
    let nb = encode_utf8(n.name@);
    seq![((nb.len() as u8) & 0x7Fu8) | (if n.children is Some {
        0x80u8
    } else {
        0u8
    })] + nb + if n.children is Some {
        le_bytes_u16(n.dir_id)
    } else {
        Seq::empty()
    }
}

/// The name bytes of the nodes of `cs` that are directories (`dirs`) or
/// files (not `dirs`), in order.
pub open spec fn names_of(cs: Seq<IndexedTreeNode>, dirs: bool) -> Seq<u8>
    decreases cs.len(),
{
    if cs.len() == 0 {
        Seq::empty()
    } else {
        names_of(cs.drop_last(), dirs) + if (cs.last().children is Some) == dirs {
            entry_name_bytes(cs.last())
        } else {
            Seq::empty()
        }
    }
}

/// The number of files among `cs`.
pub open spec fn file_count(cs: Seq<IndexedTreeNode>) -> int
    decreases cs.len(),
{
    if cs.len() == 0 {
        0
    } else {
        file_count(cs.drop_last()) + if cs.last().children is None {
            1int
        } else {
            0
        }
    }
}

/// The directory entries and name lists of a subtree, with the next free name
/// position and file id.
pub type Dnt = (Seq<(u32, u16, u16)>, Seq<u8>, int, int);

/// The name table part of `node`: for a directory, its entry (where its list
/// starts, its first file id, its parent), its list (files, then
/// directories, then a zero byte), then those of its subdirectories in order.
pub open spec fn dnt(node: IndexedTreeNode, parent: int, pos: int, file: int) -> Dnt
    decreases node,
{
    match node.children {
        None => (Seq::empty(), Seq::empty(), pos, file),
        Some(cs) => {
            let own = names_of(cs@, false) + names_of(cs@, true) + seq![0u8];
            let rest = dnt_list(cs@, node.dir_id as int, pos + own.len(), file + file_count(cs@));
            (seq![(pos as u32, file as u16, parent as u16)] + rest.0, own + rest.1, rest.2, rest.3)
        },
    }
}

/// The name table parts of the nodes `cs` one after another.
pub open spec fn dnt_list(cs: Seq<IndexedTreeNode>, parent: int, pos: int, file: int) -> Dnt
    decreases cs,
{
    if cs.len() == 0 {
        (Seq::empty(), Seq::empty(), pos, file)
    } else {
        let a = dnt_list(cs.drop_last(), parent, pos, file);
        let b = dnt(cs.last(), parent, a.2, a.3);
        (a.0 + b.0, a.1 + b.1, b.2, b.3)
    }
}

pub proof fn lemma_file_count_nonneg(cs: Seq<IndexedTreeNode>)
    ensures
        file_count(cs) >= 0,
    decreases cs.len(),
{
    if cs.len() > 0 {
        lemma_file_count_nonneg(cs.drop_last());
    }
}

pub proof fn lemma_dnt_grows(node: IndexedTreeNode, parent: int, pos: int, file: int)
    ensures
        dnt(node, parent, pos, file).2 >= pos,
        dnt(node, parent, pos, file).3 >= file,
    decreases node,
{
    match node.children {
        None => {},
        Some(cs) => {
            assert(decreases_to!(node => node.children));
            let own = names_of(cs@, false) + names_of(cs@, true) + seq![0u8];
            lemma_file_count_nonneg(cs@);
            lemma_dnt_list_grows(cs@, node.dir_id as int, pos + own.len(), file + file_count(cs@));
        },
    }
}

pub proof fn lemma_dnt_list_grows(cs: Seq<IndexedTreeNode>, parent: int, pos: int, file: int)
    ensures
        dnt_list(cs, parent, pos, file).2 >= pos,
        dnt_list(cs, parent, pos, file).3 >= file,
    decreases cs,
{
    if cs.len() > 0 {
        lemma_dnt_list_grows(cs.drop_last(), parent, pos, file);
        let a = dnt_list(cs.drop_last(), parent, pos, file);
        lemma_dnt_grows(cs.last(), parent, a.2, a.3);
    }
}

fn push_entry_name(out: &mut Vec<u8>, n: &IndexedTreeNode)
    ensures
        final(out)@ == old(out)@ + entry_name_bytes(*n),
{
    let nb = n.name.as_str().as_bytes();
    let first: u8 = ((nb.len() as u8) & 0x7F) | if n.children.is_some() {
        0x80u8
    } else {
        0u8
    };
    out.push(first);
    crate::bytes::extend_bytes(out, nb);
    if n.children.is_some() {
        crate::bytes::push_u16_le(out, n.dir_id);
    }
    assert(final(out)@ =~= old(out)@ + entry_name_bytes(*n));
}

fn push_names(out: &mut Vec<u8>, cs: &Vec<IndexedTreeNode>, dirs: bool)
    ensures
        final(out)@ == old(out)@ + names_of(cs@, dirs),
{
    let mut i: usize = 0;
    while i < cs.len()
        invariant
            i <= cs@.len(),
            out@ == old(out)@ + names_of(cs@.take(i as int), dirs),
        decreases cs@.len() - i,
    {
        assert(cs@.take(i + 1).drop_last() =~= cs@.take(i as int));
        assert(cs@.take(i + 1).last() == cs@[i as int]);
        let ghost before = out@;
        if cs[i].children.is_some() == dirs {
            push_entry_name(out, &cs[i]);
        }
        i = i + 1;
        assert(out@ =~= old(out)@ + names_of(cs@.take(i as int), dirs));
    }
    assert(cs@.take(cs@.len() as int) =~= cs@);
}

impl IndexedTreeNode {
    /// The name table part of this directory (`None` for a file), its list
    /// starting at `*free_name_bytes_pos` and its first file id being
    /// `*free_file_id`; both are left past what it uses.
    pub fn dir_name_table(&self, parent_id: u16, free_name_bytes_pos: &mut u32, free_file_id: &mut u16) -> (r: Option<
        (Vec<(u32, u16, u16)>, Vec<u8>),
    >)
        requires
            dnt(*self, parent_id as int, *old(free_name_bytes_pos) as int, *old(free_file_id) as int).2 <= u32::MAX,
            dnt(*self, parent_id as int, *old(free_name_bytes_pos) as int, *old(free_file_id) as int).3 <= u16::MAX,
        ensures
            ({
                let d = dnt(*self, parent_id as int, *old(free_name_bytes_pos) as int, *old(free_file_id) as int);
                &&& *final(free_name_bytes_pos) == d.2
                &&& *final(free_file_id) == d.3
                &&& match r {
                    Some((dd, nd)) => self.children is Some && dd@ == d.0 && nd@ == d.1,
                    None => self.children is None,
                }
            }),
        decreases self,
    {
        let cs = match &self.children {
            Some(cs) => cs,
            None => return None,
        };
        let ghost pos0 = *free_name_bytes_pos as int;
        let ghost file0 = *free_file_id as int;
        let mut dir_data: Vec<(u32, u16, u16)> = Vec::new();
        dir_data.push((*free_name_bytes_pos, *free_file_id, parent_id));
        let mut name_data: Vec<u8> = Vec::new();
        push_names(&mut name_data, cs, false);
        push_names(&mut name_data, cs, true);
        name_data.push(0);
        let ghost own = name_data@;
        assert(own =~= names_of(cs@, false) + names_of(cs@, true) + seq![0u8]);
        let ghost whole = dnt(*self, parent_id as int, pos0, file0);
        proof {
            lemma_file_count_nonneg(cs@);
            lemma_dnt_list_grows(cs@, self.dir_id as int, pos0 + own.len(), file0 + file_count(cs@));
        }
        *free_name_bytes_pos = *free_name_bytes_pos + name_data.len() as u32;
        let mut files: u16 = 0;
        let mut j: usize = 0;
        while j < cs.len()
            invariant
                j <= cs@.len(),
                file0 + file_count(cs@) <= u16::MAX,
                0 <= file0,
                files == file_count(cs@.take(j as int)),
                files <= file_count(cs@),
            decreases cs@.len() - j,
        {
            assert(cs@.take(j + 1).drop_last() =~= cs@.take(j as int));
            assert(cs@.take(j + 1).last() == cs@[j as int]);
            proof {
                lemma_file_count_prefix(cs@, j + 1);
            }
            if cs[j].children.is_none() {
                assert(file_count(cs@.take(j + 1)) == files + 1);
                assert(files + 1 <= file_count(cs@));
                files = files + 1;
            }
            j = j + 1;
        }
        assert(cs@.take(cs@.len() as int) =~= cs@);
        *free_file_id = *free_file_id + files;
        let ghost start_pos = *free_name_bytes_pos as int;
        let ghost start_file = *free_file_id as int;
        let mut i: usize = 0;
        assert(cs@.take(0) =~= Seq::<IndexedTreeNode>::empty());
        while i < cs.len()
            invariant
                i <= cs@.len(),
                self.children == Some(*cs),
                dnt_list(cs@, self.dir_id as int, start_pos, start_file).2 <= u32::MAX,
                dnt_list(cs@, self.dir_id as int, start_pos, start_file).3 <= u16::MAX,
                ({
                    let a = dnt_list(cs@.take(i as int), self.dir_id as int, start_pos, start_file);
                    &&& dir_data@ == seq![(pos0 as u32, file0 as u16, parent_id)] + a.0
                    &&& name_data@ == own + a.1
                    &&& *free_name_bytes_pos == a.2
                    &&& *free_file_id == a.3
                }),
            decreases cs@.len() - i,
        {
            proof {
                let v = self.children->0;
                assert(decreases_to!(*self => self.children));
                assert(decreases_to!(self.children => v));
                assert(decreases_to!(v => v@));
                assert(decreases_to!(v@ => v@[i as int]));
                assert(cs@.take(i + 1).drop_last() =~= cs@.take(i as int));
                assert(cs@.take(i + 1).last() == cs@[i as int]);
                lemma_dnt_list_prefix(cs@, self.dir_id as int, start_pos, start_file, i + 1);
                let a = dnt_list(cs@.take(i as int), self.dir_id as int, start_pos, start_file);
                lemma_dnt_grows(cs@[i as int], self.dir_id as int, a.2, a.3);
            }
            let ghost before_d = dir_data@;
            let ghost before_n = name_data@;
            match cs[i].dir_name_table(self.dir_id, free_name_bytes_pos, free_file_id) {
                Some((cd, cn)) => {
                    let mut cd = cd;
                    let mut cn = cn;
                    dir_data.append(&mut cd);
                    name_data.append(&mut cn);
                },
                None => {},
            }
            proof {
                let a = dnt_list(cs@.take(i as int), self.dir_id as int, start_pos, start_file);
                let b = dnt(cs@[i as int], self.dir_id as int, a.2, a.3);
                if cs@[i as int].children is None {
                    assert(b.0 =~= Seq::<(u32, u16, u16)>::empty());
                    assert(b.1 =~= Seq::<u8>::empty());
                }
                assert(dir_data@ =~= seq![(pos0 as u32, file0 as u16, parent_id)] + (a.0 + b.0));
                assert(name_data@ =~= own + (a.1 + b.1));
            }
            i = i + 1;
        }
        assert(cs@.take(cs@.len() as int) =~= cs@);
        Some((dir_data, name_data))
    }

    /// The name table of this root directory: its directory entries (where each
    /// list starts, the first file id, the parent, or for the root the number
    /// of directories) and the lists. File ids start at `*free_file_id`; it is
    /// left past the last one.
    pub fn name_table(&self, free_file_id: &mut u16) -> (r: (Vec<(u32, u16, u16)>, Vec<u8>))
        requires
            self.children is Some,
            dnt(*self, self.dir_count as int, 8 * self.dir_count, *old(free_file_id) as int).2 <= u32::MAX,
            dnt(*self, self.dir_count as int, 8 * self.dir_count, *old(free_file_id) as int).3 <= u16::MAX,
        ensures
            ({
                let d = dnt(*self, self.dir_count as int, 8 * self.dir_count, *old(free_file_id) as int);
                &&& r.0@ == d.0
                &&& r.1@ == d.1
                &&& *final(free_file_id) == d.3
            }),
    {
        let mut free_pos: u32 = 8 * (self.dir_count as u32);
        match self.dir_name_table(self.dir_count, &mut free_pos, free_file_id) {
            Some(t) => t,
            None => {
                assert(false);
                (Vec::new(), Vec::new())
            },
        }
    }
}

proof fn lemma_file_count_prefix(cs: Seq<IndexedTreeNode>, i: int)
    requires
        0 <= i <= cs.len(),
    ensures
        file_count(cs.take(i)) <= file_count(cs),
    decreases cs.len() - i,
{
    if i < cs.len() {
        lemma_file_count_prefix(cs, i + 1);
        assert(cs.take(i + 1).drop_last() =~= cs.take(i));
    } else {
        assert(cs.take(i) =~= cs);
    }
}

proof fn lemma_dnt_list_prefix(cs: Seq<IndexedTreeNode>, parent: int, pos: int, file: int, i: int)
    requires
        0 <= i <= cs.len(),
    ensures
        dnt_list(cs.take(i), parent, pos, file).2 <= dnt_list(cs, parent, pos, file).2,
        dnt_list(cs.take(i), parent, pos, file).3 <= dnt_list(cs, parent, pos, file).3,
    decreases cs.len() - i,
{
    if i < cs.len() {
        lemma_dnt_list_prefix(cs, parent, pos, file, i + 1);
        assert(cs.take(i + 1).drop_last() =~= cs.take(i));
        let a = dnt_list(cs.take(i), parent, pos, file);
        lemma_dnt_grows(cs.take(i + 1).last(), parent, a.2, a.3);
    } else {
        assert(cs.take(i) =~= cs);
    }
}

} // verus!
