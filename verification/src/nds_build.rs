//! The values a rom is rebuilt with: load addresses of the binaries, the
//! name and allocation tables of the file system, and the size fields of the
//! header.
use vstd::prelude::*;
use crate::bytes::{next_multiple, push_u32_le, push_u16_le, le_bytes_u32, le_bytes_u16, extend_bytes};
use crate::nds_tree::{SourceTreeNode, IndexedTreeNode, dnt, dirs_in, indexed};

verus! {

/// A binary's entry and load address: a zero one takes the other's value, and
/// both zero give `default`.
pub open spec fn addresses_spec(entry: u32, ram: u32, default: u32) -> (u32, u32) {
    if entry == 0 && ram == 0 {
        (default, default)
    } else if entry == 0 {
        (ram, ram)
    } else if ram == 0 {
        (entry, entry)
    } else {
        (entry, ram)
    }
}

fn addresses(entry: u32, ram: u32, default: u32) -> (r: (u32, u32))
    ensures
        r == addresses_spec(entry, ram, default),
{
    if entry == 0 && ram == 0 {
        (default, default)
    } else if entry == 0 {
        (ram, ram)
    } else if ram == 0 {
        (entry, entry)
    } else {
        (entry, ram)
    }
}

/// The entry and load addresses of the ARM9 binary (0x02000000 by default).
pub fn arm9_addresses(entry: u32, ram: u32) -> (r: (u32, u32))
    ensures
        r == addresses_spec(entry, ram, 0x0200_0000),
{
    addresses(entry, ram, 0x0200_0000)
}

/// The entry and load addresses of the ARM7 binary (0x037F8000 by default).
pub fn arm7_addresses(entry: u32, ram: u32) -> (r: (u32, u32))
    ensures
        r == addresses_spec(entry, ram, 0x037F_8000),
{
    addresses(entry, ram, 0x037F_8000)
}

/// The least power of two that is at least `x`, searching up from `p`.
pub open spec fn pow2_at_least(x: int, p: int) -> int
    decreases (if 1 <= p < x {
        x - p
    } else {
        0
    }),
{
    if p >= x || p < 1 {
        p
    } else {
        pow2_at_least(x, 2 * p)
    }
}

/// The base-2 logarithm of a power of two `p`, counting from `k`.
pub open spec fn log2_from(p: int, q: int, k: int) -> int
    decreases (if 1 <= q < p {
        p - q
    } else {
        0
    }),
{
    if q >= p || q < 1 {
        k
    } else {
        log2_from(p, 2 * q, k + 1)
    }
}

/// The size fields of a rom whose data ends at `position`: the end of the
/// application, aligned to four bytes, and the device capacity: the power of
/// two above it (at least 128 KiB) as its logarithm less 17.
pub open spec fn size_fields_spec(position: u32) -> (u32, u8) {
    let end = next_multiple(position as int, 4);
    let p = pow2_at_least(end, 1);
    let cap_size = if p <= 0x20000 {
        0x20000
    } else {
        p
    };
    (end as u32, (log2_from(cap_size, 1, 0) - 17) as u8)
}

/// The end of the application and the device capacity for a rom whose data
/// ends at `position`.
pub fn size_fields(position: u32) -> (r: (u32, u8))
    requires
        next_multiple(position as int, 4) <= 0x8000_0000,
    ensures
        r == size_fields_spec(position),
{
    let end = crate::bytes::next_multiple_u32(position, 4).unwrap();
    let mut p: u64 = 1;
    while p < end as u64
        invariant
            1 <= p <= 0x1_0000_0000,
            end <= 0x8000_0000,
            pow2_at_least(end as int, 1) == pow2_at_least(end as int, p as int),
        decreases 0x1_0000_0000 - p,
    {
        p = p * 2;
    }
    let cap_size: u64 = if p <= 0x20000 {
        0x20000
    } else {
        p
    };
    let mut q: u64 = 1;
    let mut k: u64 = 0;
    while q < cap_size
        invariant
            1 <= q <= 0x2_0000_0000,
            cap_size <= 0x1_0000_0000,
            k <= 33,
            q as int == pow2(k as nat),
            log2_from(cap_size as int, 1, 0) == log2_from(cap_size as int, q as int, k as int),
        decreases 0x2_0000_0000 - q,
    {
        proof {
            lemma_pow2_bound(k as nat);
        }
        q = q * 2;
        k = k + 1;
    }
    proof {
        lemma_cap_log(cap_size as int, q as int, k as int);
        lemma_pow2_small(k as nat);
    }
    (end, (k - 17) as u8)
}

/// Two to the power `k`.
pub open spec fn pow2(k: nat) -> int
    decreases k,
{
    if k == 0 {
        1
    } else {
        2 * pow2((k - 1) as nat)
    }
}

proof fn lemma_pow2_bound(k: nat)
    ensures
        k >= 33 ==> pow2(k) >= 0x2_0000_0000,
    decreases k,
{
    if k > 33 {
        lemma_pow2_bound((k - 1) as nat);
    } else if k == 33 {
        assert(pow2(33) == 0x2_0000_0000) by {
            reveal_with_fuel(pow2, 34);
        }
    }
}

proof fn lemma_pow2_mono(a: nat, b: nat)
    requires
        a <= b,
    ensures
        1 <= pow2(a) <= pow2(b),
    decreases b,
{
    if a < b {
        lemma_pow2_mono(a, (b - 1) as nat);
    } else if a > 0 {
        lemma_pow2_mono((a - 1) as nat, (a - 1) as nat);
    }
}

proof fn lemma_pow2_small(k: nat)
    ensures
        k < 17 ==> pow2(k) < 0x20000,
{
    if k < 17 {
        lemma_pow2_mono(k, 16);
        assert(pow2(16) == 0x10000) by {
            reveal_with_fuel(pow2, 17);
        }
    }
}

proof fn lemma_cap_log(cap: int, q: int, k: int)
    requires
        q >= cap,
        q >= 1,
    ensures
        log2_from(cap, q, k) == k,
{
}

/// The directory table of a name table as bytes: each entry is where its
/// list starts (4 bytes), its first file id and its parent (2 bytes each).
pub open spec fn dir_entries_bytes(es: Seq<(u32, u16, u16)>) -> Seq<u8>
    decreases es.len(),
{
    if es.len() == 0 {
        Seq::empty()
    } else {
        dir_entries_bytes(es.drop_last()) + le_bytes_u32(es.last().0) + le_bytes_u16(es.last().1) + le_bytes_u16(
            es.last().2,
        )
    }
}

/// The file name table of a tree, with its size and the size of the
/// allocation table: directories numbered from 0xF000, files from
/// `first_file_id` (after the overlays).
pub fn add_name_table(root_node: &SourceTreeNode, first_file_id: u16) -> (r: (Vec<u8>, u32, u32))
    requires
        root_node.children is Some,
        0xF000 + dirs_in(*root_node) <= 0xFFFF,
        ({
            let count = dirs_in(*root_node);
            forall|t: IndexedTreeNode| #[trigger] indexed(*root_node, 0xF000, t) ==> {
                let d = dnt(t, count, 8 * count, first_file_id as int);
                &&& d.2 <= u32::MAX
                &&& d.3 <= u16::MAX
                &&& 8 * d.0.len() + d.1.len() <= u32::MAX
            }
        }),
    ensures
        exists|t: IndexedTreeNode|
            #[trigger] indexed(*root_node, 0xF000, t) && {
                let count = dirs_in(*root_node);
                let d = dnt(t, count, 8 * count, first_file_id as int);
                &&& r.0@ == dir_entries_bytes(d.0) + d.1
                &&& r.1 == 8 * d.0.len() + d.1.len()
                &&& r.2 == 8 * d.3
            },
{
    let mut free_dir_id: u16 = 0xF000;
    let t = IndexedTreeNode::from_source_tree_node(root_node, &mut free_dir_id);
    assert(t.children is Some);
    let mut free_file_id: u16 = first_file_id;
    let (dir_data, name_data) = t.name_table(&mut free_file_id);
    let mut out: Vec<u8> = Vec::new();
    let mut i: usize = 0;
    while i < dir_data.len()
        invariant
            i <= dir_data@.len(),
            out@ == dir_entries_bytes(dir_data@.take(i as int)),
        decreases dir_data@.len() - i,
    {
        let (a, b, c) = dir_data[i];
        push_u32_le(&mut out, a);
        push_u16_le(&mut out, b);
        push_u16_le(&mut out, c);
        assert(dir_data@.take(i + 1).drop_last() =~= dir_data@.take(i as int));
        i = i + 1;
    }
    assert(dir_data@.take(dir_data@.len() as int) =~= dir_data@);
    extend_bytes(&mut out, name_data.as_slice());
    let fnt_size = (8 * dir_data.len() + name_data.len()) as u32;
    let fat_size = 8 * (free_file_id as u32);
    (out, fnt_size, fat_size)
}

} // verus!
