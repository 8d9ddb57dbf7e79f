//! What extracting a `.bin`/`.idx` archive gives back of the entries it was
//! built from.
use vstd::prelude::*;
use crate::bytes::{u16_at, u32_at, le_bytes_u16, le_bytes_u32, lemma_u16_roundtrip, lemma_u32_roundtrip};
use crate::ez::{
    EzError, BuildView, build_start, add_spec, finish_spec, entries_bytes, entry_bytes, idx_parse, idx_magic,
    bin_magic, bin_header, entry_at,
};
use crate::byte_roundtrip::{placed, lemma_placed_split, lemma_placed_u32, lemma_placed_u16};
use crate::ez::{
    EzOutcome, ExtractState, names_table, name_bytes, zero_from, file_data, entry_size, entry_compressed,
    extract_fold, extract_spec, begin_dir, end_dir, indent_chars, file_name, add_name, zeros, alignment_spec,
    hex4, no_compress_spec, index_spec, parse_hex_u16, hex_digits_value, hex_value, hex_digit,
};
use crate::text::{trim_start, is_white};
use crate::bytes::next_multiple;
use crate::lz10::{lz10_decode, lz10_compressed, Lz10Decoded, lemma_lz10_roundtrip, lemma_decode_ext};
use vstd::utf8::{valid_utf8, decode_utf8, encode_utf8, encode_utf8_valid_utf8, encode_utf8_decode_utf8};

verus! {

/// An entry of an archive's listing: its name and, for a file, its contents.
pub type ArchiveEntry = (Seq<char>, Seq<u8>);

/// The archive that adding the entries `es` in turn builds, with the header
/// number `h`; the first error stops it.
pub open spec fn build_fold(h: u16, es: Seq<ArchiveEntry>) -> Result<BuildView, EzError>
    decreases es.len(),
{
    if es.len() == 0 {
        Ok(build_start(h))
    } else {
        match build_fold(h, es.drop_last()) {
            Ok(st) => add_spec(st, es.last().0, es.last().1),
            Err(e) => Err(e),
        }
    }
}

/// `a` begins `b`.
pub open spec fn prefix_of<A>(a: Seq<A>, b: Seq<A>) -> bool {
    a.len() <= b.len() && b.subrange(0, a.len() as int) == a
}

proof fn lemma_prefix_trans<A>(a: Seq<A>, b: Seq<A>, c: Seq<A>)
    requires
        prefix_of(a, b),
        prefix_of(b, c),
    ensures
        prefix_of(a, c),
{
    assert(c.subrange(0, a.len() as int) =~= c.subrange(0, b.len() as int).subrange(0, a.len() as int));
}

proof fn lemma_prefix_add<A>(a: Seq<A>, x: Seq<A>)
    ensures
        prefix_of(a, a + x),
{
    assert((a + x).subrange(0, a.len() as int) =~= a);
}

/// What adding an entry keeps: it only appends to the `.bin`, the name table
/// and the entries, and counts one more entry.
proof fn lemma_add_grows(st: BuildView, name: Seq<char>, data: Seq<u8>)
    requires
        add_spec(st, name, data) is Ok,
    ensures
        ({
            let s2 = add_spec(st, name, data)->Ok_0;
            &&& s2.0 == st.0
            &&& prefix_of(st.1, s2.1)
            &&& prefix_of(st.2, s2.2)
            &&& s2.4 == st.4.push(s2.4.last())
            &&& s2.5 == st.5 + 1
        }),
{
    let s2 = add_spec(st, name, data)->Ok_0;
    lemma_prefix_add(st.1, s2.1.subrange(st.1.len() as int, s2.1.len() as int));
    assert(prefix_of(st.1, s2.1)) by {
        if s2.1.len() > st.1.len() {
            assert(s2.1.subrange(0, st.1.len() as int) =~= st.1) by {
                let x = s2.1;
                assert forall|i: int| 0 <= i < st.1.len() implies x.subrange(0, st.1.len() as int)[i] == st.1[i] by {}
            }
        } else {
            assert(s2.1 == st.1);
            assert(s2.1.subrange(0, st.1.len() as int) =~= st.1);
        }
    }
    assert(s2.2.subrange(0, st.2.len() as int) =~= st.2);
}

/// The states of an archive built from the first `k` entries: each begins the
/// final one.
pub proof fn lemma_build_prefix(h: u16, es: Seq<ArchiveEntry>, k: int)
    requires
        build_fold(h, es) is Ok,
        0 <= k <= es.len(),
    ensures
        build_fold(h, es.take(k)) is Ok,
        ({
            let st = build_fold(h, es.take(k))->Ok_0;
            let f = build_fold(h, es)->Ok_0;
            &&& st.0 == h
            &&& prefix_of(st.1, f.1)
            &&& prefix_of(st.2, f.2)
            &&& st.4 == f.4.take(k)
            &&& st.5 == k
            &&& f.0 == h
            &&& f.4.len() == es.len()
            &&& f.5 == es.len()
            &&& f.1.len() >= 16
            &&& f.1.subrange(0, 16) == bin_header(h, 0)
        }),
    decreases es.len(),
{
    let f = build_fold(h, es)->Ok_0;
    if es.len() == 0 {
        assert(es.take(k) =~= es);
        assert(f.1.subrange(0, 16) =~= f.1);
        assert(f.1.subrange(0, f.1.len() as int) =~= f.1);
        assert(f.2.subrange(0, f.2.len() as int) =~= f.2);
        assert(f.4.take(0) =~= f.4);
    } else {
        let dl = es.drop_last();
        let g = build_fold(h, dl)->Ok_0;
        lemma_add_grows(g, es.last().0, es.last().1);
        lemma_build_prefix(h, dl, dl.len() as int);
        assert(dl.take(dl.len() as int) =~= dl);
        assert(g.1.subrange(0, 16) == bin_header(h, 0));
        assert(f.1.subrange(0, 16) =~= g.1.subrange(0, 16));
        if k == es.len() {
            assert(es.take(k) =~= es);
            assert(f.1.subrange(0, f.1.len() as int) =~= f.1);
            assert(f.2.subrange(0, f.2.len() as int) =~= f.2);
            assert(f.4.take(k) =~= f.4);
        } else {
            lemma_build_prefix(h, dl, k);
            assert(dl.take(k) =~= es.take(k));
            let st = build_fold(h, es.take(k))->Ok_0;
            lemma_prefix_trans(st.1, g.1, f.1);
            lemma_prefix_trans(st.2, g.2, f.2);
            assert(f.4.take(k) =~= g.4.take(k));
        }
    }
}

/// The bytes of entries hold each entry where its number puts it.
proof fn lemma_entries_placed(es: Seq<(u32, u32, u32)>, i: int)
    requires
        0 <= i < es.len(),
    ensures
        entries_bytes(es).len() == 12 * es.len(),
        placed(entries_bytes(es), 12 * i, entry_bytes(es[i])),
    decreases es.len(),
{
    let dl = es.drop_last();
    lemma_entries_len(dl);
    let b = entries_bytes(es);
    assert(b == entries_bytes(dl) + entry_bytes(es.last()));
    if i == es.len() - 1 {
        assert(b.subrange(12 * i, 12 * i + 12) =~= entry_bytes(es[i]));
    } else {
        lemma_entries_placed(dl, i);
        assert(b.subrange(12 * i, 12 * i + 12) =~= entries_bytes(dl).subrange(12 * i, 12 * i + 12));
    }
}

proof fn lemma_entries_len(es: Seq<(u32, u32, u32)>)
    ensures
        entries_bytes(es).len() == 12 * es.len(),
    decreases es.len(),
{
    if es.len() > 0 {
        lemma_entries_len(es.drop_last());
    }
}

/// Reading the `.idx` of a finished archive gives its entries.
pub proof fn lemma_idx_roundtrip(st: BuildView)
    requires
        st.4.len() <= u32::MAX,
    ensures
        idx_parse(finish_spec(st).1) == Ok::<Seq<(u32, u32, u32)>, EzError>(st.4),
{
    let idx = finish_spec(st).1;
    let no = st.1.len() as u32;
    let n = st.4.len();
    let head = idx_magic() + le_bytes_u16(st.0) + le_bytes_u16(0x16) + le_bytes_u32(n as u32);
    let body = entries_bytes(st.4);
    let last = entry_bytes((no, 0u32, 0u32));
    lemma_entries_len(st.4);
    assert(idx == head + body + last);
    assert(idx.subrange(0, idx.len() as int) =~= idx);
    lemma_placed_split(idx, 0, head + body, last);
    lemma_placed_split(idx, 0, head, body);
    lemma_placed_split(idx, 0, idx_magic() + le_bytes_u16(st.0) + le_bytes_u16(0x16), le_bytes_u32(n as u32));
    lemma_placed_split(idx, 0, idx_magic() + le_bytes_u16(st.0), le_bytes_u16(0x16));
    lemma_placed_split(idx, 0, idx_magic(), le_bytes_u16(st.0));
    assert(idx.subrange(0, 8) == idx_magic());
    lemma_placed_u16(idx, 10, le_bytes_u16(0x16), 0);
    lemma_u16_roundtrip(0x16);
    lemma_placed_u32(idx, 12, le_bytes_u32(n as u32), 0);
    lemma_u32_roundtrip(n as u32);
    assert(u32_at(idx, 12) == n);
    let want = Seq::new(n, |i: int| entry_at(idx, 16 + 12 * i));
    assert forall|i: int| 0 <= i < n implies #[trigger] want[i] == st.4[i] by {
        lemma_entries_placed(st.4, i);
        let e = st.4[i];
        let eb = entry_bytes(e);
        assert(placed(idx, 16, body));
        assert(idx.subrange(16 + 12 * i, 16 + 12 * i + 12) =~= body.subrange(12 * i, 12 * i + 12));
        assert(placed(idx, 16 + 12 * i, eb));
        lemma_placed_u32(idx, 16 + 12 * i, eb, 0);
        lemma_placed_u32(idx, 16 + 12 * i, eb, 4);
        lemma_placed_u32(idx, 16 + 12 * i, eb, 8);
        lemma_u32_roundtrip(e.0);
        lemma_u32_roundtrip(e.1);
        lemma_u32_roundtrip(e.2);
    }
    assert(want =~= st.4);
}

/// The first zero byte at or after `i` is the one at `j` when none lies
/// between.
proof fn lemma_zero_at(t: Seq<u8>, i: int, j: int)
    requires
        0 <= i <= j < t.len(),
        t[j] == 0,
        forall|q: int| i <= q < j ==> t[q] != 0,
    ensures
        zero_from(t, i) == Some(j),
    decreases j - i,
{
    if i < j {
        lemma_zero_at(t, i + 1, j);
    }
}

/// The UTF-8 bytes of `name` hold no zero byte.
pub open spec fn name_clean(name: Seq<char>) -> bool {
    forall|j: int| 0 <= j < encode_utf8(name).len() ==> encode_utf8(name)[j] != 0
}

/// A name added to a table that the table `t` begins with is read back from
/// its offset.
proof fn lemma_name_read(t: Seq<u8>, names: Seq<u8>, name: Seq<char>)
    requires
        prefix_of(add_name(names, name), t),
        name_clean(name),
    ensures
        names.len() < t.len(),
        name_bytes(t, names.len() as int) == encode_utf8(name),
        valid_utf8(name_bytes(t, names.len() as int)),
        decode_utf8(name_bytes(t, names.len() as int)) == name,
{
    let enc = encode_utf8(name);
    let nb = names + enc;
    let a = add_name(names, name);
    let pad = (next_multiple(nb.len() + 1int, 4) - nb.len()) as nat;
    assert(next_multiple(nb.len() + 1int, 4) >= nb.len() + 1);
    assert(a == nb + zeros(pad));
    assert(a.len() >= nb.len() + 1);
    assert(t.subrange(0, a.len() as int) == a);
    assert(t[nb.len() as int] == a[nb.len() as int]);
    assert forall|q: int| names.len() <= q < nb.len() implies t[q] != 0 by {
        assert(t[q] == t.subrange(0, a.len() as int)[q]);
        assert(a[q] == enc[q - names.len()]);
    }
    lemma_zero_at(t, names.len() as int, nb.len() as int);
    assert(t.subrange(names.len() as int, nb.len() as int) =~= enc) by {
        assert forall|q: int| 0 <= q < enc.len() implies t.subrange(names.len() as int, nb.len() as int)[q] == enc[q] by {
            assert(t[names.len() + q] == t.subrange(0, a.len() as int)[names.len() + q]);
        }
    }
    encode_utf8_valid_utf8(name);
    encode_utf8_decode_utf8(name);
}

/// The compressed flag and the size of an entry's second word.
proof fn lemma_flag_bits()
    by (bit_vector)
    ensures
        (0u32 & 0x1000_0000u32) == 0u32,
        (0u32 & 0x0FFF_FFFFu32) == 0u32,
        forall|n: u32| n <= 0x0FFF_FFFFu32 ==> #[trigger] (n & 0x1000_0000u32) == 0u32,
        forall|n: u32| n <= 0x0FFF_FFFFu32 ==> #[trigger] (n & 0x0FFF_FFFFu32) == n,
        forall|n: u32| #[trigger] ((n | 0x1000_0000u32) & 0x1000_0000u32) != 0u32,
{
}

/// The file of an entry that adding a file wrote is read back from a `.bin`
/// that holds what was written from byte 16 on.
proof fn lemma_file_read(bin: Seq<u8>, g: BuildView, g1: BuildView, name: Seq<char>, data: Seq<u8>)
    requires
        add_spec(g, name, data) == Ok::<BuildView, EzError>(g1),
        begin_dir(name) is None,
        end_dir(name) is None,
        g.1.len() >= 16,
        bin.len() <= u32::MAX,
        placed(bin, 16, g1.1.subrange(16, g1.1.len() as int)),
    ensures
        file_data(bin, g1.4.last()) == EzOutcome::Done(data),
{
    let pos = g.1.len() as u32;
    let e = g1.4.last();
    if data.len() == 0 {
        assert(e.1 == 0u32);
        lemma_flag_bits();
        assert(data =~= Seq::<u8>::empty());
        assert(!entry_compressed(e));
        assert(entry_size(e) == 0);
        let r0 = crate::ez::from_offset(bin, e.0 as int);
        assert(r0.subrange(0, 0) =~= data);
    } else {
        assert(g1.1.len() >= g.1.len());
        assert(pos == g.1.len());
        let aligned = next_multiple(pos as int, alignment_spec(name) as int);
        assert(aligned >= pos);
        let padded = g.1 + zeros((aligned - pos) as nat);
        let stored = g1.1.subrange(aligned, g1.1.len() as int);
        assert(g1.1.subrange(0, aligned) =~= padded);
        assert(aligned <= g1.1.len() <= u32::MAX);
        assert(e.0 == aligned);
        let rest = bin.subrange(aligned, bin.len() as int);
        assert(rest.subrange(0, stored.len() as int) =~= stored) by {
            assert forall|q: int| 0 <= q < stored.len() implies rest[q] == stored[q] by {
                assert(bin.subrange(16, 16 + g1.1.len() - 16)[aligned + q - 16] == g1.1.subrange(16, g1.1.len() as int)[aligned + q - 16]);
            }
        }
        let n = data.len() as u32;
        assert(n <= 0x0FFF_FFFF);
        let c = lz10_compressed(data);
        if no_compress_spec(name) || c.len() >= data.len() {
            assert(stored =~= data);
            assert(e.1 == n);
            lemma_flag_bits();
            assert((n & 0x1000_0000u32) == 0u32);
            assert((n & 0x0FFF_FFFFu32) == n);
            assert(!entry_compressed(e));
            assert(entry_size(e) == n);
            assert(crate::ez::from_offset(bin, e.0 as int) == rest);
            assert(rest.subrange(0, n as int) =~= data);
        } else {
            assert(stored =~= c);
            assert(e.1 == n | 0x1000_0000u32);
            lemma_flag_bits();
            assert(((n | 0x1000_0000u32) & 0x1000_0000u32) != 0u32);
            lemma_lz10_roundtrip(data);
            let tail = rest.subrange(c.len() as int, rest.len() as int);
            assert(rest =~= c + tail);
            lemma_decode_ext(c, tail);
            assert(entry_compressed(e));
            assert(crate::ez::from_offset(bin, e.0 as int) == rest);
            assert(lz10_decode(rest) == Lz10Decoded::Done(data));
        }
    }
}

/// What extracting an archive built from the entries `es` should give: the
/// directories open after them, the lines of the listing, and the steps. A
/// `_BEGIN`/`_START` entry opens a directory, an `_END` entry closes the last
/// one, any other entry is a file named by its number and name that holds what
/// was added.
pub open spec fn listed(es: Seq<ArchiveEntry>) -> ExtractState
    decreases es.len(),
{
    if es.len() == 0 {
        (Seq::empty(), Seq::empty(), Seq::empty())
    } else {
        let st = listed(es.drop_last());
        let name = es.last().0;
        let i = (es.len() - 1) as nat;
        match begin_dir(name) {
            Some(d) => (
                st.0.push(d),
                st.1.push(indent_chars(st.0.len()) + name),
                st.2.push((true, st.0.push(d), Seq::empty())),
            ),
            None => match end_dir(name) {
                Some(_d) => (st.0.drop_last(), st.1.push(indent_chars((st.0.len() - 1) as nat) + name), st.2),
                None => (
                    st.0,
                    st.1.push(indent_chars(st.0.len()) + name),
                    st.2.push((false, st.0.push(file_name(i, name)), es.last().1)),
                ),
            },
        }
    }
}

/// Every name of `es` is clean.
pub open spec fn names_clean(es: Seq<ArchiveEntry>) -> bool {
    forall|i: int| 0 <= i < es.len() ==> #[trigger] name_clean(es[i].0)
}

/// Extracting the first `k` entries of a finished archive gives what was put
/// in with them.
proof fn lemma_extract_prefix(h: u16, es: Seq<ArchiveEntry>, bin: Seq<u8>, k: int)
    requires
        build_fold(h, es) is Ok,
        names_clean(es),
        0 <= k <= es.len(),
        bin.len() <= u32::MAX,
        names_table(bin) == build_fold(h, es)->Ok_0.2,
        placed(bin, 16, build_fold(h, es)->Ok_0.1.subrange(16, build_fold(h, es)->Ok_0.1.len() as int)),
    ensures
        build_fold(h, es.take(k)) is Ok,
        extract_fold(bin, names_table(bin), build_fold(h, es)->Ok_0.4.take(k))
            == EzOutcome::Done(listed(es.take(k))),
        listed(es.take(k)).0 == build_fold(h, es.take(k))->Ok_0.3,
    decreases k,
{
    let f = build_fold(h, es)->Ok_0;
    let t = names_table(bin);
    lemma_build_prefix(h, es, k);
    if k == 0 {
        assert(f.4.take(0) =~= Seq::<(u32, u32, u32)>::empty());
        assert(es.take(0) =~= Seq::<ArchiveEntry>::empty());
    } else {
        let j = k - 1;
        lemma_extract_prefix(h, es, bin, j);
        lemma_build_prefix(h, es, j);
        let ej = es.take(j);
        let ek = es.take(k);
        assert(ek.drop_last() =~= ej);
        assert(ek.last() == es[j]);
        let g = build_fold(h, ej)->Ok_0;
        let g1 = build_fold(h, ek)->Ok_0;
        lemma_build_prefix(h, ej, j);
        assert(ej.take(j) =~= ej);
        let name = es[j].0;
        let data = es[j].1;
        assert(add_spec(g, name, data) == Ok::<BuildView, EzError>(g1));
        assert(f.4.take(k).drop_last() =~= f.4.take(j));
        assert(g1.4 == g.4.push(g1.4.last()));
        assert(f.4.take(k).last() == g1.4.last());
        let e = g1.4.last();
        let st = listed(ej);
        assert(e.2 == g.2.len() as u32);
        assert(prefix_of(add_name(g.2, name), f.2));
        assert(name_clean(name));
        lemma_name_read(f.2, g.2, name);
        assert(g.2.len() as u32 == g.2.len());
        assert(name_bytes(t, e.2 as int) == encode_utf8(name));
        match begin_dir(name) {
            Some(d) => {
                assert(e.1 == 0u32);
                lemma_flag_bits();
                assert(entry_size(e) == 0);
            },
            None => match end_dir(name) {
                Some(d) => {
                    assert(e.1 == 0u32);
                    lemma_flag_bits();
                    assert(entry_size(e) == 0);
                },
                None => {
                    assert(prefix_of(g1.1, f.1));
                    assert(placed(bin, 16, g1.1.subrange(16, g1.1.len() as int))) by {
                        assert(bin.subrange(16, 16 + g1.1.len() - 16) =~= g1.1.subrange(16, g1.1.len() as int)) by {
                            assert forall|q: int| 0 <= q < g1.1.len() - 16 implies bin.subrange(16, 16 + g1.1.len() - 16)[q]
                                == g1.1.subrange(16, g1.1.len() as int)[q] by {
                                assert(bin.subrange(16, 16 + f.1.len() - 16)[q] == f.1.subrange(16, f.1.len() as int)[q]);
                                assert(f.1.subrange(0, g1.1.len() as int)[16 + q] == g1.1[16 + q]);
                            }
                        }
                    }
                    lemma_file_read(bin, g, g1, name, data);
                },
            },
        }
    }
}

/// The header of a finished `.bin` holds the number and the version, and the
/// offset of the name table, which it ends with; from byte 16 on it holds
/// what was written.
proof fn lemma_finished_bin(f: BuildView)
    requires
        f.1.len() >= 16,
        f.1.subrange(0, 16) == bin_header(f.0, 0),
        finish_spec(f).0.len() <= u32::MAX,
    ensures
        ({
            let bin = finish_spec(f).0;
            &&& bin.len() >= 16
            &&& bin.subrange(0, 8) == bin_magic()
            &&& u16_at(bin, 8) == f.0
            &&& u16_at(bin, 10) == 0x16
            &&& names_table(bin) == f.2
            &&& placed(bin, 16, f.1.subrange(16, f.1.len() as int))
        }),
{
    let h = f.0;
    let bin = finish_spec(f).0;
    let no = f.1.len() as u32;
    let head = f.1.subrange(0, 12);
    let body = f.1.subrange(16, f.1.len() as int);
    assert(bin == head + le_bytes_u32(no) + body + f.2);
    assert(bin.len() == f.1.len() + f.2.len());
    assert(no == f.1.len());
    assert(bin.subrange(0, bin.len() as int) =~= bin);
    lemma_placed_split(bin, 0, head + le_bytes_u32(no) + body, f.2);
    lemma_placed_split(bin, 0, head + le_bytes_u32(no), body);
    lemma_placed_split(bin, 0, head, le_bytes_u32(no));
    assert(head =~= bin_magic() + le_bytes_u16(h) + le_bytes_u16(0x16)) by {
        assert(head =~= bin_header(h, 0).subrange(0, 12));
    }
    lemma_placed_split(bin, 0, bin_magic() + le_bytes_u16(h), le_bytes_u16(0x16));
    lemma_placed_split(bin, 0, bin_magic(), le_bytes_u16(h));
    lemma_placed_u16(bin, 8, le_bytes_u16(h), 0);
    lemma_placed_u16(bin, 10, le_bytes_u16(0x16), 0);
    lemma_u16_roundtrip(h);
    lemma_u16_roundtrip(0x16);
    lemma_placed_u32(bin, 12, le_bytes_u32(no), 0);
    lemma_u32_roundtrip(no);
    assert(u32_at(bin, 12) == no);
    assert(names_table(bin) =~= f.2);
}

/// Building an archive from entries and reading it back gives them again:
/// the `.idx` reads as the entries that were written, and extracting the
/// `.bin` with them gives the number of its header and a line for each entry,
/// a directory for each `_BEGIN`/`_START` entry and each file with the
/// contents that were added. This holds when every name's UTF-8 bytes hold no
/// zero byte and the `.bin` and the entry count fit the 32-bit fields.
pub proof fn lemma_archive_roundtrip(h: u16, es: Seq<ArchiveEntry>)
    requires
        build_fold(h, es) is Ok,
        names_clean(es),
        finish_spec(build_fold(h, es)->Ok_0).0.len() <= u32::MAX,
        es.len() <= u32::MAX,
    ensures
        idx_parse(finish_spec(build_fold(h, es)->Ok_0).1)
            == Ok::<Seq<(u32, u32, u32)>, EzError>(build_fold(h, es)->Ok_0.4),
        extract_spec(finish_spec(build_fold(h, es)->Ok_0).0, build_fold(h, es)->Ok_0.4)
            == EzOutcome::Done((seq![hex4(h)] + listed(es).1, listed(es).2)),
{
    let f = build_fold(h, es)->Ok_0;
    lemma_build_prefix(h, es, es.len() as int);
    assert(es.take(es.len() as int) =~= es);
    lemma_idx_roundtrip(f);
    let bin = finish_spec(f).0;
    lemma_finished_bin(f);
    lemma_extract_prefix(h, es, bin, es.len() as int);
    assert(f.4.take(es.len() as int) =~= f.4);
}

proof fn lemma_hex_digit(d: int)
    requires
        0 <= d < 16,
    ensures
        hex_value(hex_digit(d)) == Some(d as nat),
{
}

/// Four hexadecimal digits read back as the number they were written from.
proof fn lemma_hex4_read(h: u16)
    ensures
        parse_hex_u16(hex4(h)) == Some(h),
{
    let d0 = (h / 4096) as int;
    let d1 = ((h / 256) % 16) as int;
    let d2 = ((h / 16) % 16) as int;
    let d3 = (h % 16) as int;
    lemma_hex_digit(d0);
    lemma_hex_digit(d1);
    lemma_hex_digit(d2);
    lemma_hex_digit(d3);
    let s = hex4(h);
    let s3 = seq![hex_digit(d0), hex_digit(d1), hex_digit(d2)];
    let s2 = seq![hex_digit(d0), hex_digit(d1)];
    let s1 = seq![hex_digit(d0)];
    assert(s.drop_last() =~= s3);
    assert(s3.drop_last() =~= s2);
    assert(s2.drop_last() =~= s1);
    assert(s1.drop_last() =~= Seq::<char>::empty());
    assert(hex_digits_value(Seq::<char>::empty()) == Some(0nat));
    assert(hex_digits_value(s1) == Some(d0 as nat));
    assert(hex_digits_value(s2) == Some((d0 * 16 + d1) as nat));
    assert(hex_digits_value(s3) == Some(((d0 * 16 + d1) * 16 + d2) as nat));
    assert(((d0 * 16 + d1) * 16 + d2) * 16 + d3 == h) by (nonlinear_arith)
        requires
            d0 == h / 4096,
            d1 == (h / 256) % 16,
            d2 == (h / 16) % 16,
            d3 == h % 16,
            0 <= h < 65536;
    assert(hex_digits_value(s) == Some(h as nat));
    assert(s[0] != '+');
}

/// Leading spaces come off a line whose name does not begin with
/// whitespace.
proof fn lemma_trim_spaces(n: nat, name: Seq<char>)
    requires
        name.len() == 0 || !is_white(name[0]),
    ensures
        trim_start(Seq::new(n, |_i: int| ' ') + name) == name,
    decreases n,
{
    let line = Seq::new(n, |_i: int| ' ') + name;
    if n == 0 {
        assert(line =~= name);
    } else {
        assert(line[0] == ' ');
        assert(is_white(line[0]));
        assert(line.drop_first() =~= Seq::new((n - 1) as nat, |_i: int| ' ') + name);
        lemma_trim_spaces((n - 1) as nat, name);
    }
}

/// Indentation comes off a line whose name does not begin with whitespace.
proof fn lemma_trim_indent(k: nat, name: Seq<char>)
    requires
        name.len() == 0 || !is_white(name[0]),
    ensures
        trim_start(indent_chars(k) + name) == name,
{
    lemma_trim_spaces(4 * k, name);
    assert(indent_chars(k) =~= Seq::new(4 * k, |_i: int| ' '));
}

/// The lines of an extraction's listing, their indentation taken off, are the
/// entries' names.
proof fn lemma_listed_lines(es: Seq<ArchiveEntry>)
    requires
        forall|i: int| 0 <= i < es.len() ==> (#[trigger] es[i]).0.len() == 0 || !is_white(es[i].0[0]),
    ensures
        listed(es).1.len() == es.len(),
        forall|i: int| 0 <= i < es.len() ==> trim_start(#[trigger] listed(es).1[i]) == es[i].0,
    decreases es.len(),
{
    if es.len() > 0 {
        let dl = es.drop_last();
        assert forall|i: int| 0 <= i < dl.len() implies (#[trigger] dl[i]).0.len() == 0 || !is_white(dl[i].0[0]) by {
            assert(dl[i] == es[i]);
        }
        lemma_listed_lines(dl);
        let name = es.last().0;
        assert(name == es[es.len() - 1].0);
        let st = listed(dl);
        let k: nat = match begin_dir(name) {
            Some(_) => st.0.len(),
            None => match end_dir(name) {
                Some(_) => (st.0.len() - 1) as nat,
                None => st.0.len(),
            },
        };
        lemma_trim_indent(k, name);
        assert(listed(es).1 == st.1.push(indent_chars(k) + name));
        assert forall|i: int| 0 <= i < es.len() implies trim_start(#[trigger] listed(es).1[i]) == es[i].0 by {
            if i < es.len() - 1 {
                assert(listed(es).1[i] == st.1[i]);
                assert(es[i] == dl[i]);
            }
        }
    }
}

/// The listing that extracting an archive writes reads back as its header's
/// number and its entries' names, in order, when no name begins with
/// whitespace.
pub proof fn lemma_listing_read_back(h: u16, es: Seq<ArchiveEntry>)
    requires
        forall|i: int| 0 <= i < es.len() ==> (#[trigger] es[i]).0.len() == 0 || !is_white(es[i].0[0]),
    ensures
        index_spec(seq![hex4(h)] + listed(es).1) == Ok::<(u16, Seq<Seq<char>>), EzError>(
            (h, es.map_values(|e: ArchiveEntry| e.0)),
        ),
{
    lemma_hex4_read(h);
    lemma_listed_lines(es);
    let lines = seq![hex4(h)] + listed(es).1;
    assert(lines[0] == hex4(h));
    assert(lines.drop_first() =~= listed(es).1);
    assert(lines.drop_first().map_values(|l: Seq<char>| trim_start(l)) =~= es.map_values(|e: ArchiveEntry| e.0));
}

} // verus!
