//! What reading the bytes of a `.bbq` file gives back of what was written.
use vstd::prelude::*;
use crate::bytes::{u16_at, u32_at, le_bytes_u16, le_bytes_u32, lemma_u16_roundtrip, lemma_u32_roundtrip};
use crate::bbq::{
    Bbq, Command, Type2Data, Type3Data, Type5Data, Type6Data, Type7Data, ByteConvert, u32s_bytes, line_bytes,
    lemma_u32s_len, items_bytes, item_offsets, pad4, bbq_bytes, bbq_sections, bbq_magic, blocks,
    section_block, entry_fields, entries_table, opt_section, SectionSpec, lemma_entries_len,
    lemma_blocks_grow, lemma_blocks_mono,
};
use crate::bbq_read::{
    BbqItem, Parsed, BbqError, u32s_at, line_at, trim_zeros, parse_commands, parse_items, parse_data, entry_at,
    parse_entry, parse_entries, bbq_parse, opt_items_view, Acc, BbqView,
};
use crate::bytes::next_multiple;
use crate::sjis::{sjis_encode, sjis_decode};

verus! {

broadcast use vstd::seq::Seq::group_seq_flatten;

/// The bytes `x` stand at `p` in `d`.
pub open spec fn placed(d: Seq<u8>, p: int, x: Seq<u8>) -> bool {
    0 <= p && p + x.len() <= d.len() && d.subrange(p, p + x.len()) == x
}

pub proof fn lemma_placed_byte(d: Seq<u8>, p: int, x: Seq<u8>, q: int)
    requires
        placed(d, p, x),
        0 <= q < x.len(),
    ensures
        d[p + q] == x[q],
{
    assert(d.subrange(p, p + x.len())[q] == d[p + q]);
}

pub proof fn lemma_placed_u32(d: Seq<u8>, p: int, x: Seq<u8>, q: int)
    requires
        placed(d, p, x),
        0 <= q,
        q + 4 <= x.len(),
    ensures
        u32_at(d, p + q) == u32_at(x, q),
{
    lemma_placed_byte(d, p, x, q);
    lemma_placed_byte(d, p, x, q + 1);
    lemma_placed_byte(d, p, x, q + 2);
    lemma_placed_byte(d, p, x, q + 3);
}

pub proof fn lemma_placed_u16(d: Seq<u8>, p: int, x: Seq<u8>, q: int)
    requires
        placed(d, p, x),
        0 <= q,
        q + 2 <= x.len(),
    ensures
        u16_at(d, p + q) == u16_at(x, q),
{
    lemma_placed_byte(d, p, x, q);
    lemma_placed_byte(d, p, x, q + 1);
}

/// Bytes that stand somewhere stand there in two parts.
pub proof fn lemma_placed_split(d: Seq<u8>, p: int, x: Seq<u8>, y: Seq<u8>)
    requires
        placed(d, p, x + y),
    ensures
        placed(d, p, x),
        placed(d, p + x.len(), y),
{
    assert(d.subrange(p, p + x.len()) =~= (x + y).subrange(0, x.len() as int));
    assert((x + y).subrange(0, x.len() as int) =~= x);
    assert(d.subrange(p + x.len(), p + x.len() + y.len()) =~= (x + y).subrange(x.len() as int, (x + y).len() as int));
    assert((x + y).subrange(x.len() as int, (x + y).len() as int) =~= y);
}

/// The bytes of the `i`th of `xs` stand where the ones before them end.
pub proof fn lemma_placed_part(d: Seq<u8>, p: int, xs: Seq<Seq<u8>>, i: int)
    requires
        placed(d, p, xs.flatten()),
        0 <= i < xs.len(),
    ensures
        placed(d, p + xs.take(i).flatten().len(), xs[i]),
    decreases xs.len(),
{
    let dl = xs.drop_last();
    assert(dl.push(xs.last()) =~= xs);
    lemma_placed_split(d, p, dl.flatten(), xs.last());
    if i == xs.len() - 1 {
        assert(xs.take(i) =~= dl);
    } else {
        lemma_placed_part(d, p, dl, i);
        assert(dl.take(i) =~= xs.take(i));
        assert(dl[i] == xs[i]);
    }
}

/// The bytes before the `i`th of runs of `k` bytes each.
pub proof fn lemma_take_flatten_len(xs: Seq<Seq<u8>>, k: int, i: int)
    requires
        0 <= i <= xs.len(),
        forall|j: int| 0 <= j < xs.len() ==> (#[trigger] xs[j]).len() == k,
    ensures
        xs.take(i).flatten().len() == k * i,
    decreases i,
{
    if i > 0 {
        lemma_take_flatten_len(xs, k, i - 1);
        assert(xs.take(i) =~= xs.take(i - 1).push(xs[i - 1]));
        assert(k * (i - 1) + k == k * i) by (nonlinear_arith);
    }
}

/// The bytes of the first `i` of `xs` are no more than all of them.
pub proof fn lemma_take_flatten_le(xs: Seq<Seq<u8>>, i: int)
    requires
        0 <= i <= xs.len(),
    ensures
        xs.take(i).flatten().len() <= xs.flatten().len(),
    decreases xs.len() - i,
{
    if i == xs.len() {
        assert(xs.take(i) =~= xs);
    } else {
        assert(xs.take(i + 1) =~= xs.take(i).push(xs[i]));
        lemma_take_flatten_le(xs, i + 1);
    }
}

/// The `k`th number of a run of little-endian numbers reads back.
pub proof fn lemma_u32s_index(s: Seq<u32>, k: int)
    requires
        0 <= k < s.len(),
    ensures
        u32s_bytes(s).len() == 4 * s.len(),
        u32_at(u32s_bytes(s), 4 * k) == s[k],
    decreases s.len(),
{
    lemma_u32s_len(s);
    let dl = s.drop_last();
    lemma_u32s_len(dl);
    assert(s.map_values(|x: u32| le_bytes_u32(x)) =~= dl.map_values(|x: u32| le_bytes_u32(x)).push(le_bytes_u32(s.last())));
    assert(u32s_bytes(s) =~= u32s_bytes(dl) + le_bytes_u32(s.last()));
    if k < s.len() - 1 {
        lemma_u32s_index(dl, k);
        assert(u32s_bytes(s)[4 * k] == u32s_bytes(dl)[4 * k]);
        assert(u32s_bytes(s)[4 * k + 1] == u32s_bytes(dl)[4 * k + 1]);
        assert(u32s_bytes(s)[4 * k + 2] == u32s_bytes(dl)[4 * k + 2]);
        assert(u32s_bytes(s)[4 * k + 3] == u32s_bytes(dl)[4 * k + 3]);
    } else {
        lemma_u32_roundtrip(s.last());
    }
}

/// Numbers written at `p` read back from `p`.
pub proof fn lemma_u32s_read(d: Seq<u8>, p: int, s: Seq<u32>)
    requires
        placed(d, p, u32s_bytes(s)),
    ensures
        u32s_at(d, p, s.len()) == s,
{
    lemma_u32s_len(s);
    assert forall|k: int| 0 <= k < s.len() implies #[trigger] u32s_at(d, p, s.len())[k] == s[k] by {
        lemma_u32s_index(s, k);
        lemma_placed_u32(d, p, u32s_bytes(s), 4 * k);
    }
    assert(u32s_at(d, p, s.len()) =~= s);
}

/// A type 2 item reads back from its bytes.
pub proof fn lemma_type2_bytes(d: Seq<u8>, p: int, t: Type2Data)
    requires
        placed(d, p, t.spec_bytes()),
    ensures
        t.spec_bytes().len() == 28,
        Type2Data::parse_spec(d, p, t.spec_bytes().len() as int) == Parsed::Done(t@),
{
    lemma_u32s_len(t.data@);
    lemma_u32s_read(d, p, t.data@);
}

/// A type 3 item reads back from its bytes.
pub proof fn lemma_type3_bytes(d: Seq<u8>, p: int, t: Type3Data)
    requires
        placed(d, p, t.spec_bytes()),
        d.len() <= u32::MAX,
    ensures
        t.spec_bytes().len() == 32 + 16 * t.children@.len(),
        Type3Data::parse_spec(d, p, t.spec_bytes().len() as int) == Parsed::Done(t@),
{
    let a = u32s_bytes(t.data@);
    let n = t.children@.len();
    let b = le_bytes_u32(n as u32);
    let cs = t.children@.map_values(|c: [u32; 4]| u32s_bytes(c@));
    lemma_u32s_len(t.data@);
    assert forall|j: int| 0 <= j < cs.len() implies (#[trigger] cs[j]).len() == 16 by {
        lemma_u32s_len(t.children@[j]@);
    }
    lemma_take_flatten_len(cs, 16, cs.len() as int);
    assert(cs.take(cs.len() as int) =~= cs);
    assert(t.spec_bytes() == a + b + cs.flatten());
    lemma_placed_split(d, p, a + b, cs.flatten());
    lemma_placed_split(d, p, a, b);
    lemma_u32s_read(d, p, t.data@);
    lemma_placed_u32(d, p + 28, b, 0);
    assert(n <= u32::MAX);
    lemma_u32_roundtrip(n as u32);
    assert(u32_at(d, p + 28) == n);
    let want = Seq::new(n, |i: int| u32s_at(d, p + 32 + 16 * i, 4));
    assert forall|i: int| 0 <= i < n implies #[trigger] want[i] == t.children@.map_values(|c: [u32; 4]| c@)[i] by {
        lemma_placed_part(d, p + 32, cs, i);
        lemma_take_flatten_len(cs, 16, i);
        lemma_u32s_read(d, p + 32 + 16 * i, t.children@[i]@);
    }
    assert(want =~= t.children@.map_values(|c: [u32; 4]| c@));
}

/// A type 5 item that is one number or a nonempty list of lines.
pub open spec fn type5_item_ok(t: Type5Data) -> bool {
    match t.small_data {
        Some(_) => t.lines@.len() == 0,
        None => t.lines@.len() > 0,
    }
}

/// A type 5 item reads back from its bytes.
pub proof fn lemma_type5_bytes(d: Seq<u8>, p: int, t: Type5Data)
    requires
        placed(d, p, t.spec_bytes()),
        type5_item_ok(t),
    ensures
        t.spec_bytes().len() % 4 == 0,
        Type5Data::parse_spec(d, p, t.spec_bytes().len() as int) == Parsed::Done(t@),
{
    match t.small_data {
        Some(x) => {
            lemma_placed_u32(d, p, le_bytes_u32(x), 0);
            lemma_u32_roundtrip(x);
            assert(t.lines@ =~= Seq::<(u8, u8, u16, u32, u32, u32)>::empty());
        },
        None => {
            let ls = t.lines@.map_values(|l: (u8, u8, u16, u32, u32, u32)| line_bytes(l));
            let n = t.lines@.len();
            assert forall|j: int| 0 <= j < ls.len() implies (#[trigger] ls[j]).len() == 16 by {}
            lemma_take_flatten_len(ls, 16, n as int);
            assert(ls.take(n as int) =~= ls);
            let size = 16 * n;
            assert(size % 16 == 0 && size != 4 && size != 0);
            let want = Seq::new((size / 16) as nat, |i: int| line_at(d, p + 16 * i));
            assert forall|i: int| 0 <= i < n implies #[trigger] want[i] == t.lines@[i] by {
                lemma_placed_part(d, p, ls, i);
                lemma_take_flatten_len(ls, 16, i);
                let q = p + 16 * i;
                let l = t.lines@[i];
                let lb = line_bytes(l);
                lemma_placed_byte(d, q, lb, 0);
                lemma_placed_byte(d, q, lb, 1);
                lemma_placed_u16(d, q, lb, 2);
                lemma_placed_u32(d, q, lb, 4);
                lemma_placed_u32(d, q, lb, 8);
                lemma_placed_u32(d, q, lb, 12);
                lemma_u16_roundtrip(l.2);
                lemma_u32_roundtrip(l.3);
                lemma_u32_roundtrip(l.4);
                lemma_u32_roundtrip(l.5);
            }
            assert(want =~= t.lines@);
        },
    }
}

/// Each command's argument count is its number of arguments.
pub open spec fn commands_ok(t: Type6Data) -> bool {
    forall|i: int| 0 <= i < t.commands@.len() ==> (#[trigger] t.commands@[i]).args@.len() == t.commands@[i].arg_count
}

proof fn lemma_command_len(c: Command)
    ensures
        c.spec_bytes().len() == 8 + 4 * c.args@.len(),
{
    lemma_u32s_len(c.args@);
}

/// The commands from the `k`th on read back from their bytes.
proof fn lemma_commands_from(d: Seq<u8>, p: int, t: Type6Data, k: int)
    requires
        placed(d, p, t.spec_bytes()),
        commands_ok(t),
        0 <= k <= t.commands@.len(),
    ensures
        ({
            let cbs = t.commands@.map_values(|c: Command| c.spec_bytes());
            let off = cbs.take(k).flatten().len() as int;
            parse_commands(d, p + off, off, t.spec_bytes().len() as int) == Parsed::Done(
                t@.subrange(k, t@.len() as int),
            )
        }),
    decreases t.commands@.len() - k,
{
    let cbs = t.commands@.map_values(|c: Command| c.spec_bytes());
    let off = cbs.take(k).flatten().len() as int;
    let size = t.spec_bytes().len() as int;
    assert(t.spec_bytes() == cbs.flatten());
    let n = t.commands@.len() as int;
    if k == n {
        assert(cbs.take(k) =~= cbs);
        assert(t@.subrange(k, n) =~= Seq::<(u8, u8, u16, u32, Seq<u32>)>::empty());
    } else {
        let c = t.commands@[k];
        lemma_command_len(c);
        lemma_placed_part(d, p, cbs, k);
        let q = p + off;
        let cb = c.spec_bytes();
        assert(cbs[k] == cb);
        assert(cbs.take(k + 1) =~= cbs.take(k).push(cb));
        let next = cbs.take(k + 1).flatten().len() as int;
        assert(next == off + 8 + 4 * c.args@.len());
        lemma_take_flatten_le(cbs, k + 1);
        let head = seq![c.code1, c.code2] + le_bytes_u16(c.arg_count) + le_bytes_u32(c.place);
        assert(cb == head + u32s_bytes(c.args@));
        lemma_placed_split(d, q, head, u32s_bytes(c.args@));
        lemma_placed_byte(d, q, head, 0);
        lemma_placed_byte(d, q, head, 1);
        lemma_placed_u16(d, q, head, 2);
        lemma_placed_u32(d, q, head, 4);
        lemma_u16_roundtrip(c.arg_count);
        lemma_u32_roundtrip(c.place);
        lemma_u32s_read(d, q + 8, c.args@);
        assert(c.args@.len() == c.arg_count);
        lemma_commands_from(d, p, t, k + 1);
        assert(t@[k] == c@);
        assert(seq![c@] + t@.subrange(k + 1, n) =~= t@.subrange(k, n));
    }
}

/// A type 6 item reads back from its bytes.
pub proof fn lemma_type6_bytes(d: Seq<u8>, p: int, t: Type6Data)
    requires
        placed(d, p, t.spec_bytes()),
        commands_ok(t),
    ensures
        t.spec_bytes().len() % 4 == 0,
        Type6Data::parse_spec(d, p, t.spec_bytes().len() as int) == Parsed::Done(t@),
{
    let cbs = t.commands@.map_values(|c: Command| c.spec_bytes());
    assert(cbs.take(0) =~= Seq::<Seq<u8>>::empty());
    lemma_commands_from(d, p, t, 0);
    assert(t@.subrange(0, t@.len() as int) =~= t@);
    lemma_commands_len4(cbs, cbs.len() as int, t.commands@);
    assert(cbs.take(cbs.len() as int) =~= cbs);
}

proof fn lemma_commands_len4(cbs: Seq<Seq<u8>>, i: int, cs: Seq<Command>)
    requires
        cbs == cs.map_values(|c: Command| c.spec_bytes()),
        0 <= i <= cbs.len(),
    ensures
        cbs.take(i).flatten().len() % 4 == 0,
    decreases i,
{
    if i > 0 {
        lemma_commands_len4(cbs, i - 1, cs);
        assert(cbs.take(i) =~= cbs.take(i - 1).push(cbs[i - 1]));
        lemma_command_len(cs[i - 1]);
    }
}

/// Zero bytes after text do not change what trimming the zeros leaves.
proof fn lemma_trim_zeros_pad(s: Seq<u8>, k: nat)
    ensures
        trim_zeros(s + Seq::new(k, |_i: int| 0u8)) == trim_zeros(s),
    decreases k,
{
    let z = Seq::new(k, |_i: int| 0u8);
    if k == 0 {
        assert(s + z =~= s);
    } else {
        let z1 = Seq::new((k - 1) as nat, |_i: int| 0u8);
        assert((s + z).drop_last() =~= s + z1);
        lemma_trim_zeros_pad(s, (k - 1) as nat);
    }
}

/// What a type 7 item's text reads back as: its Shift JIS bytes without
/// their trailing zeros, decoded.
pub open spec fn text_read_back(t: Seq<char>) -> Option<Seq<char>> {
    sjis_decode(trim_zeros(sjis_encode(t)))
}

/// A type 7 item, followed by up to three zero bytes, reads back as its text
/// through Shift JIS.
pub proof fn lemma_type7_bytes(d: Seq<u8>, p: int, t: Type7Data, pad: nat)
    requires
        placed(d, p, t.spec_bytes() + Seq::new(pad, |_i: int| 0u8)),
    ensures
        Type7Data::parse_spec(d, p, t.spec_bytes().len() + pad as int) == match text_read_back(t@) {
            Some(x) => Parsed::Done(x),
            None => Parsed::<Seq<char>>::Refused(BbqError::Type7BadText),
        },
{
    let e = sjis_encode(t@);
    let z = Seq::new(pad, |_i: int| 0u8);
    let all = e.push(0) + z;
    let size = all.len() as int;
    assert(d.subrange(p, p + size) == all);
    lemma_placed_byte(d, p, all, size - 1);
    assert(all[size - 1] == 0);
    assert(e.push(0) + z =~= e + Seq::new(pad + 1, |_i: int| 0u8));
    lemma_trim_zeros_pad(e, pad + 1);
}

/// Bytes that stand side by side stand there together.
pub proof fn lemma_placed_join(d: Seq<u8>, p: int, x: Seq<u8>, y: Seq<u8>)
    requires
        placed(d, p, x),
        placed(d, p + x.len(), y),
    ensures
        placed(d, p, x + y),
{
    assert forall|q: int| 0 <= q < (x + y).len() implies d.subrange(p, p + (x + y).len())[q] == (x + y)[q] by {
        if q < x.len() {
            lemma_placed_byte(d, p, x, q);
        } else {
            lemma_placed_byte(d, p + x.len(), y, q - x.len());
        }
    }
    assert(d.subrange(p, p + (x + y).len()) =~= x + y);
}

/// `n` zero bytes.
pub open spec fn zeros(n: int) -> Seq<u8> {
    Seq::new(n as nat, |_k: int| 0u8)
}

/// Where the `i`th item of a section's data stands, and how long the reader
/// takes it to be: its bytes, and for the last item the padding after them.
pub proof fn lemma_item_layout(d: Seq<u8>, dstart: int, items: Seq<Seq<u8>>, i: int)
    requires
        placed(d, dstart, pad4(items.flatten())),
        pad4(items.flatten()).len() <= u32::MAX,
        0 <= i < items.len(),
    ensures
        ({
            let offs = item_offsets(items).push(pad4(items.flatten()).len() as u32);
            let pad = if i == items.len() - 1 {
                pad4(items.flatten()).len() - items.flatten().len()
            } else {
                0int
            };
            &&& 0 <= pad < 4
            &&& offs[i] as int == items.take(i).flatten().len()
            &&& offs[i + 1] as int == offs[i] + items[i].len() + pad
            &&& placed(d, dstart + offs[i], items[i] + zeros(pad))
        }),
{
    let flat = items.flatten();
    let n = items.len() as int;
    let padded = pad4(flat);
    let pl = next_multiple(flat.len() as int, 4) - flat.len();
    assert(0 <= pl < 4);
    assert(padded == flat + zeros(pl));
    lemma_placed_split(d, dstart, flat, zeros(pl));
    lemma_placed_part(d, dstart, items, i);
    lemma_take_flatten_le(items, i);
    lemma_take_flatten_le(items, i + 1);
    assert(items.take(i + 1) =~= items.take(i).push(items[i]));
    let offs = item_offsets(items).push(padded.len() as u32);
    assert(offs[i] == item_offsets(items)[i]);
    let off = items.take(i).flatten().len() as int;
    if i == n - 1 {
        assert(items.take(i + 1) =~= items);
        lemma_placed_join(d, dstart + off, items[i], zeros(pl));
    } else {
        assert(offs[i + 1] == item_offsets(items)[i + 1]);
        assert(items[i] + zeros(0) =~= items[i]);
    }
}

/// Items that each read back from where the offsets put them read back as a
/// list.
pub proof fn lemma_parse_items<T: BbqItem>(d: Seq<u8>, dof: int, offs: Seq<u32>, vs: Seq<T::V>, j: int)
    requires
        offs.len() == vs.len() + 1,
        0 <= j <= vs.len(),
        forall|i: int| 0 <= i < vs.len() ==> offs[i] <= offs[i + 1] && #[trigger] T::parse_spec(d, dof + offs[i], offs[i + 1] - offs[i]) == Parsed::Done(vs[i]),
    ensures
        parse_items::<T>(d, dof, offs, j) == Parsed::Done(vs.subrange(j, vs.len() as int)),
    decreases vs.len() - j,
{
    if j == vs.len() {
        assert(vs.subrange(j, vs.len() as int) =~= Seq::<T::V>::empty());
    } else {
        assert(T::parse_spec(d, dof + offs[j], offs[j + 1] - offs[j]) == Parsed::Done(vs[j]));
        lemma_parse_items::<T>(d, dof, offs, vs, j + 1);
        assert(seq![vs[j]] + vs.subrange(j + 1, vs.len() as int) =~= vs.subrange(j, vs.len() as int));
    }
}

/// The data of a section whose items' bytes are whole numbers of words ends
/// without padding.
proof fn lemma_words_no_pad(items: Seq<Seq<u8>>, i: int)
    requires
        0 <= i <= items.len(),
        forall|k: int| 0 <= k < items.len() ==> (#[trigger] items[k]).len() % 4 == 0,
    ensures
        items.take(i).flatten().len() % 4 == 0,
    decreases i,
{
    if i > 0 {
        lemma_words_no_pad(items, i - 1);
        assert(items.take(i) =~= items.take(i - 1).push(items[i - 1]));
    }
}

proof fn lemma_type3_len(t: Type3Data)
    ensures
        t.spec_bytes().len() % 4 == 0,
{
    let cs = t.children@.map_values(|c: [u32; 4]| u32s_bytes(c@));
    lemma_u32s_len(t.data@);
    assert forall|j: int| 0 <= j < cs.len() implies (#[trigger] cs[j]).len() == 16 by {
        lemma_u32s_len(t.children@[j]@);
    }
    lemma_take_flatten_len(cs, 16, cs.len() as int);
    assert(cs.take(cs.len() as int) =~= cs);
}

proof fn lemma_type5_len(t: Type5Data)
    ensures
        t.spec_bytes().len() % 4 == 0,
{
    if t.small_data is None {
        let ls = t.lines@.map_values(|l: (u8, u8, u16, u32, u32, u32)| line_bytes(l));
        assert forall|j: int| 0 <= j < ls.len() implies (#[trigger] ls[j]).len() == 16 by {}
        lemma_take_flatten_len(ls, 16, ls.len() as int);
        assert(ls.take(ls.len() as int) =~= ls);
    }
}

proof fn lemma_type6_len(t: Type6Data)
    ensures
        t.spec_bytes().len() % 4 == 0,
{
    let cbs = t.commands@.map_values(|c: Command| c.spec_bytes());
    lemma_commands_len4(cbs, cbs.len() as int, t.commands@);
    assert(cbs.take(cbs.len() as int) =~= cbs);
}

/// The items of a type 2 section read back from its data.
pub proof fn lemma_items2(d: Seq<u8>, dstart: int, v: Seq<Type2Data>)
    requires
        placed(d, dstart, pad4(items_bytes(v).flatten())),
        pad4(items_bytes(v).flatten()).len() <= u32::MAX,
    ensures
        parse_items::<Type2Data>(d, dstart, item_offsets(items_bytes(v)).push(pad4(items_bytes(v).flatten()).len() as u32), 0)
            == Parsed::Done(v.map_values(|t: Type2Data| t@)),
{
    let items = items_bytes(v);
    let vs = v.map_values(|t: Type2Data| t@);
    let offs = item_offsets(items).push(pad4(items.flatten()).len() as u32);
    assert forall|k: int| 0 <= k < items.len() implies (#[trigger] items[k]).len() % 4 == 0 by {
        assert(items[k] == v[k].spec_bytes());
        lemma_u32s_len(v[k].data@);
    }
    lemma_words_no_pad(items, items.len() as int);
    assert(items.take(items.len() as int) =~= items);
    assert forall|i: int| 0 <= i < vs.len() implies offs[i] <= offs[i + 1] && #[trigger] Type2Data::parse_spec(d, dstart + offs[i], offs[i + 1] - offs[i]) == Parsed::Done(vs[i]) by {
        lemma_item_layout(d, dstart, items, i);
        assert(items[i] == v[i].spec_bytes());
        assert(items[i] + zeros(0) =~= items[i]);
        lemma_type2_bytes(d, dstart + offs[i], v[i]);
    }
    lemma_parse_items::<Type2Data>(d, dstart, offs, vs, 0);
    assert(vs.subrange(0, vs.len() as int) =~= vs);
}

/// The items of a type 3 section read back from its data.
pub proof fn lemma_items3(d: Seq<u8>, dstart: int, v: Seq<Type3Data>)
    requires
        placed(d, dstart, pad4(items_bytes(v).flatten())),
        pad4(items_bytes(v).flatten()).len() <= u32::MAX,
        d.len() <= u32::MAX,
    ensures
        parse_items::<Type3Data>(d, dstart, item_offsets(items_bytes(v)).push(pad4(items_bytes(v).flatten()).len() as u32), 0)
            == Parsed::Done(v.map_values(|t: Type3Data| t@)),
{
    let items = items_bytes(v);
    let vs = v.map_values(|t: Type3Data| t@);
    let offs = item_offsets(items).push(pad4(items.flatten()).len() as u32);
    assert forall|k: int| 0 <= k < items.len() implies (#[trigger] items[k]).len() % 4 == 0 by {
        assert(items[k] == v[k].spec_bytes());
        lemma_type3_len(v[k]);
    }
    lemma_words_no_pad(items, items.len() as int);
    assert(items.take(items.len() as int) =~= items);
    assert forall|i: int| 0 <= i < vs.len() implies offs[i] <= offs[i + 1] && #[trigger] Type3Data::parse_spec(d, dstart + offs[i], offs[i + 1] - offs[i]) == Parsed::Done(vs[i]) by {
        lemma_item_layout(d, dstart, items, i);
        assert(items[i] == v[i].spec_bytes());
        assert(items[i] + zeros(0) =~= items[i]);
        lemma_type3_bytes(d, dstart + offs[i], v[i]);
    }
    lemma_parse_items::<Type3Data>(d, dstart, offs, vs, 0);
    assert(vs.subrange(0, vs.len() as int) =~= vs);
}

/// The items of a type 5 section read back from its data.
pub proof fn lemma_items5(d: Seq<u8>, dstart: int, v: Seq<Type5Data>)
    requires
        placed(d, dstart, pad4(items_bytes(v).flatten())),
        pad4(items_bytes(v).flatten()).len() <= u32::MAX,
        forall|k: int| 0 <= k < v.len() ==> type5_item_ok(#[trigger] v[k]),
    ensures
        parse_items::<Type5Data>(d, dstart, item_offsets(items_bytes(v)).push(pad4(items_bytes(v).flatten()).len() as u32), 0)
            == Parsed::Done(v.map_values(|t: Type5Data| t@)),
{
    let items = items_bytes(v);
    let vs = v.map_values(|t: Type5Data| t@);
    let offs = item_offsets(items).push(pad4(items.flatten()).len() as u32);
    assert forall|k: int| 0 <= k < items.len() implies (#[trigger] items[k]).len() % 4 == 0 by {
        assert(items[k] == v[k].spec_bytes());
        lemma_type5_len(v[k]);
    }
    lemma_words_no_pad(items, items.len() as int);
    assert(items.take(items.len() as int) =~= items);
    assert forall|i: int| 0 <= i < vs.len() implies offs[i] <= offs[i + 1] && #[trigger] Type5Data::parse_spec(d, dstart + offs[i], offs[i + 1] - offs[i]) == Parsed::Done(vs[i]) by {
        lemma_item_layout(d, dstart, items, i);
        assert(items[i] == v[i].spec_bytes());
        assert(items[i] + zeros(0) =~= items[i]);
        lemma_type5_bytes(d, dstart + offs[i], v[i]);
    }
    lemma_parse_items::<Type5Data>(d, dstart, offs, vs, 0);
    assert(vs.subrange(0, vs.len() as int) =~= vs);
}

/// The items of a type 6 section read back from its data.
pub proof fn lemma_items6(d: Seq<u8>, dstart: int, v: Seq<Type6Data>)
    requires
        placed(d, dstart, pad4(items_bytes(v).flatten())),
        pad4(items_bytes(v).flatten()).len() <= u32::MAX,
        forall|k: int| 0 <= k < v.len() ==> commands_ok(#[trigger] v[k]),
    ensures
        parse_items::<Type6Data>(d, dstart, item_offsets(items_bytes(v)).push(pad4(items_bytes(v).flatten()).len() as u32), 0)
            == Parsed::Done(v.map_values(|t: Type6Data| t@)),
{
    let items = items_bytes(v);
    let vs = v.map_values(|t: Type6Data| t@);
    let offs = item_offsets(items).push(pad4(items.flatten()).len() as u32);
    assert forall|k: int| 0 <= k < items.len() implies (#[trigger] items[k]).len() % 4 == 0 by {
        assert(items[k] == v[k].spec_bytes());
        lemma_type6_len(v[k]);
    }
    lemma_words_no_pad(items, items.len() as int);
    assert(items.take(items.len() as int) =~= items);
    assert forall|i: int| 0 <= i < vs.len() implies offs[i] <= offs[i + 1] && #[trigger] Type6Data::parse_spec(d, dstart + offs[i], offs[i + 1] - offs[i]) == Parsed::Done(vs[i]) by {
        lemma_item_layout(d, dstart, items, i);
        assert(items[i] == v[i].spec_bytes());
        assert(items[i] + zeros(0) =~= items[i]);
        lemma_type6_bytes(d, dstart + offs[i], v[i]);
    }
    lemma_parse_items::<Type6Data>(d, dstart, offs, vs, 0);
    assert(vs.subrange(0, vs.len() as int) =~= vs);
}

/// Every text of `v` reads back through Shift JIS.
pub open spec fn texts_read_back(v: Seq<Type7Data>) -> bool {
    forall|k: int| 0 <= k < v.len() ==> text_read_back((#[trigger] v[k])@) is Some
}

/// The texts of `v` as they read back.
pub open spec fn read_texts(v: Seq<Type7Data>) -> Seq<Seq<char>> {
    v.map_values(|t: Type7Data| text_read_back(t@)->0)
}

/// The items of a type 7 section read back from its data as their texts
/// read back through Shift JIS.
pub proof fn lemma_items7(d: Seq<u8>, dstart: int, v: Seq<Type7Data>)
    requires
        placed(d, dstart, pad4(items_bytes(v).flatten())),
        pad4(items_bytes(v).flatten()).len() <= u32::MAX,
        texts_read_back(v),
    ensures
        parse_items::<Type7Data>(d, dstart, item_offsets(items_bytes(v)).push(pad4(items_bytes(v).flatten()).len() as u32), 0)
            == Parsed::Done(read_texts(v)),
{
    let items = items_bytes(v);
    let vs = read_texts(v);
    let offs = item_offsets(items).push(pad4(items.flatten()).len() as u32);
    assert forall|i: int| 0 <= i < vs.len() implies offs[i] <= offs[i + 1] && #[trigger] Type7Data::parse_spec(d, dstart + offs[i], offs[i + 1] - offs[i]) == Parsed::Done(vs[i]) by {
        lemma_item_layout(d, dstart, items, i);
        assert(items[i] == v[i].spec_bytes());
        let pad = if i == items.len() - 1 {
            pad4(items.flatten()).len() - items.flatten().len()
        } else {
            0int
        };
        assert(zeros(pad) == Seq::new(pad as nat, |_i: int| 0u8));
        lemma_type7_bytes(d, dstart + offs[i], v[i], pad as nat);
        assert(text_read_back(v[i]@) is Some);
    }
    lemma_parse_items::<Type7Data>(d, dstart, offs, vs, 0);
    assert(vs.subrange(0, vs.len() as int) =~= vs);
}

/// Where the sections' stored blocks begin.
pub open spec fn blocks_start(secs: Seq<SectionSpec>) -> int {
    24 + 20 * (secs.len() as int)
}

/// The parts of the bytes of a `.bbq` value: header, table, blocks, footer.
pub proof fn lemma_file_parts(b: Bbq)
    requires
        bbq_bytes(b).len() <= u32::MAX,
    ensures
        ({
            let d = bbq_bytes(b);
            let secs = bbq_sections(b);
            let n = secs.len() as int;
            &&& d.len() == blocks_start(secs) + blocks(secs, n).len() + 24
            &&& d.subrange(0, 8) == bbq_magic()
            &&& u32_at(d, 8) == b.datetime
            &&& u32_at(d, 12) == 1
            &&& u32_at(d, 16) == 0x18
            &&& u32_at(d, 20) == n
            &&& placed(d, 24, entries_table(secs))
            &&& placed(d, blocks_start(secs), blocks(secs, n))
            &&& u32s_at(d, blocks_start(secs) + blocks(secs, n).len(), 6) == b.footer@
        }),
{
    let d = bbq_bytes(b);
    let secs = bbq_sections(b);
    let n = secs.len() as int;
    let hs = seq![b.datetime, 1u32, 0x18u32, n as u32];
    let m = bbq_magic();
    let h = u32s_bytes(hs);
    let t = entries_table(secs);
    let bl = blocks(secs, n);
    let f = u32s_bytes(b.footer@);
    lemma_u32s_len(hs);
    lemma_u32s_len(b.footer@);
    let es = Seq::new(secs.len(), |i: int| u32s_bytes(entry_fields(secs, i)));
    lemma_entries_len(secs, n);
    assert(es.take(n) =~= es);
    assert(t.len() == 20 * n);
    assert(d == m + h + t + bl + f);
    assert(d.subrange(0, d.len() as int) =~= d);
    assert(placed(d, 0, m + h + t + bl + f));
    lemma_placed_split(d, 0, m + h + t + bl, f);
    lemma_placed_split(d, 0, m + h + t, bl);
    lemma_placed_split(d, 0, m + h, t);
    lemma_placed_split(d, 0, m, h);
    assert(d.subrange(0, 8) == m);
    assert(n <= u32::MAX);
    lemma_u32s_read(d, 8, hs);
    assert(u32s_at(d, 8, 4)[0] == u32_at(d, 8));
    assert(u32s_at(d, 8, 4)[1] == u32_at(d, 12));
    assert(u32s_at(d, 8, 4)[2] == u32_at(d, 16));
    assert(u32s_at(d, 8, 4)[3] == u32_at(d, 20));
    lemma_u32s_read(d, blocks_start(secs) + bl.len(), b.footer@);
}

/// The facts about the bytes `d` of a file with sections `secs` that reading
/// it goes by.
pub open spec fn file_layout(d: Seq<u8>, secs: Seq<SectionSpec>) -> bool {
    let n = secs.len() as int;
    &&& d.len() <= u32::MAX
    &&& d.len() == blocks_start(secs) + blocks(secs, n).len() + 24
    &&& placed(d, 24, entries_table(secs))
    &&& placed(d, blocks_start(secs), blocks(secs, n))
}

/// The table entry of section `i` reads back as its fields.
pub proof fn lemma_entry_read(d: Seq<u8>, secs: Seq<SectionSpec>, i: int)
    requires
        file_layout(d, secs),
        0 <= i < secs.len(),
    ensures
        ({
            let f = entry_fields(secs, i);
            entry_at(d, 24 + 20 * i) == (f[0], f[1], f[2], f[3], f[4])
        }),
{
    let es = Seq::new(secs.len(), |k: int| u32s_bytes(entry_fields(secs, k)));
    assert(entries_table(secs) == es.flatten());
    lemma_placed_part(d, 24, es, i);
    lemma_entries_len(secs, i);
    let f = entry_fields(secs, i);
    assert(es[i] == u32s_bytes(f));
    lemma_u32s_read(d, 24 + 20 * i, f);
    assert(u32s_at(d, 24 + 20 * i, 5)[0] == u32_at(d, 24 + 20 * i));
    assert(u32s_at(d, 24 + 20 * i, 5)[1] == u32_at(d, 24 + 20 * i + 4));
    assert(u32s_at(d, 24 + 20 * i, 5)[2] == u32_at(d, 24 + 20 * i + 8));
    assert(u32s_at(d, 24 + 20 * i, 5)[3] == u32_at(d, 24 + 20 * i + 12));
    assert(u32s_at(d, 24 + 20 * i, 5)[4] == u32_at(d, 24 + 20 * i + 16));
}

/// Where the data of section `i` begins.
pub open spec fn data_start(secs: Seq<SectionSpec>, i: int) -> int {
    blocks_start(secs) + blocks(secs, i).len() + 4 * secs[i].1.len()
}

/// Reading the data of section `i` comes to reading its items between its
/// offsets, its data standing where the table says.
pub proof fn lemma_section_read<T: BbqItem>(d: Seq<u8>, secs: Seq<SectionSpec>, i: int)
    requires
        file_layout(d, secs),
        0 <= i < secs.len(),
    ensures
        placed(d, data_start(secs, i), secs[i].2),
        parse_data::<T>(d, 24 + 20 * i, entry_at(d, 24 + 20 * i)) == parse_items::<T>(
            d,
            data_start(secs, i),
            secs[i].1.push(secs[i].2.len() as u32),
            0,
        ),
{
    let n = secs.len() as int;
    lemma_entry_read(d, secs, i);
    let bs = secs.map_values(|s: SectionSpec| section_block(s));
    assert(secs.take(n) =~= secs);
    assert(blocks(secs, n) == bs.flatten());
    lemma_placed_part(d, blocks_start(secs), bs, i);
    assert(bs.take(i) =~= secs.take(i).map_values(|s: SectionSpec| section_block(s)));
    let oo = blocks_start(secs) + blocks(secs, i).len();
    assert(bs[i] == section_block(secs[i]));
    lemma_placed_split(d, oo, u32s_bytes(secs[i].1), secs[i].2);
    lemma_u32s_len(secs[i].1);
    lemma_u32s_read(d, oo, secs[i].1);
    lemma_blocks_mono(secs, i, n);
    lemma_blocks_grow(secs, i);
    let f = entry_fields(secs, i);
    let oof = (n - i) * 0x14 + blocks(secs, i).len();
    assert(f[1] as int == oof);
    assert(f[3] as int == oof + 4 * secs[i].1.len());
    assert(f[2] as int == secs[i].1.len());
    assert(f[4] as int == secs[i].2.len());
}

proof fn lemma_entry2(d: Seq<u8>, secs: Seq<SectionSpec>, m: int, v: Seq<Type2Data>, acc: Acc)
    requires
        file_layout(d, secs),
        0 <= m < secs.len(),
        secs[m] == (2u32, item_offsets(items_bytes(v)), pad4(items_bytes(v).flatten())),
    ensures
        parse_entry(d, 24 + 20 * m, entry_at(d, 24 + 20 * m), acc) == Parsed::Done((Some(v.map_values(|t: Type2Data| t@)), acc.1, acc.2, acc.3, acc.4)),
{
    lemma_entry_read(d, secs, m);
    lemma_section_read::<Type2Data>(d, secs, m);
    lemma_items2(d, data_start(secs, m), v);
}

proof fn lemma_entry3(d: Seq<u8>, secs: Seq<SectionSpec>, m: int, v: Seq<Type3Data>, acc: Acc)
    requires
        file_layout(d, secs),
        0 <= m < secs.len(),
        secs[m] == (3u32, item_offsets(items_bytes(v)), pad4(items_bytes(v).flatten())),
    ensures
        parse_entry(d, 24 + 20 * m, entry_at(d, 24 + 20 * m), acc) == Parsed::Done((acc.0, Some(v.map_values(|t: Type3Data| t@)), acc.2, acc.3, acc.4)),
{
    lemma_entry_read(d, secs, m);
    lemma_section_read::<Type3Data>(d, secs, m);
    lemma_items3(d, data_start(secs, m), v);
}

proof fn lemma_entry5(d: Seq<u8>, secs: Seq<SectionSpec>, m: int, v: Seq<Type5Data>, acc: Acc)
    requires
        file_layout(d, secs),
        0 <= m < secs.len(),
        secs[m] == (5u32, item_offsets(items_bytes(v)), pad4(items_bytes(v).flatten())),
        forall|k: int| 0 <= k < v.len() ==> type5_item_ok(#[trigger] v[k]),
    ensures
        parse_entry(d, 24 + 20 * m, entry_at(d, 24 + 20 * m), acc) == Parsed::Done((acc.0, acc.1, Some(v.map_values(|t: Type5Data| t@)), acc.3, acc.4)),
{
    lemma_entry_read(d, secs, m);
    lemma_section_read::<Type5Data>(d, secs, m);
    lemma_items5(d, data_start(secs, m), v);
}

proof fn lemma_entry6(d: Seq<u8>, secs: Seq<SectionSpec>, m: int, v: Seq<Type6Data>, acc: Acc)
    requires
        file_layout(d, secs),
        0 <= m < secs.len(),
        secs[m] == (6u32, item_offsets(items_bytes(v)), pad4(items_bytes(v).flatten())),
        forall|k: int| 0 <= k < v.len() ==> commands_ok(#[trigger] v[k]),
    ensures
        parse_entry(d, 24 + 20 * m, entry_at(d, 24 + 20 * m), acc) == Parsed::Done((acc.0, acc.1, acc.2, Some(v.map_values(|t: Type6Data| t@)), acc.4)),
{
    lemma_entry_read(d, secs, m);
    lemma_section_read::<Type6Data>(d, secs, m);
    lemma_items6(d, data_start(secs, m), v);
}

proof fn lemma_entry7(d: Seq<u8>, secs: Seq<SectionSpec>, m: int, v: Seq<Type7Data>, acc: Acc)
    requires
        file_layout(d, secs),
        0 <= m < secs.len(),
        secs[m] == (7u32, item_offsets(items_bytes(v)), pad4(items_bytes(v).flatten())),
        texts_read_back(v),
    ensures
        parse_entry(d, 24 + 20 * m, entry_at(d, 24 + 20 * m), acc) == Parsed::Done((acc.0, acc.1, acc.2, acc.3, Some(read_texts(v)))),
{
    lemma_entry_read(d, secs, m);
    lemma_section_read::<Type7Data>(d, secs, m);
    lemma_items7(d, data_start(secs, m), v);
}

/// One more table entry read: the entries from `m` on read the same after it.
proof fn lemma_entries_step(d: Seq<u8>, secs: Seq<SectionSpec>, m: int, acc: Acc, acc2: Acc)
    requires
        file_layout(d, secs),
        0 <= m < secs.len(),
        parse_entry(d, 24 + 20 * m, entry_at(d, 24 + 20 * m), acc) == Parsed::Done(acc2),
    ensures
        parse_entries(d, 24, secs.len() as int, m, acc) == parse_entries(d, 24, secs.len() as int, m + 1, acc2),
{
}

/// What reading the bytes of `b` gives when each of its texts reads back
/// through Shift JIS: `b`, its texts as they read back.
pub open spec fn bytes_view(b: Bbq) -> BbqView {
    (
        b.datetime,
        opt_items_view(b.type2data),
        opt_items_view(b.type3data),
        opt_items_view(b.type5data),
        opt_items_view(b.type6data),
        match b.type7data {
            Some(v) => Some(read_texts(v@)),
            None => None,
        },
        b.footer@,
    )
}

/// What `b` must be for its bytes to read back: at least one section, each
/// type 5 item one number or a nonempty list of lines, each command's
/// argument count its number of arguments.
pub open spec fn bytes_faithful(b: Bbq) -> bool {
    &&& bbq_sections(b).len() > 0
    &&& (b.type5data matches Some(v) ==> forall|k: int| 0 <= k < v@.len() ==> type5_item_ok(#[trigger] v@[k]))
    &&& (b.type6data matches Some(v) ==> forall|k: int| 0 <= k < v@.len() ==> commands_ok(#[trigger] v@[k]))
}

/// The entries from `m` on, the sections of types up to 6 read into `acc`,
/// give the sections of `b`.
proof fn lemma_entries_tail(b: Bbq, d: Seq<u8>, secs: Seq<SectionSpec>, m: int, acc: Acc)
    requires
        file_layout(d, secs),
        secs == bbq_sections(b),
        m == secs.len() - opt_section(7, b.type7data).len(),
        acc == (opt_items_view(b.type2data), opt_items_view(b.type3data), opt_items_view(b.type5data), opt_items_view(b.type6data), None::<Seq<Seq<char>>>),
        b.type7data matches Some(v) ==> texts_read_back(v@),
    ensures
        parse_entries(d, 24, secs.len() as int, m, acc) == Parsed::Done(
            (acc.0, acc.1, acc.2, acc.3, bytes_view(b).5),
        ),
{
    let n = secs.len() as int;
    match b.type7data {
        Some(v) => {
            let s7 = opt_section(7, b.type7data);
            assert(secs == opt_section(2, b.type2data) + opt_section(3, b.type3data) + opt_section(5, b.type5data) + opt_section(6, b.type6data) + s7);
            assert(secs[m] == s7[0]);
            lemma_entry7(d, secs, m, v@, acc);
            lemma_entries_step(d, secs, m, acc, (acc.0, acc.1, acc.2, acc.3, Some(read_texts(v@))));
        },
        None => {
        },
    }
}

/// All the table entries, read in turn, give the sections of `b`.
#[verifier::rlimit(30)]
proof fn lemma_entries_all(b: Bbq, d: Seq<u8>, secs: Seq<SectionSpec>)
    requires
        file_layout(d, secs),
        secs == bbq_sections(b),
        bytes_faithful(b),
        b.type7data matches Some(v) ==> texts_read_back(v@),
    ensures
        parse_entries(d, 24, secs.len() as int, 0, (None, None, None, None, None)) == Parsed::Done(
            (bytes_view(b).1, bytes_view(b).2, bytes_view(b).3, bytes_view(b).4, bytes_view(b).5),
        ),
{
    let s2 = opt_section(2, b.type2data);
    let s3 = opt_section(3, b.type3data);
    let s5 = opt_section(5, b.type5data);
    let s6 = opt_section(6, b.type6data);
    let s7 = opt_section(7, b.type7data);
    assert(secs == s2 + s3 + s5 + s6 + s7);
    let n = secs.len() as int;
    let m3 = s2.len() as int;
    let m5 = m3 + s3.len();
    let m6 = m5 + s5.len();
    let m7 = m6 + s6.len();
    let a0: Acc = (None, None, None, None, None);
    let a1: Acc = (opt_items_view(b.type2data), None, None, None, None);
    let a2: Acc = (opt_items_view(b.type2data), opt_items_view(b.type3data), None, None, None);
    let a3: Acc = (opt_items_view(b.type2data), opt_items_view(b.type3data), opt_items_view(b.type5data), None, None);
    let a4: Acc = (opt_items_view(b.type2data), opt_items_view(b.type3data), opt_items_view(b.type5data), opt_items_view(b.type6data), None);
    match b.type2data {
        Some(v) => {
            assert(secs[0] == s2[0]);
            lemma_entry2(d, secs, 0, v@, a0);
            lemma_entries_step(d, secs, 0, a0, a1);
        },
        None => {},
    }
    match b.type3data {
        Some(v) => {
            assert(secs[m3] == s3[0]);
            lemma_entry3(d, secs, m3, v@, a1);
            lemma_entries_step(d, secs, m3, a1, a2);
        },
        None => {},
    }
    match b.type5data {
        Some(v) => {
            assert(secs[m5] == s5[0]);
            lemma_entry5(d, secs, m5, v@, a2);
            lemma_entries_step(d, secs, m5, a2, a3);
        },
        None => {},
    }
    match b.type6data {
        Some(v) => {
            assert(secs[m6] == s6[0]);
            lemma_entry6(d, secs, m6, v@, a3);
            lemma_entries_step(d, secs, m6, a3, a4);
        },
        None => {},
    }
    lemma_entries_tail(b, d, secs, m7, a4);
}

/// A file laid out as `secs`, with the header and footer given, whose table
/// entries read as `acc`, reads as those.
proof fn lemma_parse_file(d: Seq<u8>, secs: Seq<SectionSpec>, dt: u32, footer: Seq<u32>, acc: Acc)
    requires
        file_layout(d, secs),
        secs.len() > 0,
        d.subrange(0, 8) == bbq_magic(),
        u32_at(d, 8) == dt,
        u32_at(d, 12) == 1,
        u32_at(d, 16) == 0x18,
        u32_at(d, 20) == secs.len(),
        u32s_at(d, blocks_start(secs) + blocks(secs, secs.len() as int).len(), 6) == footer,
        parse_entries(d, 24, secs.len() as int, 0, (None, None, None, None, None)) == Parsed::Done(acc),
    ensures
        bbq_parse(d) == Parsed::Done((dt, acc.0, acc.1, acc.2, acc.3, acc.4, footer)),
{
    let n = secs.len() as int;
    lemma_entry_read(d, secs, n - 1);
    lemma_blocks_grow(secs, n - 1);
    lemma_u32s_len(secs[n - 1].1);
    lemma_blocks_mono(secs, n - 1, n);
    let f = entry_fields(secs, n - 1);
    let oof = 20 + blocks(secs, n - 1).len();
    assert(f[3] as int == oof + 4 * secs[n - 1].1.len());
    assert(f[4] as int == secs[n - 1].2.len());
    assert(blocks(secs, n).len() == blocks(secs, n - 1).len() + 4 * secs[n - 1].1.len() + secs[n - 1].2.len());
}

/// Reading the bytes of a `.bbq` file gives the file back, its texts as they
/// read back through Shift JIS, when it has a section, each type 5 item is one
/// number or a nonempty list of lines, each command's argument count is its
/// number of arguments, its bytes fit in 32-bit offsets, and each of its
/// texts reads back.
pub proof fn lemma_bbq_bytes_roundtrip(b: Bbq)
    requires
        bbq_bytes(b).len() <= u32::MAX,
        bytes_faithful(b),
    ensures
        (b.type7data matches Some(v) ==> texts_read_back(v@)) ==> bbq_parse(bbq_bytes(b)) == Parsed::Done(bytes_view(b)),
{
    if b.type7data matches Some(v) ==> texts_read_back(v@) {
        let d = bbq_bytes(b);
        let secs = bbq_sections(b);
        lemma_file_parts(b);
        assert(file_layout(d, secs));
        lemma_entries_all(b, d, secs);
        let bv = bytes_view(b);
        lemma_parse_file(d, secs, b.datetime, b.footer@, (bv.1, bv.2, bv.3, bv.4, bv.5));
    }
}

} // verus!
