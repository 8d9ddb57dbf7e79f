//! `.bbq` script files: a header, a table of typed sections, the sections, and
//! a footer. Type 7 sections hold the game's strings; a type 5 section holds
//! the lines of a message script.
use vstd::prelude::*;
use crate::bytes::{le_bytes_u16, le_bytes_u32, next_multiple, push_u16_le, push_u32_le, push_repeat, extend_bytes};
use crate::sjis::{sjis_encode, sjis_bytes};

verus! {

broadcast use vstd::seq::Seq::group_seq_flatten;

/// The first eight bytes of a `.bbq` file: `.BBQ1.00`.
pub open spec fn bbq_magic() -> Seq<u8> {
    seq![0x2Eu8, 0x42, 0x42, 0x51, 0x31, 0x2E, 0x30, 0x30]
}

/// A section of type 2: seven numbers.
#[derive(Debug, Clone, Copy, PartialEq, Eq)]
pub struct Type2Data {
    pub data: [u32; 7],
}

/// A section of type 3: seven numbers and a list of quadruples.
#[derive(Debug, PartialEq, Eq)]
pub struct Type3Data {
    pub data: [u32; 7],
    pub children: Vec<[u32; 4]>,
}

/// A section of type 5: a single number, or the lines of a message script as
/// (speaker id, audio flag, audio id, speaker text id, line text ids).
#[derive(Debug, PartialEq, Eq)]
pub struct Type5Data {
    pub small_data: Option<u32>,
    pub lines: Vec<(u8, u8, u16, u32, u32, u32)>,
}

/// A script command of a type 6 section.
#[derive(Debug, PartialEq, Eq)]
pub struct Command {
    pub code1: u8,
    pub code2: u8,
    pub arg_count: u16,
    pub place: u32,
    pub args: Vec<u32>,
}

/// A section of type 6: script commands.
#[derive(Debug, PartialEq, Eq)]
pub struct Type6Data {
    pub commands: Vec<Command>,
}

/// A section of type 7: one string.
#[derive(Debug, PartialEq, Eq)]
pub struct Type7Data {
    pub text: String,
}

/// A `.bbq` file: its timestamp, the sections of each type that it has, and
/// its footer.
#[derive(Debug, PartialEq, Eq)]
pub struct Bbq {
    pub datetime: u32,
    pub type2data: Option<Vec<Type2Data>>,
    pub type3data: Option<Vec<Type3Data>>,
    pub type5data: Option<Vec<Type5Data>>,
    pub type6data: Option<Vec<Type6Data>>,
    pub type7data: Option<Vec<Type7Data>>,
    pub footer: [u32; 6],
}

/// The little-endian bytes of a run of numbers.
pub open spec fn u32s_bytes(s: Seq<u32>) -> Seq<u8> {
    s.map_values(|x: u32| le_bytes_u32(x)).flatten()
}

/// Appends the little-endian bytes of `xs` to `v`.
pub fn push_u32s(v: &mut Vec<u8>, xs: &[u32])
    ensures
        final(v)@ == old(v)@ + u32s_bytes(xs@),
{
    let mut i: usize = 0;
    while i < xs.len()
        invariant
            i <= xs@.len(),
            v@ == old(v)@ + u32s_bytes(xs@.take(i as int)),
        decreases xs@.len() - i,
    {
        proof {
            assert(xs@.take(i + 1).map_values(|x: u32| le_bytes_u32(x)) =~= xs@.take(
                i as int,
            ).map_values(|x: u32| le_bytes_u32(x)).push(le_bytes_u32(xs@[i as int])));
        }
        push_u32_le(v, xs[i]);
        i = i + 1;
    }
    assert(xs@.take(xs@.len() as int) =~= xs@);
}

/// A value with a byte encoding.
pub trait ByteConvert: Sized {
    spec fn spec_bytes(&self) -> Seq<u8>;

    fn bytes(&self) -> (r: Vec<u8>)
        ensures
            r@ == self.spec_bytes(),
    ;
}

/// The bytes of a line of a type 5 section.
pub open spec fn line_bytes(l: (u8, u8, u16, u32, u32, u32)) -> Seq<u8> {
    seq![l.0, l.1] + le_bytes_u16(l.2) + le_bytes_u32(l.3) + le_bytes_u32(l.4) + le_bytes_u32(l.5)
}

impl ByteConvert for Type2Data {
    open spec fn spec_bytes(&self) -> Seq<u8> {
        u32s_bytes(self.data@)
    }

    fn bytes(&self) -> (r: Vec<u8>) {
        let mut bytes: Vec<u8> = Vec::new();
        push_u32s(&mut bytes, &self.data);
        assert(bytes@ =~= u32s_bytes(self.data@));
        bytes
    }
}

impl ByteConvert for Type3Data {
    open spec fn spec_bytes(&self) -> Seq<u8> {
        u32s_bytes(self.data@) + le_bytes_u32(self.children@.len() as u32) + self.children@.map_values(
            |c: [u32; 4]| u32s_bytes(c@),
        ).flatten()
    }

    fn bytes(&self) -> (r: Vec<u8>) {
        let mut bytes: Vec<u8> = Vec::new();
        push_u32s(&mut bytes, &self.data);
        push_u32_le(&mut bytes, self.children.len() as u32);
        let ghost start = bytes@;
        let mut i: usize = 0;
        while i < self.children.len()
            invariant
                i <= self.children@.len(),
                bytes@ == start + self.children@.take(i as int).map_values(
                    |c: [u32; 4]| u32s_bytes(c@),
                ).flatten(),
            decreases self.children@.len() - i,
        {
            proof {
                assert(self.children@.take(i + 1).map_values(|c: [u32; 4]| u32s_bytes(c@))
                    =~= self.children@.take(i as int).map_values(|c: [u32; 4]| u32s_bytes(c@)).push(
                    u32s_bytes(self.children@[i as int]@),
                ));
            }
            push_u32s(&mut bytes, &self.children[i]);
            i = i + 1;
        }
        assert(self.children@.take(self.children@.len() as int) =~= self.children@);
        assert(bytes@ =~= self.spec_bytes());
        bytes
    }
}

impl ByteConvert for Type5Data {
    open spec fn spec_bytes(&self) -> Seq<u8> {
        match self.small_data {
            Some(x) => le_bytes_u32(x),
            None => self.lines@.map_values(|l: (u8, u8, u16, u32, u32, u32)| line_bytes(l)).flatten(),
        }
    }

    fn bytes(&self) -> (r: Vec<u8>) {
        let mut bytes: Vec<u8> = Vec::new();
        if let Some(x) = self.small_data {
            push_u32_le(&mut bytes, x);
            assert(bytes@ =~= le_bytes_u32(x));
        } else {
            let mut i: usize = 0;
            while i < self.lines.len()
                invariant
                    i <= self.lines@.len(),
                    bytes@ == self.lines@.take(i as int).map_values(
                        |l: (u8, u8, u16, u32, u32, u32)| line_bytes(l),
                    ).flatten(),
                decreases self.lines@.len() - i,
            {
                let line = self.lines[i];
                proof {
                    assert(self.lines@.take(i + 1).map_values(
                        |l: (u8, u8, u16, u32, u32, u32)| line_bytes(l),
                    ) =~= self.lines@.take(i as int).map_values(
                        |l: (u8, u8, u16, u32, u32, u32)| line_bytes(l),
                    ).push(line_bytes(line)));
                }
                let ghost before = bytes@;
                bytes.push(line.0);
                bytes.push(line.1);
                push_u16_le(&mut bytes, line.2);
                push_u32_le(&mut bytes, line.3);
                push_u32_le(&mut bytes, line.4);
                push_u32_le(&mut bytes, line.5);
                assert(bytes@ =~= before + line_bytes(line));
                i = i + 1;
            }
            assert(self.lines@.take(self.lines@.len() as int) =~= self.lines@);
        }
        bytes
    }
}

impl Command {
    /// The number of bytes of the command.
    pub open spec fn spec_size(&self) -> int {
        8 + 4 * (self.args@.len() as int)
    }

    /// The number of bytes of the command.
    pub fn size(&self) -> (r: u64)
        requires
            self.spec_size() <= u64::MAX,
        ensures
            r == self.spec_size(),
    {
        8 + 4 * self.args.len() as u64
    }
}

impl ByteConvert for Command {
    open spec fn spec_bytes(&self) -> Seq<u8> {
        seq![self.code1, self.code2] + le_bytes_u16(self.arg_count) + le_bytes_u32(self.place)
            + u32s_bytes(self.args@)
    }

    fn bytes(&self) -> (r: Vec<u8>) {
        let mut bytes: Vec<u8> = Vec::new();
        bytes.push(self.code1);
        bytes.push(self.code2);
        push_u16_le(&mut bytes, self.arg_count);
        push_u32_le(&mut bytes, self.place);
        push_u32s(&mut bytes, self.args.as_slice());
        assert(bytes@ =~= self.spec_bytes());
        bytes
    }
}

impl ByteConvert for Type6Data {
    open spec fn spec_bytes(&self) -> Seq<u8> {
        self.commands@.map_values(|c: Command| c.spec_bytes()).flatten()
    }

    fn bytes(&self) -> (r: Vec<u8>) {
        let mut bytes: Vec<u8> = Vec::new();
        let mut i: usize = 0;
        while i < self.commands.len()
            invariant
                i <= self.commands@.len(),
                bytes@ == self.commands@.take(i as int).map_values(|c: Command| c.spec_bytes()).flatten(),
            decreases self.commands@.len() - i,
        {
            proof {
                assert(self.commands@.take(i + 1).map_values(|c: Command| c.spec_bytes())
                    =~= self.commands@.take(i as int).map_values(|c: Command| c.spec_bytes()).push(
                    self.commands@[i as int].spec_bytes(),
                ));
            }
            let cb = self.commands[i].bytes();
            extend_bytes(&mut bytes, cb.as_slice());
            i = i + 1;
        }
        assert(self.commands@.take(self.commands@.len() as int) =~= self.commands@);
        bytes
    }
}

impl ByteConvert for Type7Data {
    open spec fn spec_bytes(&self) -> Seq<u8> {
        sjis_encode(self.text@).push(0)
    }

    fn bytes(&self) -> (r: Vec<u8>) {
        let mut bytes = sjis_bytes(self.text.as_str());
        bytes.push(0);
        bytes
    }
}

/// The byte encodings of a run of items.
pub open spec fn items_bytes<T: ByteConvert>(items: Seq<T>) -> Seq<Seq<u8>> {
    items.map_values(|t: T| t.spec_bytes())
}

/// `s` padded with zeros to a multiple of 4 bytes.
pub open spec fn pad4(s: Seq<u8>) -> Seq<u8> {
    s + Seq::new((next_multiple(s.len() as int, 4) - s.len()) as nat, |_i: int| 0u8)
}

/// The offset of each item from the start of the section's data.
pub open spec fn item_offsets(items: Seq<Seq<u8>>) -> Seq<u32> {
    Seq::new(items.len(), |i: int| items.take(i).flatten().len() as u32)
}

/// The offsets and the padded data of a section.
pub open spec fn offsets_data_spec(items: Seq<Seq<u8>>) -> (Seq<u32>, Seq<u8>) {
    (item_offsets(items), pad4(items.flatten()))
}

proof fn lemma_next_multiple_4(x: int)
    requires
        x >= 0,
    ensures
        x <= next_multiple(x, 4) < x + 4,
        next_multiple(x, 4) % 4 == 0,
{
}

/// The offset of each item within the data, and the data padded with zeros to
/// a multiple of 4 bytes.
pub fn offsets_and_data<T: ByteConvert>(data: &[T]) -> (r: (Vec<u32>, Vec<u8>))
    requires
        items_bytes(data@).flatten().len() <= u32::MAX,
    ensures
        r.0@ == offsets_data_spec(items_bytes(data@)).0,
        r.1@ == offsets_data_spec(items_bytes(data@)).1,
{
    let ghost items = items_bytes(data@);
    let mut offsets: Vec<u32> = Vec::new();
    let mut bytes: Vec<u8> = Vec::new();
    let mut current_offset: u32 = 0;
    let mut i: usize = 0;
    while i < data.len()
        invariant
            i <= data@.len(),
            items == items_bytes(data@),
            items.flatten().len() <= u32::MAX,
            bytes@ == items.take(i as int).flatten(),
            current_offset == bytes@.len(),
            offsets@ == item_offsets(items.take(i as int)),
        decreases data@.len() - i,
    {
        proof {
            assert(items.take(i + 1) =~= items.take(i as int).push(items[i as int]));
            vstd::seq_lib::lemma_flatten_concat(items.take(i + 1), items.skip(i + 1));
            assert(items.take(i + 1) + items.skip(i + 1) =~= items);
        }
        offsets.push(current_offset);
        let data_bytes = data[i].bytes();
        current_offset = current_offset + data_bytes.len() as u32;
        extend_bytes(&mut bytes, data_bytes.as_slice());
        proof {
            assert forall|j: int| 0 <= j < i + 1 implies #[trigger] items.take(i + 1).take(j)
                == items.take(i as int).take(j) || j == i by {
                if j < i {
                    assert(items.take(i + 1).take(j) =~= items.take(i as int).take(j));
                }
            }
            assert(items.take(i + 1).take(i as int) =~= items.take(i as int));
            assert(offsets@ =~= item_offsets(items.take(i + 1)));
        }
        i = i + 1;
    }
    assert(items.take(data@.len() as int) =~= items);
    let data_size = bytes.len();
    proof {
        lemma_next_multiple_4(data_size as int);
    }
    let pad_amount: usize = if data_size % 4 == 0 {
        0
    } else {
        4 - data_size % 4
    };
    push_repeat(&mut bytes, 0, pad_amount);
    (offsets, bytes)
}


/// A section: its type, the offsets of its items, and its padded data.
pub type SectionSpec = (u32, Seq<u32>, Seq<u8>);

/// The section of type `ty` made of `items`, if there are such items.
pub open spec fn opt_section<T: ByteConvert>(ty: u32, o: Option<Vec<T>>) -> Seq<SectionSpec> {
    match o {
        Some(v) => seq![
            (
                ty,
                offsets_data_spec(items_bytes(v@)).0,
                offsets_data_spec(items_bytes(v@)).1,
            ),
        ],
        None => Seq::empty(),
    }
}

/// The sections of `b`, in the order of their types.
pub open spec fn bbq_sections(b: Bbq) -> Seq<SectionSpec> {
    opt_section(2, b.type2data) + opt_section(3, b.type3data) + opt_section(5, b.type5data)
        + opt_section(6, b.type6data) + opt_section(7, b.type7data)
}

/// A section as stored: its offsets, then its data.
pub open spec fn section_block(s: SectionSpec) -> Seq<u8> {
    u32s_bytes(s.1) + s.2
}

/// The stored blocks of the first `i` sections.
pub open spec fn blocks(secs: Seq<SectionSpec>, i: int) -> Seq<u8> {
    secs.take(i).map_values(|s: SectionSpec| section_block(s)).flatten()
}

/// The table entry of section `i`: its type, where its offsets are and how
/// many, where its data is and how long, positions counted from the entry.
pub open spec fn entry_fields(secs: Seq<SectionSpec>, i: int) -> Seq<u32> {
    let oo = (secs.len() - i) * 0x14 + blocks(secs, i).len();
    seq![
        secs[i].0,
        oo as u32,
        secs[i].1.len() as u32,
        (oo + 4 * secs[i].1.len()) as u32,
        secs[i].2.len() as u32,
    ]
}

/// The table of sections.
pub open spec fn entries_table(secs: Seq<SectionSpec>) -> Seq<u8> {
    Seq::new(secs.len(), |i: int| u32s_bytes(entry_fields(secs, i))).flatten()
}

/// The bytes of a `.bbq` file.
pub open spec fn bbq_bytes(b: Bbq) -> Seq<u8> {
    let secs = bbq_sections(b);
    bbq_magic() + u32s_bytes(seq![b.datetime, 1u32, 0x18u32, secs.len() as u32]) + entries_table(
        secs,
    ) + blocks(secs, secs.len() as int) + u32s_bytes(b.footer@)
}

pub proof fn lemma_u32s_len(s: Seq<u32>)
    ensures
        u32s_bytes(s).len() == 4 * s.len(),
    decreases s.len(),
{
    if s.len() > 0 {
        lemma_u32s_len(s.drop_last());
        assert(s.map_values(|x: u32| le_bytes_u32(x)) =~= s.drop_last().map_values(
            |x: u32| le_bytes_u32(x),
        ).push(le_bytes_u32(s.last())));
    }
}

pub proof fn lemma_entries_len(secs: Seq<SectionSpec>, n: int)
    requires
        0 <= n <= secs.len(),
    ensures
        Seq::new(secs.len(), |i: int| u32s_bytes(entry_fields(secs, i))).take(n).flatten().len()
            == 20 * n,
    decreases n,
{
    let f = Seq::new(secs.len(), |i: int| u32s_bytes(entry_fields(secs, i)));
    if n > 0 {
        lemma_entries_len(secs, n - 1);
        assert(f.take(n) =~= f.take(n - 1).push(f[n - 1]));
        lemma_u32s_len(entry_fields(secs, n - 1));
    }
}

pub proof fn lemma_blocks_grow(secs: Seq<SectionSpec>, i: int)
    requires
        0 <= i < secs.len(),
    ensures
        blocks(secs, i + 1) == blocks(secs, i) + section_block(secs[i]),
{
    assert(secs.take(i + 1).map_values(|s: SectionSpec| section_block(s)) =~= secs.take(
        i,
    ).map_values(|s: SectionSpec| section_block(s)).push(section_block(secs[i])));
}

pub proof fn lemma_blocks_mono(secs: Seq<SectionSpec>, i: int, j: int)
    requires
        0 <= i <= j <= secs.len(),
    ensures
        blocks(secs, i).len() + (if i < j {
            section_block(secs[i]).len() as int
        } else {
            0
        }) <= blocks(secs, j).len(),
    decreases j - i,
{
    if i < j {
        lemma_blocks_grow(secs, i);
        if i + 1 < j {
            lemma_blocks_mono(secs, i + 1, j);
        }
    }
}


fn push_section<T: ByteConvert>(
    sections: &mut Vec<(u32, Vec<u32>, Vec<u8>)>,
    ty: u32,
    data: &Option<Vec<T>>,
)
    requires
        data matches Some(v) ==> items_bytes(v@).flatten().len() <= u32::MAX,
    ensures
        final(sections)@.map_values(|s: (u32, Vec<u32>, Vec<u8>)| (s.0, s.1@, s.2@)) == old(
            sections,
        )@.map_values(|s: (u32, Vec<u32>, Vec<u8>)| (s.0, s.1@, s.2@)) + opt_section(ty, *data),
{
    if let Some(data) = data {
        let (offsets, bytes) = offsets_and_data(data.as_slice());
        sections.push((ty, offsets, bytes));
    }
    assert(final(sections)@.map_values(|s: (u32, Vec<u32>, Vec<u8>)| (s.0, s.1@, s.2@)) =~= old(
        sections,
    )@.map_values(|s: (u32, Vec<u32>, Vec<u8>)| (s.0, s.1@, s.2@)) + opt_section(ty, *data));
}

proof fn lemma_section_fits<T: ByteConvert>(b: Bbq, ty: u32, o: Option<Vec<T>>, k: int)
    requires
        bbq_bytes(b).len() <= u32::MAX,
        0 <= k < bbq_sections(b).len(),
        opt_section(ty, o).len() == 1,
        bbq_sections(b)[k] == opt_section(ty, o)[0],
    ensures
        o matches Some(v) ==> items_bytes(v@).flatten().len() <= u32::MAX,
{
    let secs = bbq_sections(b);
    lemma_blocks_mono(secs, k, secs.len() as int);
    if let Some(v) = o {
        let items = items_bytes(v@);
        lemma_next_multiple_4(items.flatten().len() as int);
    }
}

impl Bbq {
    /// The bytes of the file: the header, the table of sections, each
    /// section's item offsets and padded data, and the footer.
    #[verifier::rlimit(60)]
    pub fn bytes(&self) -> (r: Vec<u8>)
        requires
            bbq_bytes(*self).len() <= u32::MAX,
        ensures
            r@ == bbq_bytes(*self),
    {
        let ghost secs = bbq_sections(*self);
        let ghost s2 = opt_section(2, self.type2data);
        let ghost s3 = opt_section(3, self.type3data);
        let ghost s5 = opt_section(5, self.type5data);
        let ghost s6 = opt_section(6, self.type6data);
        let ghost s7 = opt_section(7, self.type7data);
        proof {
            assert(secs =~= s2 + s3 + s5 + s6 + s7);
            if s2.len() == 1 {
                assert(secs[0] == s2[0]);
                lemma_section_fits(*self, 2, self.type2data, 0);
            }
            if s3.len() == 1 {
                let k = s2.len() as int;
                assert(secs[k] == s3[0]);
                lemma_section_fits(*self, 3, self.type3data, k);
            }
            if s5.len() == 1 {
                let k = (s2.len() + s3.len()) as int;
                assert(secs[k] == s5[0]);
                lemma_section_fits(*self, 5, self.type5data, k);
            }
            if s6.len() == 1 {
                let k = (s2.len() + s3.len() + s5.len()) as int;
                assert(secs[k] == s6[0]);
                lemma_section_fits(*self, 6, self.type6data, k);
            }
            if s7.len() == 1 {
                let k = (s2.len() + s3.len() + s5.len() + s6.len()) as int;
                assert(secs[k] == s7[0]);
                lemma_section_fits(*self, 7, self.type7data, k);
            }
        }
        let mut sections: Vec<(u32, Vec<u32>, Vec<u8>)> = Vec::new();
        push_section(&mut sections, 2, &self.type2data);
        push_section(&mut sections, 3, &self.type3data);
        push_section(&mut sections, 5, &self.type5data);
        push_section(&mut sections, 6, &self.type6data);
        push_section(&mut sections, 7, &self.type7data);
        assert(sections@.map_values(|s: (u32, Vec<u32>, Vec<u8>)| (s.0, s.1@, s.2@)) =~= secs);
        let section_count = sections.len() as u32;
        let mut header: Vec<u8> = Vec::new();
        extend_bytes(&mut header, &[0x2Eu8, 0x42, 0x42, 0x51, 0x31, 0x2E, 0x30, 0x30]);
        push_u32s(&mut header, &[self.datetime, 1u32, 0x18u32, section_count]);
        let ghost head = header@;
        proof {
            let hs = seq![self.datetime, 1u32, 0x18u32, secs.len() as u32];
            assert([self.datetime, 1u32, 0x18u32, section_count]@ =~= hs);
            assert([0x2Eu8, 0x42, 0x42, 0x51, 0x31, 0x2E, 0x30, 0x30]@ =~= bbq_magic());
            lemma_u32s_len(hs);
            assert(head =~= bbq_magic() + u32s_bytes(hs));
        }
        let ghost ents = Seq::new(secs.len(), |i: int| u32s_bytes(entry_fields(secs, i)));
        let mut data: Vec<u8> = Vec::new();
        let mut i: usize = 0;
        proof {
            lemma_blocks_mono(secs, 0, secs.len() as int);
            lemma_entries_len(secs, secs.len() as int);
            assert(ents.take(secs.len() as int) =~= ents);
        }
        while i < sections.len()
            invariant
                i <= sections@.len(),
                sections@.len() == secs.len(),
                secs.len() <= 5,
                section_count == secs.len(),
                sections@.map_values(|s: (u32, Vec<u32>, Vec<u8>)| (s.0, s.1@, s.2@)) == secs,
                secs == bbq_sections(*self),
                bbq_bytes(*self).len() <= u32::MAX,
                ents == Seq::new(secs.len(), |i: int| u32s_bytes(entry_fields(secs, i))),
                ents.flatten().len() == 20 * secs.len(),
                header@ == head + ents.take(i as int).flatten(),
                data@ == blocks(secs, i as int),
                head.len() == 24,
                bbq_bytes(*self) == head + ents.flatten() + blocks(secs, secs.len() as int)
                    + u32s_bytes(self.footer@),
            decreases sections@.len() - i,
        {
            let ghost sec = secs[i as int];
            assert(sections@[i as int].1@ == sec.1);
            assert(sections@[i as int].2@ == sec.2);
            proof {
                lemma_blocks_grow(secs, i as int);
                lemma_blocks_mono(secs, i + 1, secs.len() as int);
                lemma_u32s_len(sec.1);
            }
            let data_type = sections[i].0;
            let offsets_offset: u32 = (section_count - i as u32) * 0x14 + (data.len() as u32);
            let data_count: u32 = sections[i].1.len() as u32;
            let data_offset: u32 = offsets_offset + 4 * data_count;
            let data_size: u32 = sections[i].2.len() as u32;
            let ghost before = header@;
            push_u32s(&mut header, &[data_type, offsets_offset, data_count, data_offset, data_size]);
            proof {
                let ef = entry_fields(secs, i as int);
                assert([data_type, offsets_offset, data_count, data_offset, data_size]@ =~= ef);
                assert(ents.take(i + 1) =~= ents.take(i as int).push(ents[i as int]));
            }
            push_u32s(&mut data, sections[i].1.as_slice());
            extend_bytes(&mut data, sections[i].2.as_slice());
            assert(data@ =~= blocks(secs, i + 1));
            i = i + 1;
        }
        assert(ents.take(secs.len() as int) =~= ents);
        header.append(&mut data);
        push_u32s(&mut header, &self.footer);
        assert(header@ =~= bbq_bytes(*self));
        header
    }

    /// Whether the bytes of the file fit in 32 bits, as `bytes` needs.
    pub fn bytes_fit(&self) -> (r: bool)
        ensures
            r == (bbq_bytes(*self).len() <= u32::MAX),
    {
        proof {
            lemma_bbq_len(*self);
        }
        let a = match section_size(&self.type2data) {
            Some(n) => n,
            None => return false,
        };
        let b = match section_size(&self.type3data) {
            Some(n) => n,
            None => return false,
        };
        let c = match section_size(&self.type5data) {
            Some(n) => n,
            None => return false,
        };
        let e = match section_size(&self.type6data) {
            Some(n) => n,
            None => return false,
        };
        let f = match section_size(&self.type7data) {
            Some(n) => n,
            None => return false,
        };
        48 + a + b + c + e + f <= 0xFFFF_FFFF
    }
}

/// The bytes that the section made of `o` adds to the file: its table
/// entry, its item offsets and its padded data.
pub open spec fn section_size_spec<T: ByteConvert>(o: Option<Vec<T>>) -> int {
    match o {
        Some(v) => 20 + 4 * v@.len() + next_multiple(items_bytes(v@).flatten().len() as int, 4),
        None => 0,
    }
}

/// The bytes that the sections `secs` add to the file.
pub open spec fn sections_size(secs: Seq<SectionSpec>) -> int
    decreases secs.len(),
{
    if secs.len() == 0 {
        0
    } else {
        sections_size(secs.drop_last()) + 20 + 4 * secs.last().1.len() + secs.last().2.len()
    }
}

proof fn lemma_sections_size_concat(a: Seq<SectionSpec>, b: Seq<SectionSpec>)
    ensures
        sections_size(a + b) == sections_size(a) + sections_size(b),
    decreases b.len(),
{
    if b.len() > 0 {
        lemma_sections_size_concat(a, b.drop_last());
        assert((a + b).drop_last() =~= a + b.drop_last());
    } else {
        assert(a + b =~= a);
    }
}

proof fn lemma_blocks_size(secs: Seq<SectionSpec>, i: int)
    requires
        0 <= i <= secs.len(),
    ensures
        20 * i + blocks(secs, i).len() == sections_size(secs.take(i)),
    decreases i,
{
    if i > 0 {
        lemma_blocks_size(secs, i - 1);
        lemma_blocks_grow(secs, i - 1);
        lemma_u32s_len(secs[i - 1].1);
        assert(secs.take(i).drop_last() =~= secs.take(i - 1));
    } else {
        assert(blocks(secs, 0) =~= Seq::<u8>::empty());
    }
}

proof fn lemma_opt_section_size<T: ByteConvert>(ty: u32, o: Option<Vec<T>>)
    ensures
        sections_size(opt_section(ty, o)) == section_size_spec(o),
{
    if let Some(v) = o {
        let sec = opt_section(ty, o);
        let flat = items_bytes(v@).flatten();
        assert(sec.drop_last() =~= Seq::<SectionSpec>::empty());
        assert(sections_size(sec.drop_last()) == 0);
        lemma_next_multiple_4(flat.len() as int);
        assert(pad4(flat).len() == next_multiple(flat.len() as int, 4));
        assert(item_offsets(items_bytes(v@)).len() == v@.len());
    }
}

proof fn lemma_bbq_len(b: Bbq)
    ensures
        bbq_bytes(b).len() == 48 + section_size_spec(b.type2data) + section_size_spec(b.type3data)
            + section_size_spec(b.type5data) + section_size_spec(b.type6data) + section_size_spec(
            b.type7data,
        ),
{
    let secs = bbq_sections(b);
    let n = secs.len() as int;
    lemma_u32s_len(seq![b.datetime, 1u32, 0x18u32, secs.len() as u32]);
    lemma_u32s_len(b.footer@);
    lemma_entries_len(secs, n);
    assert(Seq::new(secs.len(), |i: int| u32s_bytes(entry_fields(secs, i))).take(n) =~= Seq::new(
        secs.len(),
        |i: int| u32s_bytes(entry_fields(secs, i)),
    ));
    lemma_blocks_size(secs, n);
    assert(secs.take(n) =~= secs);
    let s2 = opt_section(2, b.type2data);
    let s3 = opt_section(3, b.type3data);
    let s5 = opt_section(5, b.type5data);
    let s6 = opt_section(6, b.type6data);
    let s7 = opt_section(7, b.type7data);
    lemma_sections_size_concat(s2 + s3 + s5 + s6, s7);
    lemma_sections_size_concat(s2 + s3 + s5, s6);
    lemma_sections_size_concat(s2 + s3, s5);
    lemma_sections_size_concat(s2, s3);
    lemma_opt_section_size(2, b.type2data);
    lemma_opt_section_size(3, b.type3data);
    lemma_opt_section_size(5, b.type5data);
    lemma_opt_section_size(6, b.type6data);
    lemma_opt_section_size(7, b.type7data);
}

/// The bytes that the section made of `o` adds to the file, or `None` when
/// they do not fit in 32 bits.
fn section_size<T: ByteConvert>(o: &Option<Vec<T>>) -> (r: Option<u64>)
    ensures
        match r {
            Some(n) => n == section_size_spec(*o) && n <= u32::MAX,
            None => section_size_spec(*o) > u32::MAX,
        },
{
    match o {
        None => {
            assert(section_size_spec(*o) == 0);
            Some(0)
        },
        Some(v) => {
            if v.len() > 0x4000_0000 {
                proof {
                    lemma_next_multiple_4(items_bytes(v@).flatten().len() as int);
                }
                return None;
            }
            let ghost items = items_bytes(v@);
            let mut flat: u64 = 0;
            let mut i: usize = 0;
            while i < v.len()
                invariant
                    i <= v@.len(),
                    items == items_bytes(v@),
                    section_size_spec(*o) == 20 + 4 * v@.len() + next_multiple(items.flatten().len() as int, 4),
                    flat == items.take(i as int).flatten().len(),
                    flat <= u32::MAX,
                decreases v@.len() - i,
            {
                proof {
                    assert(items.take(i + 1) =~= items.take(i as int).push(items[i as int]));
                }
                let len = v[i].bytes().len();
                assert(items[i as int] == v@[i as int].spec_bytes());
                assert(items.take(i + 1).flatten().len() == flat + len);
                if len as u64 > 0xFFFF_FFFF - flat {
                    proof {
                        vstd::seq_lib::lemma_flatten_concat(items.take(i + 1), items.skip(i + 1));
                        assert(items.take(i + 1) + items.skip(i + 1) =~= items);
                        assert(items.flatten().len() >= items.take(i + 1).flatten().len());
                        lemma_next_multiple_4(items.flatten().len() as int);
                        assert(section_size_spec(*o) >= items.flatten().len());
                    }
                    return None;
                }
                flat = flat + len as u64;
                i = i + 1;
            }
            assert(items.take(v@.len() as int) =~= items);
            proof {
                lemma_next_multiple_4(flat as int);
            }
            let padded: u64 = if flat % 4 == 0 {
                flat
            } else {
                flat + (4 - flat % 4)
            };
            assert(flat == items.flatten().len());
            assert(padded == next_multiple(flat as int, 4));
            let total: u64 = 20 + 4 * v.len() as u64 + padded;
            assert(total == section_size_spec(*o));
            if total > 0xFFFF_FFFF {
                None
            } else {
                Some(total)
            }
        },
    }
}

} // verus!
