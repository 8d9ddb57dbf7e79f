//! Reading a `.bbq` file from its bytes.
use vstd::prelude::*;
use crate::bytes::{u16_at, u32_at, read_u16_le, read_u32_le};
use crate::bbq::{bbq_magic, Bbq, Command, Type2Data, Type3Data, Type5Data, Type6Data, Type7Data};
use crate::sjis::{sjis_decode, decode_sjis};

verus! {

/// The ways in which a `.bbq` file can be refused.
#[derive(Debug, Clone, Copy, PartialEq, Eq, Structural)]
pub enum BbqError {
    /// A read goes past the end of the file.
    UnexpectedEof,
    /// The magic bytes or the version of the header are wrong.
    BadHeader,
    /// The file has no sections.
    NoSections,
    /// A type 2 item is not 28 bytes long.
    Type2Size,
    /// A type 3 item's size disagrees with its number of children.
    Type3Size,
    /// A type 5 item is empty.
    Type5Empty,
    /// A type 5 item's size is neither 4 nor a multiple of 16.
    Type5Size,
    /// A type 6 item's commands overrun its size.
    Type6Size,
    /// A type 7 item does not end with a zero byte.
    Type7NotTerminated,
    /// A type 7 item is not valid Shift JIS.
    Type7BadText,
}

/// What reading gives: a value, a refusal, or a computation that the reader
/// cannot perform (an arithmetic overflow or underflow on the file's numbers).
pub enum Parsed<V> {
    Done(V),
    Refused(BbqError),
    Fault,
}

/// The outcome of a read in executable code.
pub enum ReadOut<T> {
    Done(T),
    Refused(BbqError),
    Fault,
}

/// A read agrees with what the specification says of it.
pub open spec fn read_matches<T: View>(r: ReadOut<T>, p: Parsed<T::V>) -> bool {
    match r {
        ReadOut::Done(t) => p == Parsed::<T::V>::Done(t@),
        ReadOut::Refused(e) => p == Parsed::<T::V>::Refused(e),
        ReadOut::Fault => p is Fault,
    }
}

/// `n` little-endian numbers at `pos`.
pub open spec fn u32s_at(d: Seq<u8>, pos: int, n: nat) -> Seq<u32> {
    Seq::new(n, |i: int| u32_at(d, pos + 4 * i))
}

/// A line of a type 5 item at `pos`.
pub open spec fn line_at(d: Seq<u8>, pos: int) -> (u8, u8, u16, u32, u32, u32) {
    (d[pos], d[pos + 1], u16_at(d, pos + 2), u32_at(d, pos + 4), u32_at(d, pos + 8), u32_at(d, pos + 12))
}

/// `s` without its trailing zero bytes.
pub open spec fn trim_zeros(s: Seq<u8>) -> Seq<u8>
    decreases s.len(),
{
    if s.len() > 0 && s.last() == 0 {
        trim_zeros(s.drop_last())
    } else {
        s
    }
}

/// The commands of a type 6 item from `pos`, `read` of its `size` bytes done.
pub open spec fn parse_commands(d: Seq<u8>, pos: int, read: int, size: int) -> Parsed<
    Seq<(u8, u8, u16, u32, Seq<u32>)>,
>
    decreases (if read < size {
        size - read
    } else {
        0
    }),
{
    if read >= size {
        if read == size {
            Parsed::Done(Seq::empty())
        } else {
            Parsed::Refused(BbqError::Type6Size)
        }
    } else if pos + 8 > d.len() {
        Parsed::Refused(BbqError::UnexpectedEof)
    } else {
        let ac = u16_at(d, pos + 2);
        if pos + 8 + 4 * ac > d.len() {
            Parsed::Refused(BbqError::UnexpectedEof)
        } else {
            let c = (d[pos], d[pos + 1], ac, u32_at(d, pos + 4), u32s_at(d, pos + 8, ac as nat));
            match parse_commands(d, pos + 8 + 4 * ac, read + 8 + 4 * ac, size) {
                Parsed::Done(cs) => Parsed::Done(seq![c] + cs),
                Parsed::Refused(e) => Parsed::Refused(e),
                Parsed::Fault => Parsed::Fault,
            }
        }
    }
}

/// An item of a section, read from `size` bytes at `pos`.
pub trait BbqItem: Sized + View {
    spec fn parse_spec(d: Seq<u8>, pos: int, size: int) -> Parsed<Self::V>;

    fn read_item(d: &[u8], pos: u64, size: u64) -> (r: ReadOut<Self>)
        requires
            pos <= 0x2_0000_0000,
            size <= 0x1_0000_0000,
        ensures
            read_matches(r, Self::parse_spec(d@, pos as int, size as int)),
    ;
}

impl View for Type2Data {
    type V = Seq<u32>;

    open spec fn view(&self) -> Seq<u32> {
        self.data@
    }
}

impl View for Type3Data {
    type V = (Seq<u32>, Seq<Seq<u32>>);

    open spec fn view(&self) -> (Seq<u32>, Seq<Seq<u32>>) {
        (self.data@, self.children@.map_values(|c: [u32; 4]| c@))
    }
}

impl View for Type5Data {
    type V = (Option<u32>, Seq<(u8, u8, u16, u32, u32, u32)>);

    open spec fn view(&self) -> (Option<u32>, Seq<(u8, u8, u16, u32, u32, u32)>) {
        (self.small_data, self.lines@)
    }
}

impl View for Command {
    type V = (u8, u8, u16, u32, Seq<u32>);

    open spec fn view(&self) -> (u8, u8, u16, u32, Seq<u32>) {
        (self.code1, self.code2, self.arg_count, self.place, self.args@)
    }
}

impl View for Type6Data {
    type V = Seq<(u8, u8, u16, u32, Seq<u32>)>;

    open spec fn view(&self) -> Seq<(u8, u8, u16, u32, Seq<u32>)> {
        self.commands@.map_values(|c: Command| c@)
    }
}

impl View for Type7Data {
    type V = Seq<char>;

    open spec fn view(&self) -> Seq<char> {
        self.text@
    }
}

/// Reads `n` numbers at `pos`, or `None` past the end.
fn read_u32s(d: &[u8], pos: u64, n: u64) -> (r: Option<Vec<u32>>)
    ensures
        match r {
            Some(v) => pos + 4 * n <= d@.len() && v@ == u32s_at(d@, pos as int, n as nat),
            None => pos + 4 * n > d@.len(),
        },
{
    if pos > d.len() as u64 || n > (d.len() as u64 - pos) / 4 {
        return None;
    }
    let mut v: Vec<u32> = Vec::new();
    let mut i: u64 = 0;
    while i < n
        invariant
            i <= n,
            pos + 4 * n <= d.len(),
            v@ == u32s_at(d@, pos as int, i as nat),
        decreases n - i,
    {
        let x = read_u32_le(d, (pos + 4 * i) as usize).unwrap();
        v.push(x);
        i = i + 1;
        assert(v@ =~= u32s_at(d@, pos as int, i as nat));
    }
    Some(v)
}

impl BbqItem for Type2Data {
    open spec fn parse_spec(d: Seq<u8>, pos: int, size: int) -> Parsed<Seq<u32>> {
        if size != 28 {
            Parsed::Refused(BbqError::Type2Size)
        } else if pos + 28 > d.len() {
            Parsed::Refused(BbqError::UnexpectedEof)
        } else {
            Parsed::Done(u32s_at(d, pos, 7))
        }
    }

    fn read_item(d: &[u8], pos: u64, size: u64) -> (r: ReadOut<Type2Data>) {
        if size != 28 {
            return ReadOut::Refused(BbqError::Type2Size);
        }
        match read_u32s(d, pos, 7) {
            None => ReadOut::Refused(BbqError::UnexpectedEof),
            Some(v) => {
                let data = [v[0], v[1], v[2], v[3], v[4], v[5], v[6]];
                assert(data@ =~= v@);
                ReadOut::Done(Type2Data { data })
            },
        }
    }
}

impl BbqItem for Type3Data {
    open spec fn parse_spec(d: Seq<u8>, pos: int, size: int) -> Parsed<
        (Seq<u32>, Seq<Seq<u32>>),
    > {
        if pos + 32 > d.len() {
            Parsed::Refused(BbqError::UnexpectedEof)
        } else {
            let cc = u32_at(d, pos + 28);
            if 32 + 16 * cc > u32::MAX {
                Parsed::Fault
            } else if size != 32 + 16 * cc {
                Parsed::Refused(BbqError::Type3Size)
            } else if pos + 32 + 16 * cc > d.len() {
                Parsed::Refused(BbqError::UnexpectedEof)
            } else {
                Parsed::Done(
                    (
                        u32s_at(d, pos, 7),
                        Seq::new(cc as nat, |i: int| u32s_at(d, pos + 32 + 16 * i, 4)),
                    ),
                )
            }
        }
    }

    fn read_item(d: &[u8], pos: u64, size: u64) -> (r: ReadOut<Type3Data>) {
        let v = match read_u32s(d, pos, 8) {
            None => {
                return ReadOut::Refused(BbqError::UnexpectedEof);
            },
            Some(v) => v,
        };
        let data = [v[0], v[1], v[2], v[3], v[4], v[5], v[6]];
        assert(data@ =~= u32s_at(d@, pos as int, 7));
        let child_count = v[7];
        if child_count > (u32::MAX - 32) / 16 {
            return ReadOut::Fault;
        }
        if size != (32 + 16 * child_count) as u64 {
            return ReadOut::Refused(BbqError::Type3Size);
        }
        let mut children: Vec<[u32; 4]> = Vec::new();
        let mut i: u32 = 0;
        while i < child_count
            invariant
                i <= child_count,
                child_count == u32_at(d@, pos + 28),
                size == 32 + 16 * child_count,
                32 + 16 * child_count <= u32::MAX,
                pos <= 0x2_0000_0000,
                pos + 32 + 16 * i <= d@.len(),
                children@.map_values(|c: [u32; 4]| c@) == Seq::new(
                    i as nat,
                    |k: int| u32s_at(d@, pos + 32 + 16 * k, 4),
                ),
            decreases child_count - i,
        {
            match read_u32s(d, pos + 32 + 16 * (i as u64), 4) {
                None => {
                    assert(pos + 32 + 16 * child_count > d@.len()) by (nonlinear_arith)
                        requires
                            pos + 32 + 16 * i + 16 > d@.len(),
                            i < child_count,
                    ;
                    return ReadOut::Refused(BbqError::UnexpectedEof);
                },
                Some(c) => {
                    let child = [c[0], c[1], c[2], c[3]];
                    assert(child@ =~= c@);
                    let ghost before = children@.map_values(|c: [u32; 4]| c@);
                    children.push(child);
                    assert(children@.map_values(|c: [u32; 4]| c@) =~= before.push(child@));
                },
            }
            i = i + 1;
            assert(children@.map_values(|c: [u32; 4]| c@) =~= Seq::new(
                i as nat,
                |k: int| u32s_at(d@, pos + 32 + 16 * k, 4),
            ));
        }
        ReadOut::Done(Type3Data { data, children })
    }
}

impl BbqItem for Type5Data {
    open spec fn parse_spec(d: Seq<u8>, pos: int, size: int) -> Parsed<
        (Option<u32>, Seq<(u8, u8, u16, u32, u32, u32)>),
    > {
        if size == 0 {
            Parsed::Refused(BbqError::Type5Empty)
        } else if size == 4 {
            if pos + 4 > d.len() {
                Parsed::Refused(BbqError::UnexpectedEof)
            } else {
                Parsed::Done((Some(u32_at(d, pos)), Seq::empty()))
            }
        } else if size % 16 != 0 {
            Parsed::Refused(BbqError::Type5Size)
        } else if pos + size > d.len() {
            Parsed::Refused(BbqError::UnexpectedEof)
        } else {
            Parsed::Done((None, Seq::new((size / 16) as nat, |i: int| line_at(d, pos + 16 * i))))
        }
    }

    fn read_item(d: &[u8], pos: u64, size: u64) -> (r: ReadOut<Type5Data>) {
        if size == 0 {
            return ReadOut::Refused(BbqError::Type5Empty);
        }
        if size == 4 {
            if pos > d.len() as u64 || d.len() as u64 - pos < 4 {
                return ReadOut::Refused(BbqError::UnexpectedEof);
            }
            let x = read_u32_le(d, pos as usize).unwrap();
            return ReadOut::Done(Type5Data { small_data: Some(x), lines: Vec::new() });
        }
        if size % 16 != 0 {
            return ReadOut::Refused(BbqError::Type5Size);
        }
        let child_count = size / 16;
        let mut lines: Vec<(u8, u8, u16, u32, u32, u32)> = Vec::new();
        let mut i: u64 = 0;
        while i < child_count
            invariant
                i <= child_count,
                child_count == size / 16,
                size % 16 == 0,
                size != 0 && size != 4,
                pos <= 0x2_0000_0000,
                size <= 0x1_0000_0000,
                i > 0 ==> pos + 16 * i <= d@.len(),
                lines@ == Seq::new(i as nat, |k: int| line_at(d@, pos + 16 * k)),
            decreases child_count - i,
        {
            let p = pos + 16 * i;
            if p > d.len() as u64 || d.len() as u64 - p < 16 {
                assert(pos + size > d@.len()) by (nonlinear_arith)
                    requires
                        pos + 16 * i + 16 > d@.len(),
                        i < child_count,
                        child_count == size / 16,
                        size % 16 == 0,
                ;
                return ReadOut::Refused(BbqError::UnexpectedEof);
            }
            let p = p as usize;
            let line = (
                d[p],
                d[p + 1],
                read_u16_le(d, p + 2).unwrap(),
                read_u32_le(d, p + 4).unwrap(),
                read_u32_le(d, p + 8).unwrap(),
                read_u32_le(d, p + 12).unwrap(),
            );
            lines.push(line);
            i = i + 1;
            assert(lines@ =~= Seq::new(i as nat, |k: int| line_at(d@, pos + 16 * k)));
        }
        assert(pos + size <= d@.len()) by (nonlinear_arith)
            requires
                pos + 16 * child_count <= d@.len(),
                child_count == size / 16,
                size % 16 == 0,
        ;
        ReadOut::Done(Type5Data { small_data: None, lines })
    }
}

impl BbqItem for Type6Data {
    open spec fn parse_spec(d: Seq<u8>, pos: int, size: int) -> Parsed<
        Seq<(u8, u8, u16, u32, Seq<u32>)>,
    > {
        parse_commands(d, pos, 0, size)
    }

    fn read_item(d: &[u8], pos: u64, size: u64) -> (r: ReadOut<Type6Data>) {
        let mut bytes_read: u64 = 0;
        let mut p: u64 = pos;
        let mut commands: Vec<Command> = Vec::new();
        let ghost total = parse_commands(d@, pos as int, 0, size as int);
        while bytes_read < size
            invariant
                total == parse_commands(d@, pos as int, 0, size as int),
                p == pos + bytes_read,
                bytes_read <= size + 0x40008,
                pos <= 0x2_0000_0000,
                size <= 0x1_0000_0000,
                total == match parse_commands(d@, p as int, bytes_read as int, size as int) {
                    Parsed::Done(cs) => Parsed::Done(commands@.map_values(|c: Command| c@) + cs),
                    Parsed::Refused(e) => Parsed::Refused(e),
                    Parsed::Fault => Parsed::Fault,
                },
            decreases (if bytes_read < size {
                size - bytes_read
            } else {
                0
            }),
        {
            if p > d.len() as u64 || d.len() as u64 - p < 8 {
                return ReadOut::Refused(BbqError::UnexpectedEof);
            }
            let pu = p as usize;
            let code1 = d[pu];
            let code2 = d[pu + 1];
            let arg_count = read_u16_le(d, pu + 2).unwrap();
            let place = read_u32_le(d, pu + 4).unwrap();
            let args = match read_u32s(d, p + 8, arg_count as u64) {
                None => {
                    return ReadOut::Refused(BbqError::UnexpectedEof);
                },
                Some(a) => a,
            };
            let command = Command { code1, code2, arg_count, place, args };
            let ghost c = command@;
            assert(c == (d@[p as int], d@[p + 1], arg_count, u32_at(d@, p + 4), u32s_at(d@, p + 8, arg_count as nat)));
            let ghost rest = parse_commands(
                d@,
                p + 8 + 4 * arg_count,
                bytes_read + 8 + 4 * arg_count,
                size as int,
            );
            let step: u64 = 8 + 4 * (arg_count as u64);
            bytes_read = bytes_read + step;
            p = p + step;
            proof {
                match rest {
                    Parsed::Done(cs) => {
                        assert(commands@.map_values(|c: Command| c@).push(c) + cs
                            =~= commands@.map_values(|c: Command| c@) + (seq![c] + cs));
                    },
                    _ => {},
                }
            }
            let ghost before = commands@.map_values(|c: Command| c@);
            commands.push(command);
            assert(commands@.map_values(|c: Command| c@) =~= before.push(c));
        }
        if bytes_read != size {
            return ReadOut::Refused(BbqError::Type6Size);
        }
        assert(commands@.map_values(|c: Command| c@) + Seq::empty() =~= commands@.map_values(
            |c: Command| c@,
        ));
        ReadOut::Done(Type6Data { commands })
    }
}


impl BbqItem for Type7Data {
    open spec fn parse_spec(d: Seq<u8>, pos: int, size: int) -> Parsed<Seq<char>> {
        if pos + size > d.len() {
            Parsed::Refused(BbqError::UnexpectedEof)
        } else if size == 0 {
            Parsed::Fault
        } else if d[pos + size - 1] != 0 {
            Parsed::Refused(BbqError::Type7NotTerminated)
        } else {
            match sjis_decode(trim_zeros(d.subrange(pos, pos + size))) {
                Some(t) => Parsed::Done(t),
                None => Parsed::Refused(BbqError::Type7BadText),
            }
        }
    }

    fn read_item(d: &[u8], pos: u64, size: u64) -> (r: ReadOut<Type7Data>) {
        if pos > d.len() as u64 || size > d.len() as u64 - pos {
            return ReadOut::Refused(BbqError::UnexpectedEof);
        }
        if size == 0 {
            return ReadOut::Fault;
        }
        let start = pos as usize;
        let size = size as usize;
        let buffer = vstd::slice::slice_subrange(d, start, start + size);
        if buffer[size - 1] != 0 {
            return ReadOut::Refused(BbqError::Type7NotTerminated);
        }
        let mut null_index = size;
        assert(buffer@.subrange(0, size as int) =~= buffer@);
        while null_index > 0 && buffer[null_index - 1] == 0
            invariant
                null_index <= size,
                size == buffer@.len(),
                trim_zeros(buffer@.subrange(0, null_index as int)) == trim_zeros(buffer@),
            decreases null_index,
        {
            assert(buffer@.subrange(0, null_index as int).drop_last() =~= buffer@.subrange(
                0,
                null_index - 1,
            ));
            null_index = null_index - 1;
        }
        assert(trim_zeros(buffer@.subrange(0, null_index as int)) == buffer@.subrange(
            0,
            null_index as int,
        ));
        assert(buffer@.subrange(0, size as int) =~= buffer@);
        let text_bytes = vstd::slice::slice_subrange(buffer, 0, null_index);
        match decode_sjis(text_bytes) {
            Some(text) => ReadOut::Done(Type7Data { text }),
            None => ReadOut::Refused(BbqError::Type7BadText),
        }
    }
}

/// A section table entry at `pos`: type, offsets offset, item count, data
/// offset, data size.
pub open spec fn entry_at(d: Seq<u8>, pos: int) -> (u32, u32, u32, u32, u32) {
    (u32_at(d, pos), u32_at(d, pos + 4), u32_at(d, pos + 8), u32_at(d, pos + 12), u32_at(d, pos + 16))
}

/// The items of a section, between the consecutive offsets `offs[j..]`.
pub open spec fn parse_items<T: BbqItem>(d: Seq<u8>, dof: int, offs: Seq<u32>, j: int) -> Parsed<
    Seq<T::V>,
>
    decreases offs.len() - j,
{
    if j < 0 || j + 1 >= offs.len() {
        Parsed::Done(Seq::empty())
    } else if offs[j + 1] < offs[j] {
        Parsed::Fault
    } else {
        match T::parse_spec(d, dof + offs[j], offs[j + 1] - offs[j]) {
            Parsed::Done(v) => match parse_items::<T>(d, dof, offs, j + 1) {
                Parsed::Done(vs) => Parsed::Done(seq![v] + vs),
                Parsed::Refused(x) => Parsed::Refused(x),
                Parsed::Fault => Parsed::Fault,
            },
            Parsed::Refused(x) => Parsed::Refused(x),
            Parsed::Fault => Parsed::Fault,
        }
    }
}

/// The items of the section of the table entry `e` at `eo`.
pub open spec fn parse_data<T: BbqItem>(d: Seq<u8>, eo: int, e: (u32, u32, u32, u32, u32)) -> Parsed<
    Seq<T::V>,
> {
    let oo = eo + e.1;
    if oo > u32::MAX {
        Parsed::Fault
    } else if oo + 4 * e.2 > d.len() {
        Parsed::Refused(BbqError::UnexpectedEof)
    } else if eo + e.3 > u32::MAX {
        Parsed::Fault
    } else {
        parse_items::<T>(d, eo + e.3, u32s_at(d, oo, e.2 as nat).push(e.4), 0)
    }
}

/// The views of the items of an optional list.
pub open spec fn opt_items_view<T: View>(o: Option<Vec<T>>) -> Option<Seq<T::V>> {
    match o {
        Some(v) => Some(v@.map_values(|t: T| t@)),
        None => None,
    }
}

/// The item lists of the five section types found so far.
pub type Acc = (
    Option<Seq<Seq<u32>>>,
    Option<Seq<(Seq<u32>, Seq<Seq<u32>>)>>,
    Option<Seq<(Option<u32>, Seq<(u8, u8, u16, u32, u32, u32)>)>>,
    Option<Seq<Seq<(u8, u8, u16, u32, Seq<u32>)>>>,
    Option<Seq<Seq<char>>>,
);

/// Merges the items of entry `e` at `at` into `acc`: the last section of a
/// type wins, entries of other types are skipped.
pub open spec fn parse_entry(d: Seq<u8>, at: int, e: (u32, u32, u32, u32, u32), acc: Acc) -> Parsed<Acc> {
    if e.0 == 2 {
        match parse_data::<Type2Data>(d, at, e) {
            Parsed::Done(v) => Parsed::Done((Some(v), acc.1, acc.2, acc.3, acc.4)),
            Parsed::Refused(x) => Parsed::Refused(x),
            Parsed::Fault => Parsed::Fault,
        }
    } else if e.0 == 3 {
        match parse_data::<Type3Data>(d, at, e) {
            Parsed::Done(v) => Parsed::Done((acc.0, Some(v), acc.2, acc.3, acc.4)),
            Parsed::Refused(x) => Parsed::Refused(x),
            Parsed::Fault => Parsed::Fault,
        }
    } else if e.0 == 5 {
        match parse_data::<Type5Data>(d, at, e) {
            Parsed::Done(v) => Parsed::Done((acc.0, acc.1, Some(v), acc.3, acc.4)),
            Parsed::Refused(x) => Parsed::Refused(x),
            Parsed::Fault => Parsed::Fault,
        }
    } else if e.0 == 6 {
        match parse_data::<Type6Data>(d, at, e) {
            Parsed::Done(v) => Parsed::Done((acc.0, acc.1, acc.2, Some(v), acc.4)),
            Parsed::Refused(x) => Parsed::Refused(x),
            Parsed::Fault => Parsed::Fault,
        }
    } else if e.0 == 7 {
        match parse_data::<Type7Data>(d, at, e) {
            Parsed::Done(v) => Parsed::Done((acc.0, acc.1, acc.2, acc.3, Some(v))),
            Parsed::Refused(x) => Parsed::Refused(x),
            Parsed::Fault => Parsed::Fault,
        }
    } else {
        Parsed::Done(acc)
    }
}

/// The sections of the table entries `i..count` at `eo`.
pub open spec fn parse_entries(d: Seq<u8>, eo: int, count: int, i: int, acc: Acc) -> Parsed<Acc>
    decreases count - i,
{
    if i >= count {
        Parsed::Done(acc)
    } else {
        match parse_entry(d, eo + 20 * i, entry_at(d, eo + 20 * i), acc) {
            Parsed::Done(acc2) => if eo + 20 * (i + 1) > u32::MAX {
                Parsed::Fault
            } else {
                parse_entries(d, eo, count, i + 1, acc2)
            },
            Parsed::Refused(x) => Parsed::Refused(x),
            Parsed::Fault => Parsed::Fault,
        }
    }
}

/// What a `.bbq` file holds: timestamp, the items of each section type, footer.
pub type BbqView = (
    u32,
    Option<Seq<Seq<u32>>>,
    Option<Seq<(Seq<u32>, Seq<Seq<u32>>)>>,
    Option<Seq<(Option<u32>, Seq<(u8, u8, u16, u32, u32, u32)>)>>,
    Option<Seq<Seq<(u8, u8, u16, u32, Seq<u32>)>>>,
    Option<Seq<Seq<char>>>,
    Seq<u32>,
);

impl View for Bbq {
    type V = BbqView;

    open spec fn view(&self) -> BbqView {
        (
            self.datetime,
            opt_items_view(self.type2data),
            opt_items_view(self.type3data),
            opt_items_view(self.type5data),
            opt_items_view(self.type6data),
            opt_items_view(self.type7data),
            self.footer@,
        )
    }
}

/// What reading the bytes `d` of a `.bbq` file gives.
pub open spec fn bbq_parse(d: Seq<u8>) -> Parsed<BbqView> {
    if d.len() < 24 {
        Parsed::Refused(BbqError::UnexpectedEof)
    } else if d.subrange(0, 8) != bbq_magic() || u32_at(d, 12) != 1 {
        Parsed::Refused(BbqError::BadHeader)
    } else {
        let eo = u32_at(d, 16) as int;
        let count = u32_at(d, 20) as int;
        if count == 0 {
            Parsed::Refused(BbqError::NoSections)
        } else if eo + 20 * count > d.len() {
            Parsed::Refused(BbqError::UnexpectedEof)
        } else {
            match parse_entries(d, eo, count, 0, (None, None, None, None, None)) {
                Parsed::Done(acc) => {
                    let last = entry_at(d, eo + 20 * (count - 1));
                    let f1 = eo + 20 * count - 20 + last.3;
                    if f1 > u32::MAX || f1 + last.4 > u32::MAX {
                        Parsed::Fault
                    } else if f1 + last.4 + 24 > d.len() {
                        Parsed::Refused(BbqError::UnexpectedEof)
                    } else {
                        Parsed::Done(
                            (
                                u32_at(d, 8),
                                acc.0,
                                acc.1,
                                acc.2,
                                acc.3,
                                acc.4,
                                u32s_at(d, f1 + last.4, 6),
                            ),
                        )
                    }
                },
                Parsed::Refused(x) => Parsed::Refused(x),
                Parsed::Fault => Parsed::Fault,
            }
        }
    }
}

/// A list read agrees with what the specification says of it.
pub open spec fn read_vec_matches<T: View>(r: ReadOut<Vec<T>>, p: Parsed<Seq<T::V>>) -> bool {
    match r {
        ReadOut::Done(v) => p == Parsed::<Seq<T::V>>::Done(v@.map_values(|t: T| t@)),
        ReadOut::Refused(e) => p == Parsed::<Seq<T::V>>::Refused(e),
        ReadOut::Fault => p is Fault,
    }
}

fn read_bbq_data<T: BbqItem>(d: &[u8], entry_offset: u32, e: (u32, u32, u32, u32, u32)) -> (r:
    ReadOut<Vec<T>>)
    ensures
        read_vec_matches(r, parse_data::<T>(d@, entry_offset as int, e)),
{
    if entry_offset > u32::MAX - e.1 {
        return ReadOut::Fault;
    }
    let oo = entry_offset + e.1;
    let mut offsets = match read_u32s(d, oo as u64, e.2 as u64) {
        None => {
            return ReadOut::Refused(BbqError::UnexpectedEof);
        },
        Some(v) => v,
    };
    offsets.push(e.4);
    if entry_offset > u32::MAX - e.3 {
        return ReadOut::Fault;
    }
    let data_offset = (entry_offset + e.3) as u64;
    let ghost offs = offsets@;
    let ghost total = parse_items::<T>(d@, data_offset as int, offs, 0);
    let mut datas: Vec<T> = Vec::new();
    let mut j: usize = 0;
    while j < offsets.len() - 1
        invariant
            offsets@ == offs,
            offs.len() >= 1,
            j + 1 <= offsets.len(),
            data_offset <= u32::MAX,
            total == parse_items::<T>(d@, data_offset as int, offs, 0),
            total == parse_data::<T>(d@, entry_offset as int, e),
            total == match parse_items::<T>(d@, data_offset as int, offs, j as int) {
                Parsed::Done(vs) => Parsed::Done(datas@.map_values(|t: T| t@) + vs),
                Parsed::Refused(x) => Parsed::Refused(x),
                Parsed::Fault => Parsed::Fault,
            },
        decreases offs.len() - j,
    {
        let start = offsets[j];
        let end = offsets[j + 1];
        if end < start {
            return ReadOut::Fault;
        }
        match T::read_item(d, data_offset + start as u64, (end - start) as u64) {
            ReadOut::Done(item) => {
                let ghost before = datas@.map_values(|t: T| t@);
                let ghost v = item@;
                proof {
                    match parse_items::<T>(d@, data_offset as int, offs, j + 1) {
                        Parsed::Done(vs) => {
                            assert(before.push(v) + vs =~= before + (seq![v] + vs));
                        },
                        _ => {},
                    }
                }
                datas.push(item);
                assert(datas@.map_values(|t: T| t@) =~= before.push(v));
            },
            ReadOut::Refused(x) => {
                return ReadOut::Refused(x);
            },
            ReadOut::Fault => {
                return ReadOut::Fault;
            },
        }
        j = j + 1;
    }
    assert(datas@.map_values(|t: T| t@) + Seq::empty() =~= datas@.map_values(|t: T| t@));
    ReadOut::Done(datas)
}


/// The item lists of the five section types read so far.
pub struct Sections {
    pub t2: Option<Vec<Type2Data>>,
    pub t3: Option<Vec<Type3Data>>,
    pub t5: Option<Vec<Type5Data>>,
    pub t6: Option<Vec<Type6Data>>,
    pub t7: Option<Vec<Type7Data>>,
}

impl View for Sections {
    type V = Acc;

    open spec fn view(&self) -> Acc {
        (
            opt_items_view(self.t2),
            opt_items_view(self.t3),
            opt_items_view(self.t5),
            opt_items_view(self.t6),
            opt_items_view(self.t7),
        )
    }
}

fn read_entry(d: &[u8], at: u32, e: (u32, u32, u32, u32, u32), acc: Sections) -> (r: ReadOut<
    Sections,
>)
    ensures
        read_matches(r, parse_entry(d@, at as int, e, acc@)),
{
    let Sections { t2, t3, t5, t6, t7 } = acc;
    if e.0 == 2 {
        match read_bbq_data::<Type2Data>(d, at, e) {
            ReadOut::Done(v) => ReadOut::Done(Sections { t2: Some(v), t3, t5, t6, t7 }),
            ReadOut::Refused(x) => ReadOut::Refused(x),
            ReadOut::Fault => ReadOut::Fault,
        }
    } else if e.0 == 3 {
        match read_bbq_data::<Type3Data>(d, at, e) {
            ReadOut::Done(v) => ReadOut::Done(Sections { t2, t3: Some(v), t5, t6, t7 }),
            ReadOut::Refused(x) => ReadOut::Refused(x),
            ReadOut::Fault => ReadOut::Fault,
        }
    } else if e.0 == 5 {
        match read_bbq_data::<Type5Data>(d, at, e) {
            ReadOut::Done(v) => ReadOut::Done(Sections { t2, t3, t5: Some(v), t6, t7 }),
            ReadOut::Refused(x) => ReadOut::Refused(x),
            ReadOut::Fault => ReadOut::Fault,
        }
    } else if e.0 == 6 {
        match read_bbq_data::<Type6Data>(d, at, e) {
            ReadOut::Done(v) => ReadOut::Done(Sections { t2, t3, t5, t6: Some(v), t7 }),
            ReadOut::Refused(x) => ReadOut::Refused(x),
            ReadOut::Fault => ReadOut::Fault,
        }
    } else if e.0 == 7 {
        match read_bbq_data::<Type7Data>(d, at, e) {
            ReadOut::Done(v) => ReadOut::Done(Sections { t2, t3, t5, t6, t7: Some(v) }),
            ReadOut::Refused(x) => ReadOut::Refused(x),
            ReadOut::Fault => ReadOut::Fault,
        }
    } else {
        ReadOut::Done(Sections { t2, t3, t5, t6, t7 })
    }
}

fn read_entry_fields(d: &[u8], pos: usize) -> (r: (u32, u32, u32, u32, u32))
    requires
        pos + 20 <= d.len(),
    ensures
        r == entry_at(d@, pos as int),
{
    (
        read_u32_le(d, pos).unwrap(),
        read_u32_le(d, pos + 4).unwrap(),
        read_u32_le(d, pos + 8).unwrap(),
        read_u32_le(d, pos + 12).unwrap(),
        read_u32_le(d, pos + 16).unwrap(),
    )
}

fn read_entries(d: &[u8], entries_offset: u32, entry_count: u32) -> (r: ReadOut<Sections>)
    requires
        entries_offset + 20 * entry_count <= d@.len(),
    ensures
        read_matches(
            r,
            parse_entries(
                d@,
                entries_offset as int,
                entry_count as int,
                0,
                (None, None, None, None, None),
            ),
        ),
        r is Done ==> entries_offset + 20 * entry_count <= u32::MAX,
{
    let ghost eo = entries_offset as int;
    let ghost count = entry_count as int;
    let ghost total = parse_entries(d@, eo, count, 0, (None, None, None, None, None));
    let mut acc = Sections { t2: None, t3: None, t5: None, t6: None, t7: None };
    let mut entry_offset: u32 = entries_offset;
    let mut i: u32 = 0;
    while i < entry_count
        invariant
            i <= entry_count,
            eo == entries_offset,
            count == entry_count,
            eo + 20 * count <= d@.len(),
            entry_offset == eo + 20 * i,
            total == parse_entries(d@, eo, count, 0, (None, None, None, None, None)),
            total == parse_entries(d@, eo, count, i as int, acc@),
        decreases entry_count - i,
    {
        let e = read_entry_fields(d, entry_offset as usize);
        match read_entry(d, entry_offset, e, acc) {
            ReadOut::Done(a) => {
                acc = a;
            },
            ReadOut::Refused(x) => {
                return ReadOut::Refused(x);
            },
            ReadOut::Fault => {
                return ReadOut::Fault;
            },
        }
        if entry_offset > u32::MAX - 0x14 {
            return ReadOut::Fault;
        }
        entry_offset = entry_offset + 0x14;
        i = i + 1;
    }
    ReadOut::Done(acc)
}

fn read_impl(d: &[u8]) -> (r: ReadOut<Bbq>)
    ensures
        read_matches(r, bbq_parse(d@)),
{
    if d.len() < 24 {
        return ReadOut::Refused(BbqError::UnexpectedEof);
    }
    let magic_ok = d[0] == 0x2E && d[1] == 0x42 && d[2] == 0x42 && d[3] == 0x51 && d[4] == 0x31
        && d[5] == 0x2E && d[6] == 0x30 && d[7] == 0x30;
    proof {
        if magic_ok {
            assert(d@.subrange(0, 8) =~= bbq_magic());
        } else {
            assert(d@.subrange(0, 8) != bbq_magic()) by {
                if d@.subrange(0, 8) == bbq_magic() {
                    assert(d@.subrange(0, 8)[0] == d@[0]);
                    assert(d@.subrange(0, 8)[1] == d@[1]);
                    assert(d@.subrange(0, 8)[2] == d@[2]);
                    assert(d@.subrange(0, 8)[3] == d@[3]);
                    assert(d@.subrange(0, 8)[4] == d@[4]);
                    assert(d@.subrange(0, 8)[5] == d@[5]);
                    assert(d@.subrange(0, 8)[6] == d@[6]);
                    assert(d@.subrange(0, 8)[7] == d@[7]);
                }
            }
        }
    }
    let datetime = read_u32_le(d, 8).unwrap();
    let magic2 = read_u32_le(d, 12).unwrap();
    if !magic_ok || magic2 != 1 {
        return ReadOut::Refused(BbqError::BadHeader);
    }
    let entries_offset = read_u32_le(d, 16).unwrap();
    let entry_count = read_u32_le(d, 20).unwrap();
    if entry_count == 0 {
        return ReadOut::Refused(BbqError::NoSections);
    }
    if entries_offset as u64 + 20 * (entry_count as u64) > d.len() as u64 {
        return ReadOut::Refused(BbqError::UnexpectedEof);
    }
    let acc = match read_entries(d, entries_offset, entry_count) {
        ReadOut::Done(acc) => acc,
        ReadOut::Refused(x) => {
            return ReadOut::Refused(x);
        },
        ReadOut::Fault => {
            return ReadOut::Fault;
        },
    };
    let entry_offset: u32 = (entries_offset as u64 + 20 * (entry_count as u64)) as u32;
    let last = read_entry_fields(d, (entry_offset - 0x14) as usize);
    if entry_offset - 0x14 > u32::MAX - last.3 {
        return ReadOut::Fault;
    }
    let f1 = entry_offset - 0x14 + last.3;
    if f1 > u32::MAX - last.4 {
        return ReadOut::Fault;
    }
    let footer_offset = f1 + last.4;
    let f = match read_u32s(d, footer_offset as u64, 6) {
        None => {
            return ReadOut::Refused(BbqError::UnexpectedEof);
        },
        Some(f) => f,
    };
    let footer = [f[0], f[1], f[2], f[3], f[4], f[5]];
    assert(footer@ =~= f@);
    let Sections { t2, t3, t5, t6, t7 } = acc;
    ReadOut::Done(
        Bbq {
            datetime,
            type2data: t2,
            type3data: t3,
            type5data: t5,
            type6data: t6,
            type7data: t7,
            footer,
        },
    )
}

impl Bbq {
    /// Reads a `.bbq` file from its bytes: the header, the table of sections at
    /// the offset it gives, each section of types 2, 3, 5, 6 and 7 (the last
    /// one of each type), and the footer after the last section's data.
    pub fn read_bbq(d: &[u8]) -> (r: Result<Bbq, BbqError>)
        requires
            !(bbq_parse(d@) is Fault),
        ensures
            match r {
                Ok(b) => bbq_parse(d@) == Parsed::Done(b@),
                Err(e) => bbq_parse(d@) == Parsed::<BbqView>::Refused(e),
            },
    {
        match read_impl(d) {
            ReadOut::Done(b) => Ok(b),
            ReadOut::Refused(e) => Err(e),
            ReadOut::Fault => {
                assert(false);
                Err(BbqError::UnexpectedEof)
            },
        }
    }

    /// Whether `read_bbq` can read `d` without an arithmetic overflow or
    /// underflow on the numbers it holds, which is what it asks of its input.
    pub fn is_readable(d: &[u8]) -> (r: bool)
        ensures
            r == !(bbq_parse(d@) is Fault),
    {
        match read_impl(d) {
            ReadOut::Fault => false,
            _ => true,
        }
    }
}

} // verus!
