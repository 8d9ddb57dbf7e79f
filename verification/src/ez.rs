//! `.bin`/`.idx` archives: a `.bin` holds the files (each LZ10-compressed or
//! not) and a table of names; its `.idx` holds one entry per file. Directories
//! are marked by `X_BEGIN` (or `X_START`) and `X_END` entries of size zero.
use vstd::prelude::*;
use crate::bytes::{u16_at, u32_at, read_u16_le, read_u32_le, le_bytes_u16, le_bytes_u32, next_multiple, next_multiple_u32, next_multiple_usize, push_u16_le, push_u32_le, push_repeat, extend_bytes};
use crate::text::{has_prefix, chars_of, starts_with, dec_chars, push_decimal, lines_of, strings_of, string_of};
use crate::lz10::{lz10_decode, Lz10Decoded, decode_stream, Decoded, lz10_compressed, compress, Lz10Error};
use vstd::utf8::{valid_utf8, decode_utf8, encode_utf8};

verus! {

/// Why an archive cannot be read or written.
#[derive(Debug, Clone, Copy, PartialEq, Eq)]
pub enum EzError {
    /// The data ends before a header or an entry does.
    UnexpectedEof,
    /// The `.idx` header does not begin `EZT` with the known version.
    IdxHeader,
    /// The `.bin` header does not begin `EZP` with the known version.
    BinHeader,
    /// A name in the name table is not UTF-8.
    NameUtf8,
    /// A `_BEGIN` or `_START` entry has a size.
    BeginSize,
    /// An `_END` entry has a size.
    EndSize,
    /// An `_END` entry does not close the directory opened last.
    EndMismatch,
    /// A file has more than `0x0FFFFFFF` bytes.
    FileTooLarge,
    /// The listing has no first line.
    IndexEmpty,
    /// The first line of the listing is not a 16-bit hexadecimal number.
    IndexHex,
    /// A file could not be decompressed.
    Decompress(crate::lz10::Lz10Error),
    /// A file could not be compressed.
    Compress(crate::lz10::Lz10Error),
}

/// An entry of the `.idx` table.
#[derive(Debug, Clone, Copy, PartialEq, Eq)]
pub struct EzTableEntry {
    pub file_offset: u32,
    pub size_and_compressed_flag: u32,
    pub name_offset: u32,
}

impl View for EzTableEntry {
    type V = (u32, u32, u32);

    open spec fn view(&self) -> (u32, u32, u32) {
        (self.file_offset, self.size_and_compressed_flag, self.name_offset)
    }
}

/// The size of a file once decompressed: the low 28 bits.
pub open spec fn entry_size(e: (u32, u32, u32)) -> u32 {
    e.1 & 0x0FFF_FFFFu32
}

/// Whether the file is stored LZ10-compressed: bit 28.
pub open spec fn entry_compressed(e: (u32, u32, u32)) -> bool {
    e.1 & 0x1000_0000u32 != 0
}

impl EzTableEntry {
    /// The size of the file once decompressed.
    pub fn decompressed_size(&self) -> (r: u32)
        ensures
            r == entry_size(self@),
    {
        self.size_and_compressed_flag & 0x0FFF_FFFF
    }

    /// Whether the file is stored compressed.
    pub fn is_compressed(&self) -> (r: bool)
        ensures
            r == entry_compressed(self@),
    {
        (self.size_and_compressed_flag & 0x1000_0000) != 0
    }
}

/// The first eight bytes of an `.idx` file.
pub open spec fn idx_magic() -> Seq<u8> {
    seq![0x45u8, 0x5A, 0x54, 0x00, 0x0E, 0x07, 0xD9, 0x07]
}

/// The first eight bytes of a `.bin` file.
pub open spec fn bin_magic() -> Seq<u8> {
    seq![0x45u8, 0x5A, 0x50, 0x00, 0x0E, 0x07, 0xD9, 0x07]
}

/// The entry stored at `pos`.
pub open spec fn entry_at(d: Seq<u8>, pos: int) -> (u32, u32, u32) {
    (u32_at(d, pos), u32_at(d, pos + 4), u32_at(d, pos + 8))
}

/// What reading an `.idx` file gives: a 16-byte header (magic, a number,
/// version `0x16`, the entry count), then that many 12-byte entries.
pub open spec fn idx_parse(d: Seq<u8>) -> Result<Seq<(u32, u32, u32)>, EzError> {
    if d.len() < 16 {
        Err(EzError::UnexpectedEof)
    } else if d.subrange(0, 8) != idx_magic() || u16_at(d, 10) != 0x16 {
        Err(EzError::IdxHeader)
    } else if 16 + 12 * u32_at(d, 12) > d.len() {
        Err(EzError::UnexpectedEof)
    } else {
        Ok(Seq::new(u32_at(d, 12) as nat, |i: int| entry_at(d, 16 + 12 * i)))
    }
}

fn has_bytes(d: &[u8], pos: usize, magic: &[u8; 8]) -> (r: bool)
    requires
        pos + 8 <= d.len(),
    ensures
        r == (d@.subrange(pos as int, pos + 8) == magic@),
{
    let mut i: usize = 0;
    while i < 8
        invariant
            i <= 8,
            pos + 8 <= d.len(),
            d@.subrange(pos as int, pos + i) == magic@.subrange(0, i as int),
        decreases 8 - i,
    {
        if d[pos + i] != magic[i] {
            assert(d@.subrange(pos as int, pos + 8)[i as int] != magic@[i as int]);
            return false;
        }
        i = i + 1;
        assert(d@.subrange(pos as int, pos + i) =~= magic@.subrange(0, i as int));
    }
    assert(magic@.subrange(0, 8) =~= magic@);
    true
}

/// Reads the entries of an `.idx` file.
pub fn read_idx(d: &[u8]) -> (r: Result<Vec<EzTableEntry>, EzError>)
    ensures
        match r {
            Ok(v) => idx_parse(d@) == Ok::<Seq<(u32, u32, u32)>, EzError>(
                v@.map_values(|e: EzTableEntry| e@),
            ),
            Err(e) => idx_parse(d@) == Err::<Seq<(u32, u32, u32)>, EzError>(e),
        },
{
    if d.len() < 16 {
        return Err(EzError::UnexpectedEof);
    }
    let magic: [u8; 8] = [0x45, 0x5A, 0x54, 0x00, 0x0E, 0x07, 0xD9, 0x07];
    assert(magic@ =~= idx_magic());
    let version = read_u16_le(d, 10).unwrap();
    if !has_bytes(d, 0, &magic) || version != 0x16 {
        return Err(EzError::IdxHeader);
    }
    let count = read_u32_le(d, 12).unwrap();
    if (d.len() - 16) / 12 < count as usize {
        return Err(EzError::UnexpectedEof);
    }
    let mut entries: Vec<EzTableEntry> = Vec::new();
    let mut i: usize = 0;
    while i < count as usize
        invariant
            i <= count,
            count == u32_at(d@, 12),
            16 + 12 * count <= d.len(),
            entries@.map_values(|e: EzTableEntry| e@) =~= Seq::new(
                i as nat,
                |k: int| entry_at(d@, 16 + 12 * k),
            ),
        decreases count - i,
    {
        let pos = 16 + 12 * i;
        let e = EzTableEntry {
            file_offset: read_u32_le(d, pos).unwrap(),
            size_and_compressed_flag: read_u32_le(d, pos + 4).unwrap(),
            name_offset: read_u32_le(d, pos + 8).unwrap(),
        };
        let ghost before = entries@.map_values(|e: EzTableEntry| e@);
        entries.push(e);
        assert(e@ == entry_at(d@, 16 + 12 * i));
        assert(entries@.map_values(|e: EzTableEntry| e@) =~= before.push(e@));
        i = i + 1;
        assert(entries@.map_values(|e: EzTableEntry| e@) =~= Seq::new(
            i as nat,
            |k: int| entry_at(d@, 16 + 12 * k),
        ));
    }
    Ok(entries)
}

/// `n` levels of indentation: four spaces each.
pub open spec fn indent_chars(n: nat) -> Seq<char> {
    Seq::new(4 * n, |_i: int| ' ')
}

/// `count` levels of indentation, four spaces each.
pub fn indent(count: usize) -> (r: Vec<char>)
    requires
        4 * count <= usize::MAX,
    ensures
        r@ == indent_chars(count as nat),
{
    let mut r: Vec<char> = Vec::new();
    let mut i: usize = 0;
    while i < 4 * count
        invariant
            i <= 4 * count,
            4 * count <= usize::MAX,
            r@ == Seq::new(i as nat, |_i: int| ' '),
        decreases 4 * count - i,
    {
        r.push(' ');
        i = i + 1;
        assert(r@ =~= Seq::new(i as nat, |_i: int| ' '));
    }
    r
}

/// `p` ends `s`.
pub open spec fn has_suffix(s: Seq<char>, p: Seq<char>) -> bool {
    p.len() <= s.len() && s.subrange(s.len() - p.len(), s.len() as int) == p
}

/// Whether `p` ends `s`.
pub fn ends_with(s: &[char], p: &str) -> (r: bool)
    ensures
        r == has_suffix(s@, p@),
{
    let pc = chars_of(p);
    if pc.len() > s.len() {
        return false;
    }
    let k = s.len() - pc.len();
    let mut i: usize = 0;
    while i < pc.len()
        invariant
            i <= pc@.len(),
            k + pc.len() == s.len(),
            pc@ == p@,
            s@.subrange(k as int, k + i) == pc@.subrange(0, i as int),
        decreases pc@.len() - i,
    {
        if s[k + i] != pc[i] {
            assert(s@.subrange(k as int, s@.len() as int)[i as int] != pc@[i as int]);
            assert(s@.subrange(k as int, s@.len() as int) != pc@);
            return false;
        }
        i = i + 1;
        assert(s@.subrange(k as int, k + i) =~= pc@.subrange(0, i as int));
    }
    assert(pc@.subrange(0, pc@.len() as int) =~= pc@);
    true
}

fn begins_with(s: &[char], p: &str) -> (r: bool)
    ensures
        r == has_prefix(s@, p@),
{
    let pc = chars_of(p);
    starts_with(s, pc.as_slice())
}

/// Files stored as they are: fonts, sound and packed files, and the
/// animations of five characters.
pub open spec fn no_compress_spec(name: Seq<char>) -> bool {
    has_suffix(name, ".S14"@) || has_suffix(name, ".SSS"@) || has_suffix(name, ".NFTR"@)
        || has_suffix(name, ".BIN"@) || has_suffix(name, ".IDX"@) || (has_suffix(name, ".NSBCA"@) && (
    has_prefix(name, "AI_"@) || has_prefix(name, "ERI_"@) || has_prefix(name, "RYO_"@)
        || has_prefix(name, "DNC_"@) || has_prefix(name, "ACT_"@)))
}

/// Whether the file `name` is stored uncompressed.
pub fn do_not_compress(name: &[char]) -> (r: bool)
    ensures
        r == no_compress_spec(name@),
{
    ends_with(name, ".S14") || ends_with(name, ".SSS") || ends_with(name, ".NFTR") || ends_with(
        name,
        ".BIN",
    ) || ends_with(name, ".IDX") || (ends_with(name, ".NSBCA") && (begins_with(name, "AI_")
        || begins_with(name, "ERI_") || begins_with(name, "RYO_") || begins_with(name, "DNC_")
        || begins_with(name, "ACT_")))
}

/// The alignment of a file in the `.bin`: 16 bytes for palettes, screens and
/// cells, else 32.
pub open spec fn alignment_spec(name: Seq<char>) -> u32 {
    if has_suffix(name, ".NCLR"@) || has_suffix(name, ".NSCR"@) || has_suffix(name, ".NCER"@) {
        0x10
    } else {
        0x20
    }
}

/// The alignment of the file `name` in the `.bin`.
pub fn padding_alignment(name: &[char]) -> (r: u32)
    ensures
        r == alignment_spec(name@),
{
    if ends_with(name, ".NCLR") || ends_with(name, ".NSCR") || ends_with(name, ".NCER") {
        0x10
    } else {
        0x20
    }
}

/// The directory that an entry named `name` opens.
pub open spec fn begin_dir(name: Seq<char>) -> Option<Seq<char>> {
    if has_suffix(name, "_BEGIN"@) || has_suffix(name, "_START"@) {
        Some(name.subrange(0, name.len() - 6))
    } else {
        None
    }
}

/// The directory that an entry named `name` closes.
pub open spec fn end_dir(name: Seq<char>) -> Option<Seq<char>> {
    if has_suffix(name, "_END"@) {
        Some(name.subrange(0, name.len() - 4))
    } else {
        None
    }
}

fn opened_dir(name: &[char]) -> (r: Option<Vec<char>>)
    ensures
        match r {
            Some(d) => begin_dir(name@) == Some(d@),
            None => begin_dir(name@) is None,
        },
{
    proof {
        reveal_strlit("_BEGIN");
        reveal_strlit("_START");
    }
    if ends_with(name, "_BEGIN") || ends_with(name, "_START") {
        Some(crate::text::slice_chars(name, 0, name.len() - 6))
    } else {
        None
    }
}

fn closed_dir(name: &[char]) -> (r: Option<Vec<char>>)
    ensures
        match r {
            Some(d) => end_dir(name@) == Some(d@),
            None => end_dir(name@) is None,
        },
{
    proof {
        reveal_strlit("_END");
    }
    if ends_with(name, "_END") {
        Some(crate::text::slice_chars(name, 0, name.len() - 4))
    } else {
        None
    }
}

/// The decimal numeral of `n` with leading zeros to four digits.
pub open spec fn dec4(n: nat) -> Seq<char> {
    let d = dec_chars(n);
    if d.len() < 4 {
        Seq::new((4 - d.len()) as nat, |_i: int| '0') + d
    } else {
        d
    }
}

/// The name of the file of entry `index`: its number with four digits, `_`,
/// and its name.
pub open spec fn file_name(index: nat, name: Seq<char>) -> Seq<char> {
    dec4(index) + seq!['_'] + name
}

fn numbered_name(index: usize, name: &[char]) -> (r: Vec<char>)
    ensures
        r@ == file_name(index as nat, name@),
{
    let mut d: Vec<char> = Vec::new();
    push_decimal(&mut d, index as u64);
    assert(d@ =~= dec_chars(index as nat));
    let mut r: Vec<char> = Vec::new();
    if d.len() < 4 {
        let mut k: usize = 0;
        let z = 4 - d.len();
        while k < z
            invariant
                k <= z,
                r@ == Seq::new(k as nat, |_i: int| '0'),
            decreases z - k,
        {
            r.push('0');
            k = k + 1;
            assert(r@ =~= Seq::new(k as nat, |_i: int| '0'));
        }
    }
    let ghost front = r@;
    r.append(&mut d);
    r.push('_');
    let mut i: usize = 0;
    let ghost base = r@;
    while i < name.len()
        invariant
            i <= name@.len(),
            r@ == base + name@.subrange(0, i as int),
        decreases name@.len() - i,
    {
        r.push(name[i]);
        i = i + 1;
        assert(r@ =~= base + name@.subrange(0, i as int));
    }
    assert(name@.subrange(0, name@.len() as int) =~= name@);
    assert(r@ =~= file_name(index as nat, name@));
    r
}

/// The hexadecimal digit of `d`, upper case.
pub open spec fn hex_digit(d: int) -> char {
    if d < 10 {
        (d + 48) as char
    } else {
        (d + 55) as char
    }
}

/// `n` as four upper-case hexadecimal digits.
pub open spec fn hex4(n: u16) -> Seq<char> {
    seq![
        hex_digit((n / 4096) as int),
        hex_digit(((n / 256) % 16) as int),
        hex_digit(((n / 16) % 16) as int),
        hex_digit((n % 16) as int),
    ]
}

fn hex_char(d: u16) -> (r: char)
    requires
        d < 16,
    ensures
        r == hex_digit(d as int),
{
    if d < 10 {
        ((d as u8) + 48) as char
    } else {
        ((d as u8) + 55) as char
    }
}

/// `n` as four upper-case hexadecimal digits.
pub fn hex4_chars(n: u16) -> (r: Vec<char>)
    ensures
        r@ == hex4(n),
{
    let mut r: Vec<char> = Vec::new();
    r.push(hex_char(n / 4096));
    r.push(hex_char((n / 256) % 16));
    r.push(hex_char((n / 16) % 16));
    r.push(hex_char(n % 16));
    assert(r@ =~= hex4(n));
    r
}

/// The value of the hexadecimal digit `c`, in either case.
pub open spec fn hex_value(c: char) -> Option<nat> {
    if '0' <= c <= '9' {
        Some((c as nat - 48) as nat)
    } else if 'a' <= c <= 'f' {
        Some((c as nat - 87) as nat)
    } else if 'A' <= c <= 'F' {
        Some((c as nat - 55) as nat)
    } else {
        None
    }
}

/// The value of a run of hexadecimal digits, if each is one.
pub open spec fn hex_digits_value(s: Seq<char>) -> Option<nat>
    decreases s.len(),
{
    if s.len() == 0 {
        Some(0)
    } else {
        match (hex_digits_value(s.drop_last()), hex_value(s.last())) {
            (Some(v), Some(d)) => Some(v * 16 + d),
            _ => None,
        }
    }
}

/// What std's `u16::from_str_radix(s, 16)` gives: an optional `+`, then at
/// least one hexadecimal digit, the value at most `0xFFFF`.
pub open spec fn parse_hex_u16(s: Seq<char>) -> Option<u16> {
    let body = if s.len() > 0 && s[0] == '+' {
        s.drop_first()
    } else {
        s
    };
    if body.len() == 0 {
        None
    } else {
        match hex_digits_value(body) {
            Some(v) => if v <= 0xFFFF {
                Some(v as u16)
            } else {
                None
            },
            None => None,
        }
    }
}

proof fn lemma_hex_none_extends(s: Seq<char>, i: int)
    requires
        0 <= i <= s.len(),
        hex_digits_value(s.subrange(0, i)) is None,
    ensures
        hex_digits_value(s) is None,
    decreases s.len() - i,
{
    if i < s.len() {
        assert(s.subrange(0, i + 1).drop_last() =~= s.subrange(0, i));
        lemma_hex_none_extends(s, i + 1);
    } else {
        assert(s.subrange(0, i) =~= s);
    }
}

proof fn lemma_hex_mono(s: Seq<char>, i: int)
    requires
        0 <= i <= s.len(),
        hex_digits_value(s) is Some,
    ensures
        hex_digits_value(s.subrange(0, i)) is Some,
        hex_digits_value(s.subrange(0, i))->0 <= hex_digits_value(s)->0,
    decreases s.len() - i,
{
    if i < s.len() {
        lemma_hex_mono(s, i + 1);
        let t = s.subrange(0, i + 1);
        assert(t.drop_last() =~= s.subrange(0, i));
    } else {
        assert(s.subrange(0, i) =~= s);
    }
}

/// Parses a 16-bit hexadecimal number as std's `u16::from_str_radix` does.
pub fn parse_hex(s: &[char]) -> (r: Option<u16>)
    ensures
        r == parse_hex_u16(s@),
{
    let mut start: usize = 0;
    if s.len() > 0 && s[0] == '+' {
        start = 1;
    }
    let ghost body = if s@.len() > 0 && s@[0] == '+' {
        s@.drop_first()
    } else {
        s@
    };
    assert(body =~= s@.subrange(start as int, s@.len() as int));
    if start >= s.len() {
        return None;
    }
    let mut value: u32 = 0;
    let mut i: usize = start;
    assert(body.subrange(0, 0) =~= Seq::<char>::empty());
    while i < s.len()
        invariant
            start <= i <= s@.len(),
            start < s@.len(),
            body == s@.subrange(start as int, s@.len() as int),
            hex_digits_value(body.subrange(0, i - start)) == Some(value as nat),
            body == (if s@.len() > 0 && s@[0] == '+' {
                s@.drop_first()
            } else {
                s@
            }),
            value <= 0xFFFF,
        decreases s@.len() - i,
    {
        let c = s[i];
        let ghost sub = body.subrange(0, i - start + 1);
        assert(sub.drop_last() =~= body.subrange(0, i - start));
        assert(sub.last() == c);
        let d: u32 = if '0' <= c && c <= '9' {
            (c as u32) - 48
        } else if 'a' <= c && c <= 'f' {
            (c as u32) - 87
        } else if 'A' <= c && c <= 'F' {
            (c as u32) - 55
        } else {
            proof {
                assert(hex_value(c) is None);
                assert(hex_digits_value(sub) is None);
                lemma_hex_none_extends(body, i - start + 1);
            }
            return None;
        };
        assert(hex_digits_value(sub) == Some((value * 16 + d) as nat));
        if value * 16 + d > 0xFFFF {
            proof {
                if hex_digits_value(body) is Some {
                    lemma_hex_mono(body, i - start + 1);
                    assert(hex_digits_value(body)->0 > 0xFFFF);
                }
            }
            return None;
        }
        value = value * 16 + d;
        i = i + 1;
    }
    assert(body.subrange(0, s@.len() - start) =~= body);
    Some(value as u16)
}



/// The outcome of a step that may be refused or may reach an input that
/// cannot be followed (an offset or a length that overflows).
pub enum EzOutcome<V> {
    Done(V),
    Refused(EzError),
    Fault,
}

/// The name table of a `.bin`: the bytes from the offset that its header gives
/// to the end.
pub open spec fn names_table(bin: Seq<u8>) -> Seq<u8> {
    let off = u32_at(bin, 12) as int;
    if off <= bin.len() {
        bin.subrange(off, bin.len() as int)
    } else {
        Seq::empty()
    }
}

/// Where the first zero byte of `s` at or after `i` is.
pub open spec fn zero_from(s: Seq<u8>, i: int) -> Option<int>
    decreases s.len() - i,
{
    if i < 0 || i >= s.len() {
        None
    } else if s[i] == 0 {
        Some(i)
    } else {
        zero_from(s, i + 1)
    }
}

/// The bytes of the name at `off` of the table `t`: those before the next zero
/// byte; with no zero byte after it, all but the last byte of the table.
pub open spec fn name_bytes(t: Seq<u8>, off: int) -> Seq<u8> {
    if off >= t.len() {
        Seq::empty()
    } else {
        match zero_from(t, off) {
            Some(z) => t.subrange(off, z),
            None => t.subrange(off, t.len() - 1),
        }
    }
}

/// The bytes of `bin` from `pos`, none if `pos` is past its end.
pub open spec fn from_offset(bin: Seq<u8>, pos: int) -> Seq<u8> {
    if pos <= bin.len() {
        bin.subrange(pos, bin.len() as int)
    } else {
        Seq::empty()
    }
}

/// The contents of the file of entry `e`: decompressed from its offset, or
/// its size in bytes from its offset (fewer at the end of the `.bin`).
pub open spec fn file_data(bin: Seq<u8>, e: (u32, u32, u32)) -> EzOutcome<Seq<u8>> {
    let rest = from_offset(bin, e.0 as int);
    if entry_compressed(e) {
        match lz10_decode(rest) {
            Lz10Decoded::Done(v) => EzOutcome::Done(v),
            Lz10Decoded::Refused(x) => EzOutcome::Refused(EzError::Decompress(x)),
            Lz10Decoded::Fault => EzOutcome::Fault,
        }
    } else if entry_size(e) <= rest.len() {
        EzOutcome::Done(rest.subrange(0, entry_size(e) as int))
    } else {
        EzOutcome::Done(rest)
    }
}

/// A step of an extraction: a directory to make or a file to write, by its
/// path below the output directory.
pub type ActionView = (bool, Seq<Seq<char>>, Seq<u8>);

/// The open directories, the lines of the listing, and the steps so far.
pub type ExtractState = (Seq<Seq<char>>, Seq<Seq<char>>, Seq<ActionView>);

/// What entry `e`, the `i`-th, adds: a `_BEGIN`/`_START` entry opens a
/// directory, an `_END` entry closes the one opened last, any other entry is
/// a file in the open directories, named by its number and name. Each adds a
/// line to the listing: its name indented by the depth of the directories
/// around it.
pub open spec fn extract_step(bin: Seq<u8>, names: Seq<u8>, i: nat, e: (u32, u32, u32), st: ExtractState) -> EzOutcome<ExtractState> {
    let nb = name_bytes(names, e.2 as int);
    if !valid_utf8(nb) {
        EzOutcome::Refused(EzError::NameUtf8)
    } else {
        let name = decode_utf8(nb);
        match begin_dir(name) {
            Some(dir) => if entry_size(e) != 0 {
                EzOutcome::Refused(EzError::BeginSize)
            } else {
                EzOutcome::Done(
                    (
                        st.0.push(dir),
                        st.1.push(indent_chars(st.0.len()) + name),
                        st.2.push((true, st.0.push(dir), Seq::empty())),
                    ),
                )
            },
            None => match end_dir(name) {
                Some(dir) => if entry_size(e) != 0 {
                    EzOutcome::Refused(EzError::EndSize)
                } else if st.0.len() == 0 || st.0.last() != dir {
                    EzOutcome::Refused(EzError::EndMismatch)
                } else {
                    EzOutcome::Done(
                        (
                            st.0.drop_last(),
                            st.1.push(indent_chars((st.0.len() - 1) as nat) + name),
                            st.2,
                        ),
                    )
                },
                None => match file_data(bin, e) {
                    EzOutcome::Done(data) => EzOutcome::Done(
                        (
                            st.0,
                            st.1.push(indent_chars(st.0.len()) + name),
                            st.2.push((false, st.0.push(file_name(i, name)), data)),
                        ),
                    ),
                    EzOutcome::Refused(x) => EzOutcome::Refused(x),
                    EzOutcome::Fault => EzOutcome::Fault,
                },
            },
        }
    }
}

/// The entries `es` extracted in turn; the first refusal stops it.
pub open spec fn extract_fold(bin: Seq<u8>, names: Seq<u8>, es: Seq<(u32, u32, u32)>) -> EzOutcome<ExtractState>
    decreases es.len(),
{
    if es.len() == 0 {
        EzOutcome::Done((Seq::empty(), Seq::empty(), Seq::empty()))
    } else {
        match extract_fold(bin, names, es.drop_last()) {
            EzOutcome::Done(st) => extract_step(bin, names, (es.len() - 1) as nat, es.last(), st),
            EzOutcome::Refused(x) => EzOutcome::Refused(x),
            EzOutcome::Fault => EzOutcome::Fault,
        }
    }
}

/// What extracting a `.bin` with the entries `es` of its `.idx` gives: the
/// listing (the number of the header in hexadecimal, then a line for each
/// entry) and the steps.
pub open spec fn extract_spec(bin: Seq<u8>, es: Seq<(u32, u32, u32)>) -> EzOutcome<(Seq<Seq<char>>, Seq<ActionView>)> {
    if bin.len() < 16 {
        EzOutcome::Refused(EzError::UnexpectedEof)
    } else if bin.subrange(0, 8) != bin_magic() || u16_at(bin, 10) != 0x16 {
        EzOutcome::Refused(EzError::BinHeader)
    } else {
        match extract_fold(bin, names_table(bin), es) {
            EzOutcome::Done(st) => EzOutcome::Done((seq![hex4(u16_at(bin, 8))] + st.1, st.2)),
            EzOutcome::Refused(x) => EzOutcome::Refused(x),
            EzOutcome::Fault => EzOutcome::Fault,
        }
    }
}

/// A step of an extraction: make the directory `path`, or write `data` to the
/// file `path`.
pub struct ExtractAction {
    pub is_dir: bool,
    pub path: Vec<String>,
    pub data: Vec<u8>,
}

impl View for ExtractAction {
    type V = ActionView;

    open spec fn view(&self) -> ActionView {
        (self.is_dir, self.path@.map_values(|s: String| s@), self.data@)
    }
}

/// What extracting a `.bin` gives: the lines of its listing and the steps.
pub struct ExtractPlan {
    pub index_lines: Vec<String>,
    pub actions: Vec<ExtractAction>,
}

impl View for ExtractPlan {
    type V = (Seq<Seq<char>>, Seq<ActionView>);

    open spec fn view(&self) -> (Seq<Seq<char>>, Seq<ActionView>) {
        (self.index_lines@.map_values(|s: String| s@), self.actions@.map_values(|a: ExtractAction| a@))
    }
}

fn read_name(names: &[u8], off: u32) -> (r: Vec<u8>)
    ensures
        r@ == name_bytes(names@, off as int),
{
    let n = names.len();
    if off as usize >= n {
        return Vec::new();
    }
    let start = off as usize;
    let mut i: usize = start;
    while i < n
        invariant
            start <= i <= n,
            start < n,
            start == off,
            n == names@.len(),
            zero_from(names@, start as int) == zero_from(names@, i as int),
        decreases n - i,
    {
        if names[i] == 0 {
            return vstd::slice::slice_to_vec(vstd::slice::slice_subrange(names, start, i));
        }
        i = i + 1;
    }
    vstd::slice::slice_to_vec(vstd::slice::slice_subrange(names, start, n - 1))
}

fn read_file_data(bin: &[u8], e: &EzTableEntry) -> (r: EzOutcome<Vec<u8>>)
    ensures
        match r {
            EzOutcome::Done(v) => file_data(bin@, e@) == EzOutcome::Done(v@),
            EzOutcome::Refused(x) => file_data(bin@, e@) == EzOutcome::<Seq<u8>>::Refused(x),
            EzOutcome::Fault => file_data(bin@, e@) is Fault,
        },
{
    let n = bin.len();
    let fo: usize = if (e.file_offset as usize) <= n {
        e.file_offset as usize
    } else {
        n
    };
    let rest = vstd::slice::slice_subrange(bin, fo, n);
    assert(rest@ =~= from_offset(bin@, e.file_offset as int));
    if e.is_compressed() {
        match decode_stream(rest) {
            Decoded::Done(v) => EzOutcome::Done(v),
            Decoded::Refused(x) => EzOutcome::Refused(EzError::Decompress(x)),
            Decoded::Fault => EzOutcome::Fault,
        }
    } else {
        let size = e.decompressed_size() as usize;
        if size <= rest.len() {
            EzOutcome::Done(vstd::slice::slice_to_vec(vstd::slice::slice_subrange(rest, 0, size)))
        } else {
            EzOutcome::Done(vstd::slice::slice_to_vec(rest))
        }
    }
}

/// The open directories as strings, with `last` after them if given.
fn path_of(stack: &Vec<Vec<char>>, last: Option<&Vec<char>>) -> (r: Vec<String>)
    ensures
        r@.map_values(|s: String| s@) == (match last {
            Some(l) => lines_of(stack@).push(l@),
            None => lines_of(stack@),
        }),
{
    let mut r = strings_of(stack);
    match last {
        Some(l) => {
            let ghost before = r@.map_values(|s: String| s@);
            let s = string_of(l.as_slice());
            r.push(s);
            assert(r@.map_values(|s: String| s@) =~= before.push(s@));
        },
        None => {},
    }
    r
}

/// The lines `indent(depth) + name`.
fn indented_line(depth: usize, name: &Vec<char>) -> (r: Vec<char>)
    requires
        4 * depth <= usize::MAX,
    ensures
        r@ == indent_chars(depth as nat) + name@,
{
    let mut l = indent(depth);
    let mut i: usize = 0;
    let ghost base = l@;
    while i < name.len()
        invariant
            i <= name@.len(),
            l@ == base + name@.subrange(0, i as int),
        decreases name@.len() - i,
    {
        l.push(name[i]);
        i = i + 1;
        assert(l@ =~= base + name@.subrange(0, i as int));
    }
    assert(name@.subrange(0, name@.len() as int) =~= name@);
    l
}

fn extract_impl(bin: &[u8], entries: &[EzTableEntry]) -> (r: EzOutcome<ExtractPlan>)
    requires
        entries@.len() <= usize::MAX / 4,
    ensures
        match r {
            EzOutcome::Done(p) => extract_spec(bin@, entries@.map_values(|e: EzTableEntry| e@))
                == EzOutcome::Done(p@),
            EzOutcome::Refused(x) => extract_spec(bin@, entries@.map_values(|e: EzTableEntry| e@))
                == EzOutcome::<(Seq<Seq<char>>, Seq<ActionView>)>::Refused(x),
            EzOutcome::Fault => extract_spec(bin@, entries@.map_values(|e: EzTableEntry| e@)) is Fault,
        },
{
    let ghost es = entries@.map_values(|e: EzTableEntry| e@);
    let n = bin.len();
    if n < 16 {
        return EzOutcome::Refused(EzError::UnexpectedEof);
    }
    let magic: [u8; 8] = [0x45, 0x5A, 0x50, 0x00, 0x0E, 0x07, 0xD9, 0x07];
    assert(magic@ =~= bin_magic());
    let version = read_u16_le(bin, 10).unwrap();
    if !has_bytes(bin, 0, &magic) || version != 0x16 {
        return EzOutcome::Refused(EzError::BinHeader);
    }
    let something1 = read_u16_le(bin, 8).unwrap();
    let names_offset = read_u32_le(bin, 12).unwrap();
    let noff: usize = if (names_offset as usize) <= n {
        names_offset as usize
    } else {
        n
    };
    let names = vstd::slice::slice_subrange(bin, noff, n);
    assert(names@ =~= names_table(bin@));
    let mut stack: Vec<Vec<char>> = Vec::new();
    let mut lines: Vec<Vec<char>> = Vec::new();
    let mut actions: Vec<ExtractAction> = Vec::new();
    let mut i: usize = 0;
    assert(es.take(0) =~= Seq::<(u32, u32, u32)>::empty());
    assert(lines_of(stack@) =~= Seq::<Seq<char>>::empty());
    assert(lines_of(lines@) =~= Seq::<Seq<char>>::empty());
    assert(actions@.map_values(|a: ExtractAction| a@) =~= Seq::<ActionView>::empty());
    while i < entries.len()
        invariant
            i <= entries@.len(),
            entries@.len() <= usize::MAX / 4,
            es == entries@.map_values(|e: EzTableEntry| e@),
            names@ == names_table(bin@),
            stack@.len() <= i,
            extract_fold(bin@, names@, es.take(i as int)) == EzOutcome::Done(
                (lines_of(stack@), lines_of(lines@), actions@.map_values(|a: ExtractAction| a@)),
            ),
            extract_spec(bin@, es) == (match extract_fold(bin@, names@, es) {
                EzOutcome::Done(st) => EzOutcome::Done((seq![hex4(something1)] + st.1, st.2)),
                EzOutcome::Refused(x) => EzOutcome::Refused(x),
                EzOutcome::Fault => EzOutcome::Fault,
            }),
        decreases entries@.len() - i,
    {
        let e = &entries[i];
        let ghost st = (lines_of(stack@), lines_of(lines@), actions@.map_values(|a: ExtractAction| a@));
        assert(es.take(i + 1).drop_last() =~= es.take(i as int));
        assert(es.take(i + 1).last() == e@);
        let nb = read_name(names, e.name_offset);
        let name = match crate::text::utf8_string(nb.as_slice()) {
            Some(v) => chars_of(v.as_str()),
            None => {
                proof {
                    lemma_extract_stop(bin@, names@, es, i + 1, EzOutcome::Refused(EzError::NameUtf8));
                }
                return EzOutcome::Refused(EzError::NameUtf8);
            },
        };
        let ghost before_actions = actions@.map_values(|a: ExtractAction| a@);
        if let Some(dir) = opened_dir(name.as_slice()) {
            if e.decompressed_size() != 0 {
                proof {
                    lemma_extract_stop(bin@, names@, es, i + 1, EzOutcome::Refused(EzError::BeginSize));
                }
                return EzOutcome::Refused(EzError::BeginSize);
            }
            lines.push(indented_line(stack.len(), &name));
            stack.push(dir);
            let path = path_of(&stack, None);
            let a = ExtractAction { is_dir: true, path, data: Vec::new() };
            actions.push(a);
            proof {
                assert(lines_of(stack@) =~= st.0.push(dir@));
                assert(lines_of(lines@) =~= st.1.push(indent_chars(st.0.len()) + name@));
                assert(a@.2 =~= Seq::<u8>::empty());
                assert(actions@.map_values(|a: ExtractAction| a@) =~= st.2.push(a@));
            }
        } else if let Some(dir) = closed_dir(name.as_slice()) {
            if e.decompressed_size() != 0 {
                proof {
                    lemma_extract_stop(bin@, names@, es, i + 1, EzOutcome::Refused(EzError::EndSize));
                }
                return EzOutcome::Refused(EzError::EndSize);
            }
            let ok = match stack.pop() {
                Some(top) => crate::text::chars_eq(top.as_slice(), dir.as_slice()),
                None => false,
            };
            if !ok {
                proof {
                    lemma_extract_stop(bin@, names@, es, i + 1, EzOutcome::Refused(EzError::EndMismatch));
                }
                return EzOutcome::Refused(EzError::EndMismatch);
            }
            lines.push(indented_line(stack.len(), &name));
            proof {
                assert(lines_of(stack@) =~= st.0.drop_last());
                assert(lines_of(lines@) =~= st.1.push(indent_chars((st.0.len() - 1) as nat) + name@));
            }
        } else {
            let data = match read_file_data(bin, e) {
                EzOutcome::Done(v) => v,
                EzOutcome::Refused(x) => {
                    proof {
                        lemma_extract_stop(bin@, names@, es, i + 1, EzOutcome::Refused(x));
                    }
                    return EzOutcome::Refused(x);
                },
                EzOutcome::Fault => {
                    proof {
                        lemma_extract_stop(bin@, names@, es, i + 1, EzOutcome::Fault);
                    }
                    return EzOutcome::Fault;
                },
            };
            let fname = numbered_name(i, name.as_slice());
            let path = path_of(&stack, Some(&fname));
            lines.push(indented_line(stack.len(), &name));
            let a = ExtractAction { is_dir: false, path, data };
            actions.push(a);
            proof {
                assert(lines_of(lines@) =~= st.1.push(indent_chars(st.0.len()) + name@));
                assert(actions@.map_values(|a: ExtractAction| a@) =~= st.2.push(a@));
            }
        }
        i = i + 1;
    }
    assert(es.take(es.len() as int) =~= es);
    let mut index_lines: Vec<Vec<char>> = Vec::new();
    index_lines.push(hex4_chars(something1));
    index_lines.append(&mut lines);
    let out = strings_of(&index_lines);
    let plan = ExtractPlan { index_lines: out, actions };
    assert(plan@.0 =~= seq![hex4(something1)] + extract_fold(bin@, names@, es)->Done_0.1);
    EzOutcome::Done(plan)
}

proof fn lemma_extract_stop(bin: Seq<u8>, names: Seq<u8>, es: Seq<(u32, u32, u32)>, i: int, o: EzOutcome<ExtractState>)
    requires
        0 <= i <= es.len(),
        o !is Done,
        extract_fold(bin, names, es.take(i)) == o,
    ensures
        extract_fold(bin, names, es) == o,
    decreases es.len() - i,
{
    if i < es.len() {
        assert(es.take(i + 1).drop_last() =~= es.take(i));
        lemma_extract_stop(bin, names, es, i + 1, o);
    } else {
        assert(es.take(i) =~= es);
    }
}

/// Extracts a `.bin` with the entries of its `.idx`: the listing to write to
/// `.index` and the directories and files to write, in order.
pub fn extract_bin(bin: &[u8], entries: &[EzTableEntry]) -> (r: Result<ExtractPlan, EzError>)
    requires
        entries@.len() <= usize::MAX / 4,
        !(extract_spec(bin@, entries@.map_values(|e: EzTableEntry| e@)) is Fault),
    ensures
        match r {
            Ok(p) => extract_spec(bin@, entries@.map_values(|e: EzTableEntry| e@)) == EzOutcome::Done(p@),
            Err(x) => extract_spec(bin@, entries@.map_values(|e: EzTableEntry| e@))
                == EzOutcome::<(Seq<Seq<char>>, Seq<ActionView>)>::Refused(x),
        },
{
    match extract_impl(bin, entries) {
        EzOutcome::Done(p) => Ok(p),
        EzOutcome::Refused(x) => Err(x),
        EzOutcome::Fault => Err(EzError::UnexpectedEof),
    }
}

/// Whether `extract_bin` can run on these arguments: no compressed file
/// refers back before the start of its output.
pub fn extract_bin_accepts(bin: &[u8], entries: &[EzTableEntry]) -> (r: bool)
    requires
        entries@.len() <= usize::MAX / 4,
    ensures
        r == !(extract_spec(bin@, entries@.map_values(|e: EzTableEntry| e@)) is Fault),
{
    match extract_impl(bin, entries) {
        EzOutcome::Fault => false,
        _ => true,
    }
}


/// The 16-byte header of a `.bin`.
pub open spec fn bin_header(something1: u16, names_offset: u32) -> Seq<u8> {
    bin_magic() + le_bytes_u16(something1) + le_bytes_u16(0x16) + le_bytes_u32(names_offset)
}

/// `n` zero bytes.
pub open spec fn zeros(n: nat) -> Seq<u8> {
    Seq::new(n, |_i: int| 0u8)
}

/// The name table with `name` added: its UTF-8 bytes, then at least one zero
/// byte, up to a multiple of four bytes.
pub open spec fn add_name(names: Seq<u8>, name: Seq<char>) -> Seq<u8> {
    let nb = names + encode_utf8(name);
    nb + zeros((next_multiple(nb.len() + 1int, 4) - nb.len()) as nat)
}

/// A `_BEGIN`, `_START` or `_END` entry.
pub open spec fn is_marker(name: Seq<char>) -> bool {
    begin_dir(name) is Some || end_dir(name) is Some
}

/// What an archive being built holds: the number of its header, the `.bin`
/// written so far, the name table, the open directories, the entries, and the
/// number of the next entry.
pub type BuildView = (u16, Seq<u8>, Seq<u8>, Seq<Seq<char>>, Seq<(u32, u32, u32)>, nat);

/// An archive at its start: the `.bin` header with the name table offset still
/// zero.
pub open spec fn build_start(something1: u16) -> BuildView {
    (something1, bin_header(something1, 0), Seq::empty(), Seq::empty(), Seq::empty(), 0)
}

/// Where the file of an entry named `name` is read from: below the open
/// directories, named by its number and name; none for a directory entry.
pub open spec fn entry_path_spec(st: BuildView, name: Seq<char>) -> Option<Seq<Seq<char>>> {
    if is_marker(name) {
        None
    } else {
        Some(st.3.push(file_name(st.5, name)))
    }
}

/// Adding a file with contents would overflow the 32-bit position of the
/// `.bin` while aligning it, so it cannot be added.
pub open spec fn add_panics(st: BuildView, name: Seq<char>, data: Seq<u8>) -> bool {
    !is_marker(name) && 0 < data.len() <= 0x0FFF_FFFF && next_multiple(
        (st.1.len() as u32) as int,
        alignment_spec(name) as int,
    ) > u32::MAX
}

/// What adding the entry `name` (with `data`, the contents of its file, for a
/// file) does. A directory entry or an empty file is an entry at the current
/// position of size zero. A file is aligned (the position taken as 32 bits),
/// then written compressed if it is to be compressed and that makes it
/// smaller, else as it is.
pub open spec fn add_spec(st: BuildView, name: Seq<char>, data: Seq<u8>) -> Result<BuildView, EzError> {
    let off = st.2.len() as u32;
    let names = add_name(st.2, name);
    let pos = st.1.len() as u32;
    match begin_dir(name) {
        Some(d) => Ok((st.0, st.1, names, st.3.push(d), st.4.push((pos, 0u32, off)), st.5 + 1)),
        None => match end_dir(name) {
            Some(d) => if st.3.len() == 0 || st.3.last() != d {
                Err(EzError::EndMismatch)
            } else {
                Ok((st.0, st.1, names, st.3.drop_last(), st.4.push((pos, 0u32, off)), st.5 + 1))
            },
            None => if data.len() > 0x0FFF_FFFF {
                Err(EzError::FileTooLarge)
            } else if data.len() == 0 {
                Ok((st.0, st.1, names, st.3, st.4.push((pos, 0u32, off)), st.5 + 1))
            } else {
                let aligned = next_multiple(pos as int, alignment_spec(name) as int);
                let padded = st.1 + zeros((aligned - pos) as nat);
                if no_compress_spec(name) {
                    Ok((st.0, padded + data, names, st.3, st.4.push((aligned as u32, data.len() as u32, off)), st.5 + 1))
                } else if data.len() > 0xFF_FFFF {
                    Err(EzError::Compress(Lz10Error::TooLarge))
                } else {
                    let c = lz10_compressed(data);
                    if c.len() < data.len() {
                        Ok((st.0, padded + c, names, st.3, st.4.push((aligned as u32, (data.len() as u32) | 0x1000_0000u32, off)), st.5 + 1))
                    } else {
                        Ok((st.0, padded + data, names, st.3, st.4.push((aligned as u32, data.len() as u32, off)), st.5 + 1))
                    }
                }
            },
        },
    }
}

/// `name` ends with the characters `p`.
pub open spec fn name_ends(name: Seq<char>, p: Seq<char>) -> bool {
    name.len() >= p.len() && forall|i: int| 0 <= i < p.len() ==> name[name.len() - p.len() + i] == #[trigger] p[i]
}

/// `name` begins with the characters `p`.
pub open spec fn name_begins(name: Seq<char>, p: Seq<char>) -> bool {
    name.len() >= p.len() && forall|i: int| 0 <= i < p.len() ==> name[i] == #[trigger] p[i]
}

/// Fonts (`.S14`, `.NFTR`), sound (`.SSS`) and packed files (`.BIN`, `.IDX`),
/// by the end of their names.
pub open spec fn kept_as_is(name: Seq<char>) -> bool {
    ||| name_ends(name, seq!['.', 'S', '1', '4'])
    ||| name_ends(name, seq!['.', 'S', 'S', 'S'])
    ||| name_ends(name, seq!['.', 'N', 'F', 'T', 'R'])
    ||| name_ends(name, seq!['.', 'B', 'I', 'N'])
    ||| name_ends(name, seq!['.', 'I', 'D', 'X'])
}

/// The animations (`.NSBCA`) of the five characters whose names begin
/// `AI_`, `ERI_`, `RYO_`, `DNC_` and `ACT_`.
pub open spec fn kept_animation(name: Seq<char>) -> bool {
    &&& name_ends(name, seq!['.', 'N', 'S', 'B', 'C', 'A'])
    &&& {
        ||| name_begins(name, seq!['A', 'I', '_'])
        ||| name_begins(name, seq!['E', 'R', 'I', '_'])
        ||| name_begins(name, seq!['R', 'Y', 'O', '_'])
        ||| name_begins(name, seq!['D', 'N', 'C', '_'])
        ||| name_begins(name, seq!['A', 'C', 'T', '_'])
    }
}

/// The animations of those five characters are never stored compressed
/// either, as `lemma_kept_as_is` says of fonts, sound and packed files.
pub proof fn lemma_animation_kept(st: BuildView, name: Seq<char>, data: Seq<u8>)
    requires
        kept_animation(name),
        0 < data.len() <= 0x0FFF_FFFF,
    ensures
        add_spec(st, name, data) matches Ok(n) && n.4.last().1 == data.len() && n.1.len() >= data.len()
            && n.1.subrange(n.1.len() - data.len(), n.1.len() as int) == data,
{
    reveal_strlit(".NSBCA");
    reveal_strlit("AI_");
    reveal_strlit("ERI_");
    reveal_strlit("RYO_");
    reveal_strlit("DNC_");
    reveal_strlit("ACT_");
    reveal_strlit("_BEGIN");
    reveal_strlit("_START");
    reveal_strlit("_END");
    let l = name.len() as int;
    let e = seq!['.', 'N', 'S', 'B', 'C', 'A'];
    assert(name[l - 1] == e[5]);
    assert(name.subrange(l - 6, l) =~= ".NSBCA"@);
    let ps = seq![seq!['A', 'I', '_'], seq!['E', 'R', 'I', '_'], seq!['R', 'Y', 'O', '_'], seq!['D', 'N', 'C', '_'], seq!['A', 'C', 'T', '_']];
    assert(ps[0] =~= "AI_"@ && ps[1] =~= "ERI_"@ && ps[2] =~= "RYO_"@ && ps[3] =~= "DNC_"@ && ps[4] =~= "ACT_"@);
    assert(name_begins(name, ps[0]) || name_begins(name, ps[1]) || name_begins(name, ps[2]) || name_begins(name, ps[3])
        || name_begins(name, ps[4]));
    let k = choose|k: int| 0 <= k < 5 && name_begins(name, #[trigger] ps[k]);
    assert(name.subrange(0, ps[k].len() as int) =~= ps[k]);
    assert(crate::text::has_prefix(name, ps[k]));
    assert(!has_suffix(name, "_BEGIN"@)) by {
        if has_suffix(name, "_BEGIN"@) {
            assert(name.subrange(l - 6, l)[5] == name[l - 1]);
        }
    }
    assert(!has_suffix(name, "_START"@)) by {
        if has_suffix(name, "_START"@) {
            assert(name.subrange(l - 6, l)[5] == name[l - 1]);
        }
    }
    assert(!has_suffix(name, "_END"@)) by {
        if has_suffix(name, "_END"@) {
            assert(name.subrange(l - 4, l)[3] == name[l - 1]);
        }
    }
    assert(no_compress_spec(name));
    let pos = st.1.len() as u32;
    let aligned = next_multiple(pos as int, alignment_spec(name) as int);
    let padded = st.1 + zeros((aligned - pos) as nat);
    let b = padded + data;
    assert(b.subrange(b.len() - data.len(), b.len() as int) =~= data);
}

/// A font, sound or packed file is never stored compressed: adding it writes
/// its contents as they are at the end of the `.bin`, and its entry's size
/// field is its size with the compressed flag clear.
pub proof fn lemma_kept_as_is(st: BuildView, name: Seq<char>, data: Seq<u8>)
    requires
        kept_as_is(name),
        0 < data.len() <= 0x0FFF_FFFF,
    ensures
        add_spec(st, name, data) matches Ok(n) && n.4.last().1 == data.len() && n.1.len() >= data.len()
            && n.1.subrange(n.1.len() - data.len(), n.1.len() as int) == data,
{
    reveal_strlit(".S14");
    reveal_strlit(".SSS");
    reveal_strlit(".NFTR");
    reveal_strlit(".BIN");
    reveal_strlit(".IDX");
    reveal_strlit("_BEGIN");
    reveal_strlit("_START");
    reveal_strlit("_END");
    let l = name.len() as int;
    let ps = seq![seq!['.', 'S', '1', '4'], seq!['.', 'S', 'S', 'S'], seq!['.', 'N', 'F', 'T', 'R'], seq!['.', 'B', 'I', 'N'], seq!['.', 'I', 'D', 'X']];
    assert(ps[0] =~= ".S14"@ && ps[1] =~= ".SSS"@ && ps[2] =~= ".NFTR"@ && ps[3] =~= ".BIN"@ && ps[4] =~= ".IDX"@);
    let k = choose|k: int| 0 <= k < 5 && name_ends(name, #[trigger] ps[k]);
    assert(name_ends(name, ps[0]) || name_ends(name, ps[1]) || name_ends(name, ps[2]) || name_ends(name, ps[3])
        || name_ends(name, ps[4]));
    assert(0 <= k < 5 && name_ends(name, ps[k]));
    let p = ps[k];
    assert(name[l - 1] == p[p.len() - 1]);
    assert(name[l - 2] == p[p.len() - 2]);
    assert(name[l - 3] == p[p.len() - 3]);
    assert(name.subrange(l - p.len(), l) =~= p);
    assert(has_suffix(name, p));
    assert(!has_suffix(name, "_BEGIN"@)) by {
        if has_suffix(name, "_BEGIN"@) {
            assert(name.subrange(l - 6, l)[5] == name[l - 1]);
            assert(name.subrange(l - 6, l)[4] == name[l - 2]);
            assert(name.subrange(l - 6, l)[3] == name[l - 3]);
        }
    }
    assert(!has_suffix(name, "_START"@)) by {
        if has_suffix(name, "_START"@) {
            assert(name.subrange(l - 6, l)[5] == name[l - 1]);
        }
    }
    assert(!has_suffix(name, "_END"@)) by {
        if has_suffix(name, "_END"@) {
            assert(name.subrange(l - 4, l)[3] == name[l - 1]);
        }
    }
    assert(no_compress_spec(name));
    let pos = st.1.len() as u32;
    let aligned = next_multiple(pos as int, alignment_spec(name) as int);
    let padded = st.1 + zeros((aligned - pos) as nat);
    let b = padded + data;
    assert(b.subrange(b.len() - data.len(), b.len() as int) =~= data);
}

/// The twelve bytes of an entry.
pub open spec fn entry_bytes(e: (u32, u32, u32)) -> Seq<u8> {
    le_bytes_u32(e.0) + le_bytes_u32(e.1) + le_bytes_u32(e.2)
}

/// The bytes of entries, one after another.
pub open spec fn entries_bytes(es: Seq<(u32, u32, u32)>) -> Seq<u8>
    decreases es.len(),
{
    if es.len() == 0 {
        Seq::empty()
    } else {
        entries_bytes(es.drop_last()) + entry_bytes(es.last())
    }
}

/// The finished `.bin` and `.idx`: the name table goes at the end of the
/// `.bin`, whose header then gives its offset; the `.idx` is its header, the
/// entries, and a last entry that holds the offset of the name table.
pub open spec fn finish_spec(st: BuildView) -> (Seq<u8>, Seq<u8>) {
    let no = st.1.len() as u32;
    (
        st.1.subrange(0, 12) + le_bytes_u32(no) + st.1.subrange(16, st.1.len() as int) + st.2,
        idx_magic() + le_bytes_u16(st.0) + le_bytes_u16(0x16) + le_bytes_u32(st.4.len() as u32)
            + entries_bytes(st.4) + entry_bytes((no, 0u32, 0u32)),
    )
}

/// An archive being built, entry by entry.
pub struct EzBuilder {
    something1: u16,
    bin: Vec<u8>,
    names: Vec<u8>,
    stack: Vec<Vec<char>>,
    entries: Vec<EzTableEntry>,
    index: usize,
}

impl View for EzBuilder {
    type V = BuildView;

    closed spec fn view(&self) -> BuildView {
        (
            self.something1,
            self.bin@,
            self.names@,
            lines_of(self.stack@),
            self.entries@.map_values(|e: EzTableEntry| e@),
            self.index as nat,
        )
    }
}

impl EzBuilder {
    /// The builder holds at least the `.bin` header, and no more directories
    /// than entries.
    pub closed spec fn wf(&self) -> bool {
        &&& self.bin@.len() >= 16
        &&& self.stack@.len() <= self.index
        &&& self.entries@.len() == self.index
    }

    /// Starts an archive whose header holds `something1`.
    pub fn new(something1: u16) -> (r: EzBuilder)
        ensures
            r.wf(),
            r@ == build_start(something1),
    {
        let mut bin: Vec<u8> = Vec::new();
        let magic: [u8; 8] = [0x45, 0x5A, 0x50, 0x00, 0x0E, 0x07, 0xD9, 0x07];
        let mut k: usize = 0;
        while k < 8
            invariant
                k <= 8,
                bin@ == magic@.subrange(0, k as int),
            decreases 8 - k,
        {
            bin.push(magic[k]);
            k = k + 1;
            assert(bin@ =~= magic@.subrange(0, k as int));
        }
        push_u16_le(&mut bin, something1);
        push_u16_le(&mut bin, 0x16);
        push_u32_le(&mut bin, 0);
        assert(magic@.subrange(0, 8) =~= bin_magic());
        let r = EzBuilder {
            something1,
            bin,
            names: Vec::new(),
            stack: Vec::new(),
            entries: Vec::new(),
            index: 0,
        };
        assert(r@.1 =~= bin_header(something1, 0));
        assert(r@.3 =~= Seq::<Seq<char>>::empty());
        assert(r@.4 =~= Seq::<(u32, u32, u32)>::empty());
        r
    }

    /// Where the file of the entry `name` is to be read from, if it is a file.
    pub fn entry_path(&self, name: &str) -> (r: Option<Vec<String>>)
        requires
            self.wf(),
            self@.5 < usize::MAX,
        ensures
            match r {
                Some(p) => entry_path_spec(self@, name@) == Some(p@.map_values(|s: String| s@)),
                None => entry_path_spec(self@, name@) is None,
            },
    {
        let cs = chars_of(name);
        if opened_dir(cs.as_slice()).is_some() || closed_dir(cs.as_slice()).is_some() {
            return None;
        }
        let fname = numbered_name(self.index, cs.as_slice());
        Some(path_of(&self.stack, Some(&fname)))
    }

    /// Whether `add_entry` can add the entry `name` with `data`: the counts
    /// fit in memory and the aligned position of a file fits in 32 bits.
    pub fn add_accepts(&self, name: &str, data: &[u8]) -> (r: bool)
        requires
            self.wf(),
        ensures
            r == (self@.5 < usize::MAX && self@.2.len() + encode_utf8(name@).len() + 4 <= usize::MAX
                && self@.1.len() + 32 + data@.len() <= usize::MAX && !add_panics(self@, name@, data@)),
    {
        if self.index == usize::MAX {
            return false;
        }
        let nb = name.as_bytes();
        let nl = nb.len();
        assert(nb@ == encode_utf8(name@));
        if nl > usize::MAX - 4 || self.names.len() > usize::MAX - 4 - nl {
            return false;
        }
        if data.len() > usize::MAX - 32 || self.bin.len() > usize::MAX - 32 - data.len() {
            return false;
        }
        let cs = chars_of(name);
        let marker = opened_dir(cs.as_slice()).is_some() || closed_dir(cs.as_slice()).is_some();
        assert(marker == is_marker(name@));
        if marker || data.len() == 0 || data.len() > 0x0FFF_FFFF {
            return true;
        }
        let align = padding_alignment(cs.as_slice());
        next_multiple_u32(self.bin.len() as u32, align).is_some()
    }

    /// Adds the entry `name`; `data` holds the contents of its file when it is
    /// a file.
    pub fn add_entry(&mut self, name: &str, data: &[u8]) -> (r: Result<(), EzError>)
        requires
            old(self).wf(),
            old(self)@.5 < usize::MAX,
            old(self)@.2.len() + encode_utf8(name@).len() + 4 <= usize::MAX,
            old(self)@.1.len() + 32 + data@.len() <= usize::MAX,
            !add_panics(old(self)@, name@, data@),
        ensures
            match r {
                Ok(()) => add_spec(old(self)@, name@, data@) == Ok::<BuildView, EzError>(final(self)@) && final(self).wf(),
                Err(e) => add_spec(old(self)@, name@, data@) == Err::<BuildView, EzError>(e),
            },
    {
        let ghost st = self@;
        let cs = chars_of(name);
        let off = self.names.len() as u32;
        let pos = self.bin.len() as u32;
        let mut names = self.names.clone();
        assert(names@ == self.names@) by {
            assert(names@ =~= self.names@);
        }
        let nb = name.as_bytes();
        extend_bytes(&mut names, nb);
        let pad = next_multiple_usize(names.len() + 1, 4).unwrap() - names.len();
        push_repeat(&mut names, 0, pad);
        assert(names@ =~= add_name(st.2, name@));
        if let Some(d) = opened_dir(cs.as_slice()) {
            self.names = names;
            self.entries.push(EzTableEntry { file_offset: pos, size_and_compressed_flag: 0, name_offset: off });
            self.stack.push(d);
            self.index = self.index + 1;
            proof {
                assert(self@.3 =~= st.3.push(d@));
                assert(self@.4 =~= st.4.push((pos, 0u32, off)));
            }
            return Ok(());
        }
        if let Some(d) = closed_dir(cs.as_slice()) {
            let ok = match self.stack.last() {
                Some(top) => crate::text::chars_eq(top.as_slice(), d.as_slice()),
                None => false,
            };
            if !ok {
                return Err(EzError::EndMismatch);
            }
            self.stack.pop();
            self.names = names;
            self.entries.push(EzTableEntry { file_offset: pos, size_and_compressed_flag: 0, name_offset: off });
            self.index = self.index + 1;
            proof {
                assert(self@.3 =~= st.3.drop_last());
                assert(self@.4 =~= st.4.push((pos, 0u32, off)));
            }
            return Ok(());
        }
        if data.len() > 0x0FFF_FFFF {
            return Err(EzError::FileTooLarge);
        }
        let size = data.len() as u32;
        if size == 0 {
            self.names = names;
            self.entries.push(EzTableEntry { file_offset: pos, size_and_compressed_flag: 0, name_offset: off });
            self.index = self.index + 1;
            proof {
                assert(self@.4 =~= st.4.push((pos, 0u32, off)));
            }
            return Ok(());
        }
        let align = padding_alignment(cs.as_slice());
        let aligned = match next_multiple_u32(pos, align) {
            Some(a) => a,
            None => {
                assert(false);
                return Err(EzError::FileTooLarge);
            },
        };
        let ghost before_bin = self.bin@;
        push_repeat(&mut self.bin, 0, (aligned - pos) as usize);
        let ghost padded = self.bin@;
        assert(padded =~= st.1 + zeros((aligned - pos) as nat));
        let flag: u32 = if do_not_compress(cs.as_slice()) {
            extend_bytes(&mut self.bin, data);
            0
        } else {
            let c = match compress(data) {
                Ok(c) => c,
                Err(x) => return Err(EzError::Compress(x)),
            };
            if c.len() < data.len() {
                extend_bytes(&mut self.bin, c.as_slice());
                0x1000_0000
            } else {
                extend_bytes(&mut self.bin, data);
                0
            }
        };
        self.names = names;
        self.entries.push(EzTableEntry { file_offset: aligned, size_and_compressed_flag: size | flag, name_offset: off });
        self.index = self.index + 1;
        proof {
            assert(size | 0u32 == size) by (bit_vector);
            assert(self@.4 =~= st.4.push((aligned, size | flag, off)));
            assert(size == data@.len() as u32);
            assert(add_spec(st, name@, data@) == Ok::<BuildView, EzError>(self@));
        }
        Ok(())
    }

    /// The finished `.bin` and `.idx`.
    pub fn finish(self) -> (r: (Vec<u8>, Vec<u8>))
        requires
            self.wf(),
        ensures
            (r.0@, r.1@) == finish_spec(self@),
    {
        let no = self.bin.len() as u32;
        let mut bin: Vec<u8> = vstd::slice::slice_to_vec(vstd::slice::slice_subrange(self.bin.as_slice(), 0, 12));
        push_u32_le(&mut bin, no);
        extend_bytes(&mut bin, vstd::slice::slice_subrange(self.bin.as_slice(), 16, self.bin.len()));
        extend_bytes(&mut bin, self.names.as_slice());
        let mut idx: Vec<u8> = Vec::new();
        let magic: [u8; 8] = [0x45, 0x5A, 0x54, 0x00, 0x0E, 0x07, 0xD9, 0x07];
        let mut k: usize = 0;
        while k < 8
            invariant
                k <= 8,
                idx@ == magic@.subrange(0, k as int),
            decreases 8 - k,
        {
            idx.push(magic[k]);
            k = k + 1;
            assert(idx@ =~= magic@.subrange(0, k as int));
        }
        assert(magic@.subrange(0, 8) =~= idx_magic());
        push_u16_le(&mut idx, self.something1);
        push_u16_le(&mut idx, 0x16);
        push_u32_le(&mut idx, self.entries.len() as u32);
        let ghost head = idx@;
        let ghost es = self.entries@.map_values(|e: EzTableEntry| e@);
        let mut i: usize = 0;
        while i < self.entries.len()
            invariant
                i <= self.entries@.len(),
                es == self.entries@.map_values(|e: EzTableEntry| e@),
                idx@ == head + entries_bytes(es.take(i as int)),
            decreases self.entries@.len() - i,
        {
            let e = self.entries[i];
            push_u32_le(&mut idx, e.file_offset);
            push_u32_le(&mut idx, e.size_and_compressed_flag);
            push_u32_le(&mut idx, e.name_offset);
            assert(es.take(i + 1).drop_last() =~= es.take(i as int));
            assert(es.take(i + 1).last() == e@);
            i = i + 1;
            assert(idx@ =~= head + entries_bytes(es.take(i as int)));
        }
        assert(es.take(es.len() as int) =~= es);
        push_u32_le(&mut idx, no);
        push_u32_le(&mut idx, 0);
        push_u32_le(&mut idx, 0);
        assert(bin@ =~= finish_spec(self@).0);
        assert(idx@ =~= finish_spec(self@).1);
        (bin, idx)
    }
}

/// The first line of a listing as a 16-bit hexadecimal number, and the names
/// of the other lines without their leading whitespace.
pub open spec fn index_spec(lines: Seq<Seq<char>>) -> Result<(u16, Seq<Seq<char>>), EzError> {
    if lines.len() == 0 {
        Err(EzError::IndexEmpty)
    } else {
        match parse_hex_u16(lines[0]) {
            None => Err(EzError::IndexHex),
            Some(h) => Ok((h, lines.drop_first().map_values(|l: Seq<char>| crate::text::trim_start(l)))),
        }
    }
}

/// Reads the listing written by an extraction: the number of the header and
/// the entry names.
pub fn parse_index(lines: &[&str]) -> (r: Result<(u16, Vec<String>), EzError>)
    ensures
        match r {
            Ok((h, names)) => index_spec(lines@.map_values(|s: &str| s@)) == Ok::<(u16, Seq<Seq<char>>), EzError>(
                (h, names@.map_values(|s: String| s@)),
            ),
            Err(e) => index_spec(lines@.map_values(|s: &str| s@)) == Err::<(u16, Seq<Seq<char>>), EzError>(e),
        },
{
    let ghost lv = lines@.map_values(|s: &str| s@);
    if lines.len() == 0 {
        return Err(EzError::IndexEmpty);
    }
    let first = chars_of(lines[0]);
    let h = match parse_hex(first.as_slice()) {
        Some(h) => h,
        None => return Err(EzError::IndexHex),
    };
    let mut names: Vec<Vec<char>> = Vec::new();
    let mut i: usize = 1;
    let ghost want = lv.drop_first().map_values(|l: Seq<char>| crate::text::trim_start(l));
    while i < lines.len()
        invariant
            1 <= i <= lines@.len(),
            lv == lines@.map_values(|s: &str| s@),
            want == lv.drop_first().map_values(|l: Seq<char>| crate::text::trim_start(l)),
            lines_of(names@) == want.take(i - 1),
        decreases lines@.len() - i,
    {
        let cs = chars_of(lines[i]);
        let t = crate::text::trimmed_start(cs.as_slice());
        let ghost before = lines_of(names@);
        names.push(t);
        assert(lines_of(names@) =~= before.push(t@));
        assert(want.take(i as int) =~= want.take(i - 1).push(want[i - 1]));
        i = i + 1;
    }
    assert(want.take(want.len() as int) =~= want);
    Ok((h, strings_of(&names)))
}

} // verus!
