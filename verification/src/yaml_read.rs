//! Reading a `.bbq` file back from the lines of its YAML document.
use vstd::prelude::*;
use crate::bbq::{Bbq, Command, Type2Data, Type3Data, Type5Data, Type6Data, Type7Data};
use crate::bbq_read::{BbqView, Sections};
use crate::text::{string_of, lines_of, split_char, split_on, trim, trimmed, has_prefix, starts_with, chars_eq, chars_of, slice_chars, parse_unsigned, parse_u64};

verus! {

/// Why a YAML document is not a `.bbq` file.
#[derive(Debug, Clone, Copy, PartialEq, Eq)]
pub enum YamlError {
    NoData,
    DatetimeLines,
    DatetimeLabel,
    DatetimeValue,
    UnknownChunk,
    FooterLines,
    FooterLength,
    ArrayBrackets,
    ArrayInteger,
    Type2Lines,
    Type2Label,
    Type2Length,
    Type3Lines,
    Type3Label,
    Type3Length,
    Type3ChildrenLabel,
    Type3ChildDash,
    Type3ChildLength,
    Type5SmallData,
    Type5Label,
    Type5Dash,
    Type5LineLength,
    Type6Label,
    Type6Dash,
    CommandBraces,
    CommandFields,
    Code1Label,
    Code1Value,
    Code2Label,
    Code2Value,
    ArgCountLabel,
    ArgCountValue,
    PlaceLabel,
    PlaceValue,
    ArgsLabel,
    ArgsLength,
    Type7Block,
}

/// An outcome in executable code agrees with the one the specification gives.
pub open spec fn parsed_as<T: View>(r: Result<T, YamlError>, s: Result<T::V, YamlError>) -> bool {
    match r {
        Ok(v) => s == Ok::<T::V, YamlError>(v@),
        Err(e) => s == Err::<T::V, YamlError>(e),
    }
}

/// `s` after `p`, if `p` begins it.
pub open spec fn after(s: Seq<char>, p: Seq<char>) -> Option<Seq<char>> {
    if has_prefix(s, p) {
        Some(s.subrange(p.len() as int, s.len() as int))
    } else {
        None
    }
}

/// `s` after `p`, if `p` begins it.
pub fn strip(s: &[char], p: &str) -> (r: Option<Vec<char>>)
    ensures
        match r {
            Some(v) => after(s@, p@) == Some(v@),
            None => after(s@, p@) is None,
        },
{
    let pc = chars_of(p);
    if starts_with(s, pc.as_slice()) {
        Some(slice_chars(s, pc.len(), s.len()))
    } else {
        None
    }
}

/// Applies `f` to each of `xs` in turn; the first error stops it.
pub open spec fn fold_ok<A, V>(xs: Seq<A>, f: spec_fn(A) -> Result<V, YamlError>) -> Result<
    Seq<V>,
    YamlError,
>
    decreases xs.len(),
{
    if xs.len() == 0 {
        Ok(Seq::empty())
    } else {
        match fold_ok(xs.drop_last(), f) {
            Ok(vs) => match f(xs.last()) {
                Ok(v) => Ok(vs.push(v)),
                Err(e) => Err(e),
            },
            Err(e) => Err(e),
        }
    }
}

/// The numbers of the pieces of an array, each trimmed; `None` if one is not
/// a number that fits in 32 bits.
pub open spec fn numbers(ps: Seq<Seq<char>>) -> Option<Seq<u32>>
    decreases ps.len(),
{
    if ps.len() == 0 {
        Some(Seq::empty())
    } else {
        match numbers(ps.drop_last()) {
            Some(vs) => match parse_unsigned(trim(ps.last()), u32::MAX as nat) {
                Some(x) => Some(vs.push(x as u32)),
                None => None,
            },
            None => None,
        }
    }
}

proof fn lemma_numbers_none(ps: Seq<Seq<char>>, i: int)
    requires
        0 <= i <= ps.len(),
        numbers(ps.take(i)) is None,
    ensures
        numbers(ps) is None,
    decreases ps.len() - i,
{
    if i < ps.len() {
        assert(ps.take(i + 1).drop_last() =~= ps.take(i));
        lemma_numbers_none(ps, i + 1);
    } else {
        assert(ps.take(i) =~= ps);
    }
}

/// Once an error stops the fold of a prefix, it stops the whole fold.
pub proof fn lemma_fold_err<A, V>(xs: Seq<A>, f: spec_fn(A) -> Result<V, YamlError>, i: int, e: YamlError)
    requires
        0 <= i <= xs.len(),
        fold_ok(xs.take(i), f) == Err::<Seq<V>, YamlError>(e),
    ensures
        fold_ok(xs, f) == Err::<Seq<V>, YamlError>(e),
    decreases xs.len() - i,
{
    if i < xs.len() {
        assert(xs.take(i + 1).drop_last() =~= xs.take(i));
        lemma_fold_err(xs, f, i + 1, e);
    } else {
        assert(xs.take(i) =~= xs);
    }
}

/// The numbers of `[a, b, c]`: brackets around numbers split by commas, with
/// whitespace around each number allowed; `[]` (or brackets around only
/// whitespace) holds none.
pub open spec fn array_spec(s: Seq<char>) -> Result<Seq<u32>, YamlError> {
    if !(s.len() >= 2 && s[0] == '[' && s.last() == ']') {
        Err(YamlError::ArrayBrackets)
    } else {
        let t = trim(s.subrange(1, s.len() - 1));
        if t.len() == 0 {
            Ok(Seq::empty())
        } else {
            match numbers(split_char(t, ',')) {
                Some(vs) => Ok(vs),
                None => Err(YamlError::ArrayInteger),
            }
        }
    }
}

/// The numbers of an array written as `[a, b, c]`.
pub fn from_array_string(s: &[char]) -> (r: Result<Vec<u32>, YamlError>)
    ensures
        match r {
            Ok(v) => array_spec(s@) == Ok::<Seq<u32>, YamlError>(v@),
            Err(e) => array_spec(s@) == Err::<Seq<u32>, YamlError>(e),
        },
{
    let n = s.len();
    if !(n >= 2 && s[0] == '[' && s[n - 1] == ']') {
        return Err(YamlError::ArrayBrackets);
    }
    let inner = slice_chars(s, 1, n - 1);
    let t = trimmed(inner.as_slice());
    if t.len() == 0 {
        let e: Vec<u32> = Vec::new();
        assert(array_spec(s@) == Ok::<Seq<u32>, YamlError>(e@));
        return Ok(e);
    }
    let pieces = split_on(t.as_slice(), ',');
    let ghost ps = lines_of(pieces@);
    assert(array_spec(s@) == (match numbers(ps) {
        Some(vs) => Ok(vs),
        None => Err(YamlError::ArrayInteger),
    }));
    let mut out: Vec<u32> = Vec::new();
    let mut i: usize = 0;
    while i < pieces.len()
        invariant
            i <= pieces@.len(),
            ps == lines_of(pieces@),
            numbers(ps.take(i as int)) == Some(out@),
            array_spec(s@) == (match numbers(ps) {
                Some(vs) => Ok(vs),
                None => Err(YamlError::ArrayInteger),
            }),
        decreases pieces@.len() - i,
    {
        assert(ps.take(i + 1).drop_last() =~= ps.take(i as int));
        let p = trimmed(pieces[i].as_slice());
        match parse_u64(p.as_slice(), 0xFFFF_FFFF) {
            Some(x) => {
                assert(ps.take(i + 1).last() == ps[i as int]);
                out.push(x as u32);
                assert(numbers(ps.take(i + 1)) == Some(out@));
            },
            None => {
                proof {
                    assert(ps.take(i + 1).last() == ps[i as int]);
                    assert(numbers(ps.take(i + 1)) is None);
                    lemma_numbers_none(ps, i + 1);
                }
                return Err(YamlError::ArrayInteger);
            },
        }
        i = i + 1;
    }
    assert(ps.take(ps.len() as int) =~= ps);
    assert(numbers(split_char(t@, ',')) == Some(out@));
    assert(array_spec(s@) == Ok::<Seq<u32>, YamlError>(out@));
    Ok(out)
}

/// Where the first `", "` of `s` from `i` begins.
pub open spec fn sep_from(s: Seq<char>, i: int) -> Option<int>
    decreases s.len() - i,
{
    if i < 0 || i + 2 > s.len() {
        None
    } else if s[i] == ',' && s[i + 1] == ' ' {
        Some(i)
    } else {
        sep_from(s, i + 1)
    }
}

/// `s` split at its first `", "`, as std's `split_once` splits it.
pub open spec fn split_sep(s: Seq<char>) -> Option<(Seq<char>, Seq<char>)> {
    match sep_from(s, 0) {
        Some(k) => Some((s.subrange(0, k), s.subrange(k + 2, s.len() as int))),
        None => None,
    }
}

fn split_once_sep(s: &[char]) -> (r: Option<(Vec<char>, Vec<char>)>)
    ensures
        match r {
            Some((a, b)) => split_sep(s@) == Some((a@, b@)),
            None => split_sep(s@) is None,
        },
{
    let mut i: usize = 0;
    while s.len() >= 2 && i <= s.len() - 2
        invariant
            i <= s@.len(),
            sep_from(s@, 0) == sep_from(s@, i as int),
        decreases s@.len() - i,
    {
        if s[i] == ',' && s[i + 1] == ' ' {
            return Some((slice_chars(s, 0, i), slice_chars(s, i + 2, s.len())));
        }
        i = i + 1;
    }
    None
}


/// A line that begins with two ASCII characters, so that dropping them drops
/// two bytes.
pub open spec fn indented(l: Seq<char>) -> bool {
    l.len() >= 2 && (l[0] as u32) < 128 && (l[1] as u32) < 128
}

/// A line without its first `indent` characters.
pub open spec fn dedent(l: Seq<char>, indent: nat) -> Seq<char> {
    l.subrange(indent as int, l.len() as int)
}

fn dedent_line(l: &[char], indent: usize) -> (r: Vec<char>)
    requires
        indent <= l@.len(),
    ensures
        r@ == dedent(l@, indent as nat),
{
    slice_chars(l, indent, l.len())
}

fn array7(v: &Vec<u32>) -> (r: [u32; 7])
    requires
        v@.len() == 7,
    ensures
        r@ == v@,
{
    let r = [v[0], v[1], v[2], v[3], v[4], v[5], v[6]];
    assert(r@ =~= v@);
    r
}

fn array6(v: &Vec<u32>) -> (r: [u32; 6])
    requires
        v@.len() == 6,
    ensures
        r@ == v@,
{
    let r = [v[0], v[1], v[2], v[3], v[4], v[5]];
    assert(r@ =~= v@);
    r
}

fn array4(v: &Vec<u32>) -> (r: [u32; 4])
    requires
        v@.len() == 4,
    ensures
        r@ == v@,
{
    let r = [v[0], v[1], v[2], v[3]];
    assert(r@ =~= v@);
    r
}

/// An item of a section, read back from its YAML lines.
pub trait YamlParse: Sized + View {
    spec fn from_yaml_spec(lines: Seq<Seq<char>>, indent: nat) -> Result<Self::V, YamlError>;

    fn from_yaml_lines(lines: &[Vec<char>], indent: usize) -> (r: Result<Self, YamlError>)
        requires
            lines@.len() >= 1,
            indent <= 2,
            forall|i: int| 0 <= i < lines@.len() ==> indented(#[trigger] lines@[i]@),
        ensures
            parsed_as(r, Self::from_yaml_spec(lines_of(lines@), indent as nat)),
    ;
}

/// The numbers after `label` on a line, if there are `n` of them.
pub open spec fn labelled_array(l: Seq<char>, label: Seq<char>, n: nat, no_label: YamlError, bad_len: YamlError) -> Result<Seq<u32>, YamlError> {
    match after(l, label) {
        None => Err(no_label),
        Some(a) => match array_spec(a) {
            Err(e) => Err(e),
            Ok(v) => if v.len() == n {
                Ok(v)
            } else {
                Err(bad_len)
            },
        },
    }
}

fn read_labelled_array(l: &[char], label: &str, n: usize, no_label: YamlError, bad_len: YamlError) -> (r: Result<Vec<u32>, YamlError>)
    ensures
        match r {
            Ok(v) => labelled_array(l@, label@, n as nat, no_label, bad_len) == Ok::<Seq<u32>, YamlError>(v@),
            Err(e) => labelled_array(l@, label@, n as nat, no_label, bad_len) == Err::<Seq<u32>, YamlError>(e),
        },
{
    let a = match strip(l, label) {
        Some(a) => a,
        None => return Err(no_label),
    };
    let v = match from_array_string(a.as_slice()) {
        Ok(v) => v,
        Err(e) => return Err(e),
    };
    if v.len() != n {
        return Err(bad_len);
    }
    Ok(v)
}

impl YamlParse for Type2Data {
    open spec fn from_yaml_spec(lines: Seq<Seq<char>>, indent: nat) -> Result<Seq<u32>, YamlError> {
        if lines.len() != 1 {
            Err(YamlError::Type2Lines)
        } else {
            labelled_array(dedent(lines[0], indent), "data: "@, 7, YamlError::Type2Label, YamlError::Type2Length)
        }
    }

    fn from_yaml_lines(lines: &[Vec<char>], indent: usize) -> (r: Result<Type2Data, YamlError>) {
        if lines.len() != 1 {
            return Err(YamlError::Type2Lines);
        }
        assert(indented(lines@[0]@));
        assert(lines_of(lines@)[0] == lines@[0]@);
        let l = dedent_line(lines[0].as_slice(), indent);
        let v = match read_labelled_array(l.as_slice(), "data: ", 7, YamlError::Type2Label, YamlError::Type2Length) {
            Ok(v) => v,
            Err(e) => return Err(e),
        };
        Ok(Type2Data { data: array7(&v) })
    }
}

/// A child of a type 3 item: `- [a, b, c, d]`.
pub open spec fn child_spec(l: Seq<char>, indent: nat) -> Result<Seq<u32>, YamlError> {
    labelled_array(dedent(l, indent), "- "@, 4, YamlError::Type3ChildDash, YamlError::Type3ChildLength)
}

pub open spec fn child_fn(indent: nat) -> spec_fn(Seq<char>) -> Result<Seq<u32>, YamlError> {
    |l: Seq<char>| child_spec(l, indent)
}

impl YamlParse for Type3Data {
    open spec fn from_yaml_spec(lines: Seq<Seq<char>>, indent: nat) -> Result<(Seq<u32>, Seq<Seq<u32>>), YamlError> {
        if lines.len() < 2 {
            Err(YamlError::Type3Lines)
        } else {
            match labelled_array(dedent(lines[0], indent), "data: "@, 7, YamlError::Type3Label, YamlError::Type3Length) {
                Err(e) => Err(e),
                Ok(v) => if dedent(lines[1], 2) != "children:"@ {
                    Err(YamlError::Type3ChildrenLabel)
                } else {
                    match fold_ok(lines.subrange(2, lines.len() as int), child_fn(indent)) {
                        Ok(cs) => Ok((v, cs)),
                        Err(e) => Err(e),
                    }
                },
            }
        }
    }

    fn from_yaml_lines(lines: &[Vec<char>], indent: usize) -> (r: Result<Type3Data, YamlError>) {
        let ghost ls = lines_of(lines@);
        if lines.len() < 2 {
            return Err(YamlError::Type3Lines);
        }
        assert(indented(lines@[0]@));
        assert(indented(lines@[1]@));
        assert(ls[0] == lines@[0]@);
        assert(ls[1] == lines@[1]@);
        let l = dedent_line(lines[0].as_slice(), indent);
        let v = match read_labelled_array(l.as_slice(), "data: ", 7, YamlError::Type3Label, YamlError::Type3Length) {
            Ok(v) => v,
            Err(e) => return Err(e),
        };
        let l1 = dedent_line(lines[1].as_slice(), 2);
        let label = chars_of("children:");
        if !chars_eq(l1.as_slice(), label.as_slice()) {
            return Err(YamlError::Type3ChildrenLabel);
        }
        let ghost xs = ls.subrange(2, ls.len() as int);
        let mut children: Vec<[u32; 4]> = Vec::new();
        assert(xs.take(0) =~= Seq::<Seq<char>>::empty());
        assert(children@.map_values(|c: [u32; 4]| c@) =~= Seq::<Seq<u32>>::empty());
        let ghost whole = match fold_ok(xs, child_fn(indent as nat)) {
            Ok(cs) => Ok((v@, cs)),
            Err(e) => Err(e),
        };
        assert(Type3Data::from_yaml_spec(ls, indent as nat) == whole);
        let mut k: usize = 2;
        while k < lines.len()
            invariant
                2 <= k <= lines@.len(),
                indent <= 2,
                ls == lines_of(lines@),
                xs == ls.subrange(2, ls.len() as int),
                forall|i: int| 0 <= i < lines@.len() ==> indented(#[trigger] lines@[i]@),
                Type3Data::from_yaml_spec(ls, indent as nat) == whole,
                whole == match fold_ok(xs, child_fn(indent as nat)) {
                    Ok(cs) => Ok((v@, cs)),
                    Err(e) => Err(e),
                },
                fold_ok(xs.take(k - 2), child_fn(indent as nat)) == Ok::<Seq<Seq<u32>>, YamlError>(
                    children@.map_values(|c: [u32; 4]| c@),
                ),
            decreases lines@.len() - k,
        {
            assert(indented(lines@[k as int]@));
            assert(xs.take(k - 1).drop_last() =~= xs.take(k - 2));
            assert(xs.take(k - 1).last() == ls[k as int]);
            assert(ls[k as int] == lines@[k as int]@);
            let lk = dedent_line(lines[k].as_slice(), indent);
            match read_labelled_array(lk.as_slice(), "- ", 4, YamlError::Type3ChildDash, YamlError::Type3ChildLength) {
                Ok(c) => {
                    let ghost before = children@.map_values(|c: [u32; 4]| c@);
                    children.push(array4(&c));
                    assert(children@.map_values(|c: [u32; 4]| c@) =~= before.push(c@));
                },
                Err(e) => {
                    proof {
                        lemma_fold_err(xs, child_fn(indent as nat), k - 1, e);
                    }
                    return Err(e);
                },
            }
            k = k + 1;
        }
        assert(xs.take(xs.len() as int) =~= xs);
        Ok(Type3Data { data: array7(&v), children })
    }
}

/// A line of a type 5 item: `- [a, b, c, d, e, f]`, the first three numbers
/// cut to the widths of their fields.
pub open spec fn line5_spec(l: Seq<char>, indent: nat) -> Result<(u8, u8, u16, u32, u32, u32), YamlError> {
    match labelled_array(dedent(l, indent), "- "@, 6, YamlError::Type5Dash, YamlError::Type5LineLength) {
        Err(e) => Err(e),
        Ok(v) => Ok((v[0] as u8, v[1] as u8, v[2] as u16, v[3], v[4], v[5])),
    }
}

pub open spec fn line5_fn(indent: nat) -> spec_fn(Seq<char>) -> Result<(u8, u8, u16, u32, u32, u32), YamlError> {
    |l: Seq<char>| line5_spec(l, indent)
}

impl YamlParse for Type5Data {
    open spec fn from_yaml_spec(lines: Seq<Seq<char>>, indent: nat) -> Result<(Option<u32>, Seq<(u8, u8, u16, u32, u32, u32)>), YamlError> {
        if lines.len() == 1 {
            match parse_unsigned(dedent(lines[0], indent), u32::MAX as nat) {
                Some(x) => Ok((Some(x as u32), Seq::empty())),
                None => Err(YamlError::Type5SmallData),
            }
        } else if dedent(lines[0], indent) != "lines:"@ {
            Err(YamlError::Type5Label)
        } else {
            match fold_ok(lines.drop_first(), line5_fn(indent)) {
                Ok(ls) => Ok((None::<u32>, ls)),
                Err(e) => Err(e),
            }
        }
    }

    fn from_yaml_lines(lines: &[Vec<char>], indent: usize) -> (r: Result<Type5Data, YamlError>) {
        let ghost ls = lines_of(lines@);
        assert(indented(lines@[0]@));
        assert(ls[0] == lines@[0]@);
        let l = dedent_line(lines[0].as_slice(), indent);
        if lines.len() == 1 {
            return match parse_u64(l.as_slice(), 0xFFFF_FFFF) {
                Some(x) => Ok(Type5Data { small_data: Some(x as u32), lines: Vec::new() }),
                None => Err(YamlError::Type5SmallData),
            };
        }
        let label = chars_of("lines:");
        if !chars_eq(l.as_slice(), label.as_slice()) {
            return Err(YamlError::Type5Label);
        }
        let ghost xs = ls.drop_first();
        let mut out: Vec<(u8, u8, u16, u32, u32, u32)> = Vec::new();
        assert(xs.take(0) =~= Seq::<Seq<char>>::empty());
        assert(Type5Data::from_yaml_spec(ls, indent as nat) == match fold_ok(xs, line5_fn(indent as nat)) {
            Ok(ls) => Ok((None::<u32>, ls)),
            Err(e) => Err(e),
        });
        let mut k: usize = 1;
        while k < lines.len()
            invariant
                1 <= k <= lines@.len(),
                indent <= 2,
                ls == lines_of(lines@),
                xs == ls.drop_first(),
                forall|i: int| 0 <= i < lines@.len() ==> indented(#[trigger] lines@[i]@),
                Type5Data::from_yaml_spec(ls, indent as nat) == match fold_ok(xs, line5_fn(indent as nat)) {
                    Ok(ls) => Ok((None::<u32>, ls)),
                    Err(e) => Err(e),
                },
                fold_ok(xs.take(k - 1), line5_fn(indent as nat)) == Ok::<Seq<(u8, u8, u16, u32, u32, u32)>, YamlError>(out@),
            decreases lines@.len() - k,
        {
            assert(indented(lines@[k as int]@));
            assert(xs.take(k as int).drop_last() =~= xs.take(k - 1));
            assert(xs.take(k as int).last() == ls[k as int]);
            assert(ls[k as int] == lines@[k as int]@);
            let lk = dedent_line(lines[k].as_slice(), indent);
            match read_labelled_array(lk.as_slice(), "- ", 6, YamlError::Type5Dash, YamlError::Type5LineLength) {
                Ok(c) => {
                    assert(c@.len() == 6);
                    out.push((c[0] as u8, c[1] as u8, c[2] as u16, c[3], c[4], c[5]));
                },
                Err(e) => {
                    proof {
                        lemma_fold_err(xs, line5_fn(indent as nat), k as int, e);
                    }
                    return Err(e);
                },
            }
            k = k + 1;
        }
        assert(xs.take(xs.len() as int) =~= xs);
        Ok(Type5Data { small_data: None, lines: out })
    }
}


/// The value of a `label: value, ` field at the start of `c`, and what
/// follows it.
pub open spec fn field_spec(c: Seq<char>, label: Seq<char>, no_label: YamlError) -> Result<(Seq<char>, Seq<char>), YamlError> {
    match after(c, label) {
        None => Err(no_label),
        Some(r) => match split_sep(r) {
            None => Err(YamlError::CommandFields),
            Some(p) => Ok(p),
        },
    }
}

fn read_field(c: &[char], label: &str, no_label: YamlError) -> (r: Result<(Vec<char>, Vec<char>), YamlError>)
    ensures
        match r {
            Ok((a, b)) => field_spec(c@, label@, no_label) == Ok::<(Seq<char>, Seq<char>), YamlError>((a@, b@)),
            Err(e) => field_spec(c@, label@, no_label) == Err::<(Seq<char>, Seq<char>), YamlError>(e),
        },
{
    let r = match strip(c, label) {
        Some(r) => r,
        None => return Err(no_label),
    };
    match split_once_sep(r.as_slice()) {
        Some(p) => Ok(p),
        None => Err(YamlError::CommandFields),
    }
}

/// A command written as `{code1: a, code2: b, arg_count: c, place: d, args: [..]}`.
pub open spec fn command_spec(line: Seq<char>) -> Result<(u8, u8, u16, u32, Seq<u32>), YamlError> {
    if !(line.len() >= 2 && line[0] == '{' && line.last() == '}') {
        Err(YamlError::CommandBraces)
    } else {
        let c0 = line.subrange(1, line.len() - 1);
        match field_spec(c0, "code1: "@, YamlError::Code1Label) {
            Err(e) => Err(e),
            Ok((v1, c1)) => match parse_unsigned(v1, 255) {
                None => Err(YamlError::Code1Value),
                Some(code1) => match field_spec(c1, "code2: "@, YamlError::Code2Label) {
                    Err(e) => Err(e),
                    Ok((v2, c2)) => match parse_unsigned(v2, 255) {
                        None => Err(YamlError::Code2Value),
                        Some(code2) => match field_spec(c2, "arg_count: "@, YamlError::ArgCountLabel) {
                            Err(e) => Err(e),
                            Ok((v3, c3)) => match parse_unsigned(v3, 0xFFFF) {
                                None => Err(YamlError::ArgCountValue),
                                Some(ac) => match field_spec(c3, "place: "@, YamlError::PlaceLabel) {
                                    Err(e) => Err(e),
                                    Ok((v4, c4)) => match parse_unsigned(v4, u32::MAX as nat) {
                                        None => Err(YamlError::PlaceValue),
                                        Some(place) => match after(c4, "args: "@) {
                                            None => Err(YamlError::ArgsLabel),
                                            Some(a) => match array_spec(a) {
                                                Err(e) => Err(e),
                                                Ok(args) => if args.len() != ac {
                                                    Err(YamlError::ArgsLength)
                                                } else {
                                                    Ok((code1 as u8, code2 as u8, ac as u16, place as u32, args))
                                                },
                                            },
                                        },
                                    },
                                },
                            },
                        },
                    },
                },
            },
        }
    }
}

impl Command {
    /// Reads a command back from its YAML line.
    pub fn from_yaml_line(line: &[char]) -> (r: Result<Command, YamlError>)
        ensures
            parsed_as(r, command_spec(line@)),
    {
        let n = line.len();
        if !(n >= 2 && line[0] == '{' && line[n - 1] == '}') {
            return Err(YamlError::CommandBraces);
        }
        let c0 = slice_chars(line, 1, n - 1);
        let (v1, c1) = match read_field(c0.as_slice(), "code1: ", YamlError::Code1Label) {
            Ok(p) => p,
            Err(e) => return Err(e),
        };
        let code1 = match parse_u64(v1.as_slice(), 255) {
            Some(x) => x as u8,
            None => return Err(YamlError::Code1Value),
        };
        let (v2, c2) = match read_field(c1.as_slice(), "code2: ", YamlError::Code2Label) {
            Ok(p) => p,
            Err(e) => return Err(e),
        };
        let code2 = match parse_u64(v2.as_slice(), 255) {
            Some(x) => x as u8,
            None => return Err(YamlError::Code2Value),
        };
        let (v3, c3) = match read_field(c2.as_slice(), "arg_count: ", YamlError::ArgCountLabel) {
            Ok(p) => p,
            Err(e) => return Err(e),
        };
        let arg_count = match parse_u64(v3.as_slice(), 0xFFFF) {
            Some(x) => x as u16,
            None => return Err(YamlError::ArgCountValue),
        };
        let (v4, c4) = match read_field(c3.as_slice(), "place: ", YamlError::PlaceLabel) {
            Ok(p) => p,
            Err(e) => return Err(e),
        };
        let place = match parse_u64(v4.as_slice(), 0xFFFF_FFFF) {
            Some(x) => x as u32,
            None => return Err(YamlError::PlaceValue),
        };
        let a = match strip(c4.as_slice(), "args: ") {
            Some(a) => a,
            None => return Err(YamlError::ArgsLabel),
        };
        let args = match from_array_string(a.as_slice()) {
            Ok(v) => v,
            Err(e) => return Err(e),
        };
        if args.len() != arg_count as usize {
            return Err(YamlError::ArgsLength);
        }
        Ok(Command { code1, code2, arg_count, place, args })
    }
}

/// An item of a type 6 list: `- ` and a command.
pub open spec fn command_item_spec(l: Seq<char>, indent: nat) -> Result<(u8, u8, u16, u32, Seq<u32>), YamlError> {
    match after(dedent(l, indent), "- "@) {
        None => Err(YamlError::Type6Dash),
        Some(c) => command_spec(c),
    }
}

pub open spec fn command_item_fn(indent: nat) -> spec_fn(Seq<char>) -> Result<(u8, u8, u16, u32, Seq<u32>), YamlError> {
    |l: Seq<char>| command_item_spec(l, indent)
}

impl YamlParse for Type6Data {
    open spec fn from_yaml_spec(lines: Seq<Seq<char>>, indent: nat) -> Result<Seq<(u8, u8, u16, u32, Seq<u32>)>, YamlError> {
        if dedent(lines[0], indent) != "commands:"@ {
            Err(YamlError::Type6Label)
        } else {
            fold_ok(lines.drop_first(), command_item_fn(indent))
        }
    }

    fn from_yaml_lines(lines: &[Vec<char>], indent: usize) -> (r: Result<Type6Data, YamlError>) {
        let ghost ls = lines_of(lines@);
        assert(indented(lines@[0]@));
        assert(ls[0] == lines@[0]@);
        let l = dedent_line(lines[0].as_slice(), indent);
        let label = chars_of("commands:");
        if !chars_eq(l.as_slice(), label.as_slice()) {
            return Err(YamlError::Type6Label);
        }
        let ghost xs = ls.drop_first();
        let mut out: Vec<Command> = Vec::new();
        assert(xs.take(0) =~= Seq::<Seq<char>>::empty());
        assert(out@.map_values(|c: Command| c@) =~= Seq::<(u8, u8, u16, u32, Seq<u32>)>::empty());
        let mut k: usize = 1;
        while k < lines.len()
            invariant
                1 <= k <= lines@.len(),
                indent <= 2,
                ls == lines_of(lines@),
                xs == ls.drop_first(),
                forall|i: int| 0 <= i < lines@.len() ==> indented(#[trigger] lines@[i]@),
                Type6Data::from_yaml_spec(ls, indent as nat) == fold_ok(xs, command_item_fn(indent as nat)),
                fold_ok(xs.take(k - 1), command_item_fn(indent as nat)) == Ok::<Seq<(u8, u8, u16, u32, Seq<u32>)>, YamlError>(
                    out@.map_values(|c: Command| c@),
                ),
            decreases lines@.len() - k,
        {
            assert(indented(lines@[k as int]@));
            assert(xs.take(k as int).drop_last() =~= xs.take(k - 1));
            assert(xs.take(k as int).last() == ls[k as int]);
            assert(ls[k as int] == lines@[k as int]@);
            let lk = dedent_line(lines[k].as_slice(), indent);
            let c = match strip(lk.as_slice(), "- ") {
                Some(c) => c,
                None => {
                    proof {
                        lemma_fold_err(xs, command_item_fn(indent as nat), k as int, YamlError::Type6Dash);
                    }
                    return Err(YamlError::Type6Dash);
                },
            };
            match Command::from_yaml_line(c.as_slice()) {
                Ok(cmd) => {
                    let ghost before = out@.map_values(|c: Command| c@);
                    out.push(cmd);
                    assert(out@.map_values(|c: Command| c@) =~= before.push(cmd@));
                },
                Err(e) => {
                    proof {
                        lemma_fold_err(xs, command_item_fn(indent as nat), k as int, e);
                    }
                    return Err(e);
                },
            }
            k = k + 1;
        }
        assert(xs.take(xs.len() as int) =~= xs);
        Ok(Type6Data { commands: out })
    }
}

/// Lines joined by newlines.
pub open spec fn join_newlines(ls: Seq<Seq<char>>) -> Seq<char>
    decreases ls.len(),
{
    if ls.len() == 0 {
        Seq::empty()
    } else if ls.len() == 1 {
        ls[0]
    } else {
        join_newlines(ls.drop_last()) + seq!['\n'] + ls.last()
    }
}

/// `ls` without its trailing empty lines.
pub open spec fn drop_empty_tail(ls: Seq<Seq<char>>) -> Seq<Seq<char>>
    decreases ls.len(),
{
    if ls.len() > 0 && ls.last().len() == 0 {
        drop_empty_tail(ls.drop_last())
    } else {
        ls
    }
}

impl YamlParse for Type7Data {
    /// One line is the text itself (`|` for the empty text); more lines are a
    /// block, `|-` without the trailing empty lines and `|+` with a final
    /// newline added.
    open spec fn from_yaml_spec(lines: Seq<Seq<char>>, indent: nat) -> Result<Seq<char>, YamlError> {
        let first = dedent(lines[0], indent);
        let body = lines.drop_first().map_values(|l: Seq<char>| dedent(l, indent));
        if lines.len() == 1 {
            Ok(if first == "|"@ { Seq::empty() } else { first })
        } else if first == "|-"@ {
            Ok(join_newlines(drop_empty_tail(body)))
        } else if first == "|+"@ {
            Ok(join_newlines(body.push(Seq::empty())))
        } else {
            Err(YamlError::Type7Block)
        }
    }

    fn from_yaml_lines(lines: &[Vec<char>], indent: usize) -> (r: Result<Type7Data, YamlError>) {
        let ghost ls = lines_of(lines@);
        assert(indented(lines@[0]@));
        assert(ls[0] == lines@[0]@);
        let first = dedent_line(lines[0].as_slice(), indent);
        if lines.len() == 1 {
            let bar = chars_of("|");
            if chars_eq(first.as_slice(), bar.as_slice()) {
                let e: Vec<char> = Vec::new();
                assert(e@ =~= Seq::<char>::empty());
                return Ok(Type7Data { text: string_of(e.as_slice()) });
            } else {
                return Ok(Type7Data { text: string_of(first.as_slice()) });
            }
        }
        let minus = chars_of("|-");
        let plus = chars_of("|+");
        let keep = if chars_eq(first.as_slice(), minus.as_slice()) {
            false
        } else if chars_eq(first.as_slice(), plus.as_slice()) {
            true
        } else {
            return Err(YamlError::Type7Block);
        };
        let ghost body = ls.drop_first().map_values(|l: Seq<char>| dedent(l, indent as nat));
        let mut parts: Vec<Vec<char>> = Vec::new();
        let mut k: usize = 1;
        while k < lines.len()
            invariant
                1 <= k <= lines@.len(),
                indent <= 2,
                ls == lines_of(lines@),
                body == ls.drop_first().map_values(|l: Seq<char>| dedent(l, indent as nat)),
                forall|i: int| 0 <= i < lines@.len() ==> indented(#[trigger] lines@[i]@),
                lines_of(parts@) == body.take(k - 1),
            decreases lines@.len() - k,
        {
            assert(indented(lines@[k as int]@));
            assert(ls[k as int] == lines@[k as int]@);
            let ghost before = lines_of(parts@);
            let d = dedent_line(lines[k].as_slice(), indent);
            assert(body[k - 1] == dedent(ls[k as int], indent as nat));
            assert(body.take(k as int) =~= body.take(k - 1).push(body[k - 1]));
            parts.push(d);
            assert(lines_of(parts@) =~= before.push(d@));
            assert(lines_of(parts@) =~= body.take(k as int));
            k = k + 1;
        }
        assert(body.take(body.len() as int) =~= body);
        if keep {
            let ghost before = lines_of(parts@);
            parts.push(Vec::new());
            assert(lines_of(parts@) =~= before.push(Seq::empty()));
        } else {
            while parts.len() > 0 && parts[parts.len() - 1].len() == 0
                invariant
                    drop_empty_tail(body) == drop_empty_tail(lines_of(parts@)),
                decreases parts@.len(),
            {
                let ghost before = lines_of(parts@);
                parts.pop();
                assert(lines_of(parts@) =~= before.drop_last());
            }
        }
        let ghost want = lines_of(parts@);
        assert(keep ==> want == body.push(Seq::empty()));
        assert(!keep ==> want == drop_empty_tail(body));
        let mut text: Vec<char> = Vec::new();
        let mut j: usize = 0;
        while j < parts.len()
            invariant
                j <= parts@.len(),
                want == lines_of(parts@),
                text@ == join_newlines(want.take(j as int)),
            decreases parts@.len() - j,
        {
            assert(want.take(j + 1).drop_last() =~= want.take(j as int));
            if j > 0 {
                text.push('\n');
            }
            let mut m: usize = 0;
            let ghost base = text@;
            while m < parts[j].len()
                invariant
                    j < parts@.len(),
                    m <= parts@[j as int]@.len(),
                    text@ == base + parts@[j as int]@.subrange(0, m as int),
                decreases parts@[j as int]@.len() - m,
            {
                text.push(parts[j][m]);
                m = m + 1;
                assert(text@ =~= base + parts@[j as int]@.subrange(0, m as int));
            }
            assert(parts@[j as int]@.subrange(0, m as int) =~= parts@[j as int]@);
            assert(want.take(j + 1).last() == parts@[j as int]@);
            assert(text@ =~= join_newlines(want.take(j + 1)));
            j = j + 1;
        }
        assert(want.take(want.len() as int) =~= want);
        Ok(Type7Data { text: string_of(text.as_slice()) })
    }
}


/// A line that goes on the run before it at the top level: an item of a list
/// or an indented line.
pub open spec fn top_cont(l: Seq<char>) -> bool {
    has_prefix(l, "- "@) || has_prefix(l, "  "@)
}

/// Whether `l` goes on the run before it: at the top level (`top`), or within a
/// list, where each `- ` begins an item.
pub open spec fn continues(top: bool, l: Seq<char>) -> bool {
    if top {
        top_cont(l)
    } else {
        !has_prefix(l, "- "@)
    }
}

/// `ls` cut into runs, as std's `chunk_by` cuts it: each line that does not
/// go on the run before it begins a new one.
pub open spec fn runs(ls: Seq<Seq<char>>, top: bool) -> Seq<Seq<Seq<char>>>
    decreases ls.len(),
{
    if ls.len() == 0 {
        Seq::empty()
    } else {
        let prev = runs(ls.drop_last(), top);
        if prev.len() > 0 && continues(top, ls.last()) {
            prev.update(prev.len() - 1, prev.last().push(ls.last()))
        } else {
            prev.push(seq![ls.last()])
        }
    }
}

/// The lines of `ls` between the bounds of each run.
pub open spec fn bounded(ls: Seq<Seq<char>>, b: Seq<(usize, usize)>) -> Seq<Seq<Seq<char>>> {
    b.map_values(|p: (usize, usize)| ls.subrange(p.0 as int, p.1 as int))
}

proof fn lemma_top_cont_indented(l: Seq<char>)
    requires
        top_cont(l),
    ensures
        indented(l),
{
    reveal_strlit("- ");
    reveal_strlit("  ");
    assert(l.subrange(0, 2)[0] == l[0]);
    assert(l.subrange(0, 2)[1] == l[1]);
}

fn has_literal_prefix(l: &[char], p: &str) -> (r: bool)
    ensures
        r == has_prefix(l@, p@),
{
    let pc = chars_of(p);
    starts_with(l, pc.as_slice())
}

/// The bounds of the runs of `ls`.
fn run_bounds(ls: &[Vec<char>], top: bool) -> (r: Vec<(usize, usize)>)
    ensures
        bounded(lines_of(ls@), r@) == runs(lines_of(ls@), top),
        forall|k: int| 0 <= k < r@.len() ==> (#[trigger] r@[k]).0 < r@[k].1 <= ls@.len(),
        forall|k: int, j: int|
            #![trigger r@[k], ls@[j]]
            0 <= k < r@.len() && r@[k].0 < j < r@[k].1 ==> continues(top, ls@[j]@),
{
    let ghost lv = lines_of(ls@);
    let mut r: Vec<(usize, usize)> = Vec::new();
    let mut i: usize = 0;
    assert(lv.take(0) =~= Seq::<Seq<char>>::empty());
    assert(bounded(lv, r@) =~= Seq::<Seq<Seq<char>>>::empty());
    while i < ls.len()
        invariant
            i <= ls@.len(),
            lv == lines_of(ls@),
            bounded(lv, r@) == runs(lv.take(i as int), top),
            (r@.len() > 0) == (i > 0),
            r@.len() > 0 ==> r@.last().1 == i,
            forall|k: int| 0 <= k < r@.len() ==> (#[trigger] r@[k]).0 < r@[k].1 <= i,
            forall|k: int, j: int|
                #![trigger r@[k], ls@[j]]
                0 <= k < r@.len() && r@[k].0 < j < r@[k].1 ==> continues(top, ls@[j]@),
        decreases ls@.len() - i,
    {
        let cont = if top {
            has_literal_prefix(ls[i].as_slice(), "- ") || has_literal_prefix(ls[i].as_slice(), "  ")
        } else {
            !has_literal_prefix(ls[i].as_slice(), "- ")
        };
        let ghost prev = runs(lv.take(i as int), top);
        assert(lv.take(i + 1).drop_last() =~= lv.take(i as int));
        assert(lv.take(i + 1).last() == ls@[i as int]@);
        assert(cont == continues(top, ls@[i as int]@));
        if r.len() > 0 && cont {
            let last = r.len() - 1;
            let (s, e) = r[last];
            let ghost old_r = r@;
            r.set(last, (s, i + 1));
            proof {
                assert(lv.subrange(s as int, i + 1) =~= lv.subrange(s as int, i as int).push(lv[i as int]));
                assert(bounded(lv, r@) =~= prev.update(prev.len() - 1, prev.last().push(lv[i as int])));
                assert forall|k: int, j: int|
                    #![trigger r@[k], ls@[j]]
                    0 <= k < r@.len() && r@[k].0 < j < r@[k].1 implies continues(top, ls@[j]@) by {
                    if k == last && j == i {
                    } else if k == last {
                        assert(old_r[k].0 < j < old_r[k].1);
                    } else {
                        assert(old_r[k] == r@[k]);
                    }
                }
            }
        } else {
            let ghost old_r = r@;
            r.push((i, i + 1));
            proof {
                assert(lv.subrange(i as int, i + 1) =~= seq![lv[i as int]]);
                assert(bounded(lv, r@) =~= prev.push(seq![lv[i as int]]));
                assert forall|k: int, j: int|
                    #![trigger r@[k], ls@[j]]
                    0 <= k < r@.len() && r@[k].0 < j < r@[k].1 implies continues(top, ls@[j]@) by {
                    if k < old_r.len() {
                        assert(old_r[k] == r@[k]);
                    }
                }
            }
        }
        i = i + 1;
    }
    assert(lv.take(lv.len() as int) =~= lv);
    r
}

/// The items of a list under a section header: its lines cut where each
/// `- ` begins, each run read as an item with an indent of two.
#[verifier::opaque]
pub open spec fn deyaml_spec<T: YamlParse>(ls: Seq<Seq<char>>) -> Result<Seq<T::V>, YamlError> {
    fold_ok(runs(ls, false), item_fn::<T>())
}

pub open spec fn item_fn<T: YamlParse>() -> spec_fn(Seq<Seq<char>>) -> Result<T::V, YamlError> {
    |c: Seq<Seq<char>>| T::from_yaml_spec(c, 2)
}

/// Reads the items of a list under a section header.
pub fn deyamlify_chunk<T: YamlParse>(ls: &[Vec<char>]) -> (r: Result<Vec<T>, YamlError>)
    requires
        forall|i: int| 0 <= i < ls@.len() ==> top_cont(#[trigger] ls@[i]@),
    ensures
        match r {
            Ok(v) => deyaml_spec::<T>(lines_of(ls@)) == Ok::<Seq<T::V>, YamlError>(v@.map_values(|t: T| t@)),
            Err(e) => deyaml_spec::<T>(lines_of(ls@)) == Err::<Seq<T::V>, YamlError>(e),
        },
{
    reveal(deyaml_spec);
    let ghost lv = lines_of(ls@);
    let bounds = run_bounds(ls, false);
    let ghost cs = runs(lv, false);
    let mut out: Vec<T> = Vec::new();
    let mut k: usize = 0;
    assert(cs.take(0) =~= Seq::<Seq<Seq<char>>>::empty());
    assert(out@.map_values(|t: T| t@) =~= Seq::<T::V>::empty());
    while k < bounds.len()
        invariant
            k <= bounds@.len(),
            lv == lines_of(ls@),
            cs == runs(lv, false),
            bounded(lv, bounds@) == cs,
            forall|i: int| 0 <= i < ls@.len() ==> top_cont(#[trigger] ls@[i]@),
            forall|j: int| 0 <= j < bounds@.len() ==> (#[trigger] bounds@[j]).0 < bounds@[j].1 <= ls@.len(),
            fold_ok(cs.take(k as int), item_fn::<T>()) == Ok::<Seq<T::V>, YamlError>(out@.map_values(|t: T| t@)),
        decreases bounds@.len() - k,
    {
        let (s, e) = bounds[k];
        let chunk = vstd::slice::slice_subrange(ls, s, e);
        assert(cs.take(k + 1).drop_last() =~= cs.take(k as int));
        assert(cs[k as int] == lv.subrange(s as int, e as int));
        assert(lines_of(chunk@) =~= cs[k as int]);
        assert forall|i: int| 0 <= i < chunk@.len() implies indented(#[trigger] chunk@[i]@) by {
            assert(chunk@[i] == ls@[s + i]);
            lemma_top_cont_indented(ls@[s + i]@);
        }
        match T::from_yaml_lines(chunk, 2) {
            Ok(t) => {
                let ghost before = out@.map_values(|t: T| t@);
                out.push(t);
                assert(out@.map_values(|t: T| t@) =~= before.push(t@));
            },
            Err(err) => {
                proof {
                    reveal(deyaml_spec);
                    lemma_fold_err(cs, item_fn::<T>(), k + 1, err);
                }
                return Err(err);
            },
        }
        k = k + 1;
    }
    assert(cs.take(cs.len() as int) =~= cs);
    Ok(out)
}


/// The sections read so far and the footer.
pub type Fields = (
    Option<Seq<Seq<u32>>>,
    Option<Seq<(Seq<u32>, Seq<Seq<u32>>)>>,
    Option<Seq<(Option<u32>, Seq<(u8, u8, u16, u32, u32, u32)>)>>,
    Option<Seq<Seq<(u8, u8, u16, u32, Seq<u32>)>>>,
    Option<Seq<Seq<char>>>,
    Seq<u32>,
);

/// Six zeros: the footer when the document gives none.
pub open spec fn zero_footer() -> Seq<u32> {
    seq![0u32, 0, 0, 0, 0, 0]
}

/// What a top-level run after the first adds: a section (which replaces an
/// earlier one of its type) or the footer.
#[verifier::opaque]
pub open spec fn section_step(st: Fields, chunk: Seq<Seq<char>>) -> Result<Fields, YamlError> {
    let h = chunk[0];
    let body = chunk.drop_first();
    if h == "type2data:"@ {
        match deyaml_spec::<Type2Data>(body) {
            Ok(v) => Ok((Some(v), st.1, st.2, st.3, st.4, st.5)),
            Err(e) => Err(e),
        }
    } else if h == "type3data:"@ {
        match deyaml_spec::<Type3Data>(body) {
            Ok(v) => Ok((st.0, Some(v), st.2, st.3, st.4, st.5)),
            Err(e) => Err(e),
        }
    } else if h == "type5data:"@ {
        match deyaml_spec::<Type5Data>(body) {
            Ok(v) => Ok((st.0, st.1, Some(v), st.3, st.4, st.5)),
            Err(e) => Err(e),
        }
    } else if h == "type6data:"@ {
        match deyaml_spec::<Type6Data>(body) {
            Ok(v) => Ok((st.0, st.1, st.2, Some(v), st.4, st.5)),
            Err(e) => Err(e),
        }
    } else if h == "type7data:"@ {
        match deyaml_spec::<Type7Data>(body) {
            Ok(v) => Ok((st.0, st.1, st.2, st.3, Some(v), st.5)),
            Err(e) => Err(e),
        }
    } else {
        match after(h, "footer: "@) {
            None => Err(YamlError::UnknownChunk),
            Some(f) => if chunk.len() > 1 {
                Err(YamlError::FooterLines)
            } else {
                match array_spec(f) {
                    Err(e) => Err(e),
                    Ok(v) => if v.len() == 6 {
                        Ok((st.0, st.1, st.2, st.3, st.4, v))
                    } else {
                        Err(YamlError::FooterLength)
                    },
                }
            },
        }
    }
}

/// The runs after the first, read in turn.
pub open spec fn sections_spec(cs: Seq<Seq<Seq<char>>>) -> Result<Fields, YamlError>
    decreases cs.len(),
{
    if cs.len() == 0 {
        Ok((None, None, None, None, None, zero_footer()))
    } else {
        match sections_spec(cs.drop_last()) {
            Ok(st) => section_step(st, cs.last()),
            Err(e) => Err(e),
        }
    }
}

proof fn lemma_sections_err(cs: Seq<Seq<Seq<char>>>, i: int, e: YamlError)
    requires
        0 <= i <= cs.len(),
        sections_spec(cs.take(i)) == Err::<Fields, YamlError>(e),
    ensures
        sections_spec(cs) == Err::<Fields, YamlError>(e),
    decreases cs.len() - i,
{
    if i < cs.len() {
        assert(cs.take(i + 1).drop_last() =~= cs.take(i));
        lemma_sections_err(cs, i + 1, e);
    } else {
        assert(cs.take(i) =~= cs);
    }
}

/// What the lines of a YAML document give: its top-level runs, the first of
/// them one line `datetime: n`, the others sections and the footer.
pub open spec fn bbq_yaml_spec(lines: Seq<Seq<char>>) -> Result<BbqView, YamlError> {
    let cs = runs(lines, true);
    if cs.len() == 0 {
        Err(YamlError::NoData)
    } else if cs[0].len() != 1 {
        Err(YamlError::DatetimeLines)
    } else {
        match after(cs[0][0], "datetime: "@) {
            None => Err(YamlError::DatetimeLabel),
            Some(d) => match parse_unsigned(d, u32::MAX as nat) {
                None => Err(YamlError::DatetimeValue),
                Some(dt) => match sections_spec(cs.drop_first()) {
                    Err(e) => Err(e),
                    Ok(st) => Ok((dt as u32, st.0, st.1, st.2, st.3, st.4, st.5)),
                },
            },
        }
    }
}

/// Reads one top-level run after the first into the sections and footer.
fn read_section(ls: &[Vec<char>], s: usize, e: usize, acc: Sections, footer: [u32; 6]) -> (r: Result<
    (Sections, [u32; 6]),
    YamlError,
>)
    requires
        s < e <= ls@.len(),
        forall|j: int| s < j < e ==> top_cont(#[trigger] ls@[j]@),
    ensures
        match r {
            Ok((a, f)) => section_step(
                (acc@.0, acc@.1, acc@.2, acc@.3, acc@.4, footer@),
                lines_of(ls@).subrange(s as int, e as int),
            ) == Ok::<Fields, YamlError>((a@.0, a@.1, a@.2, a@.3, a@.4, f@)),
            Err(x) => section_step(
                (acc@.0, acc@.1, acc@.2, acc@.3, acc@.4, footer@),
                lines_of(ls@).subrange(s as int, e as int),
            ) == Err::<Fields, YamlError>(x),
        },
{
    reveal(section_step);
    let ghost chunk = lines_of(ls@).subrange(s as int, e as int);
    let body = vstd::slice::slice_subrange(ls, s + 1, e);
    assert(lines_of(body@) =~= chunk.drop_first());
    assert(chunk[0] == ls@[s as int]@);
    assert forall|i: int| 0 <= i < body@.len() implies top_cont(#[trigger] body@[i]@) by {
        assert(body@[i] == ls@[s + 1 + i]);
    }
    let h = ls[s].as_slice();
    let Sections { t2, t3, t5, t6, t7 } = acc;
    if chars_eq(h, chars_of("type2data:").as_slice()) {
        match deyamlify_chunk::<Type2Data>(body) {
            Ok(v) => Ok((Sections { t2: Some(v), t3, t5, t6, t7 }, footer)),
            Err(x) => Err(x),
        }
    } else if chars_eq(h, chars_of("type3data:").as_slice()) {
        match deyamlify_chunk::<Type3Data>(body) {
            Ok(v) => Ok((Sections { t2, t3: Some(v), t5, t6, t7 }, footer)),
            Err(x) => Err(x),
        }
    } else if chars_eq(h, chars_of("type5data:").as_slice()) {
        match deyamlify_chunk::<Type5Data>(body) {
            Ok(v) => Ok((Sections { t2, t3, t5: Some(v), t6, t7 }, footer)),
            Err(x) => Err(x),
        }
    } else if chars_eq(h, chars_of("type6data:").as_slice()) {
        match deyamlify_chunk::<Type6Data>(body) {
            Ok(v) => Ok((Sections { t2, t3, t5, t6: Some(v), t7 }, footer)),
            Err(x) => Err(x),
        }
    } else if chars_eq(h, chars_of("type7data:").as_slice()) {
        match deyamlify_chunk::<Type7Data>(body) {
            Ok(v) => Ok((Sections { t2, t3, t5, t6, t7: Some(v) }, footer)),
            Err(x) => Err(x),
        }
    } else {
        match strip(h, "footer: ") {
            None => Err(YamlError::UnknownChunk),
            Some(f) => {
                if e - s > 1 {
                    return Err(YamlError::FooterLines);
                }
                match from_array_string(f.as_slice()) {
                    Err(x) => Err(x),
                    Ok(v) => if v.len() == 6 {
                        Ok((Sections { t2, t3, t5, t6, t7 }, array6(&v)))
                    } else {
                        Err(YamlError::FooterLength)
                    },
                }
            },
        }
    }
}

impl Bbq {
    /// Reads a `.bbq` file back from the lines of its YAML document.
    pub fn from_yaml_lines(lines: &[&str]) -> (r: Result<Bbq, YamlError>)
        ensures
            parsed_as(r, bbq_yaml_spec(lines@.map_values(|s: &str| s@))),
    {
        let mut ls: Vec<Vec<char>> = Vec::new();
        let mut i: usize = 0;
        while i < lines.len()
            invariant
                i <= lines@.len(),
                lines_of(ls@) == lines@.take(i as int).map_values(|s: &str| s@),
            decreases lines@.len() - i,
        {
            let ghost before = lines_of(ls@);
            ls.push(chars_of(lines[i]));
            assert(lines_of(ls@) =~= before.push(lines@[i as int]@));
            assert(lines@.take(i + 1).map_values(|s: &str| s@) =~= lines@.take(i as int).map_values(
                |s: &str| s@,
            ).push(lines@[i as int]@));
            i = i + 1;
        }
        assert(lines@.take(lines@.len() as int) =~= lines@);
        Bbq::from_char_lines(ls.as_slice())
    }

    /// Reads a `.bbq` file back from the lines of its YAML document, each line
    /// as its characters.
    pub fn from_char_lines(ls: &[Vec<char>]) -> (r: Result<Bbq, YamlError>)
        ensures
            parsed_as(r, bbq_yaml_spec(lines_of(ls@))),
    {
        let ghost lv = lines_of(ls@);
        let bounds = run_bounds(ls, true);
        let ghost cs = runs(lv, true);
        if bounds.len() == 0 {
            return Err(YamlError::NoData);
        }
        let (s0, e0) = bounds[0];
        assert(cs[0] == lv.subrange(s0 as int, e0 as int));
        if e0 - s0 != 1 {
            return Err(YamlError::DatetimeLines);
        }
        assert(cs[0][0] == ls@[s0 as int]@);
        let d = match strip(ls[s0].as_slice(), "datetime: ") {
            Some(d) => d,
            None => return Err(YamlError::DatetimeLabel),
        };
        let datetime = match parse_u64(d.as_slice(), 0xFFFF_FFFF) {
            Some(x) => x as u32,
            None => return Err(YamlError::DatetimeValue),
        };
        let ghost rest = cs.drop_first();
        let mut acc = Sections { t2: None, t3: None, t5: None, t6: None, t7: None };
        let mut footer: [u32; 6] = [0, 0, 0, 0, 0, 0];
        assert(footer@ =~= zero_footer());
        assert(rest.take(0) =~= Seq::<Seq<Seq<char>>>::empty());
        let ghost whole = match sections_spec(rest) {
            Err(e) => Err(e),
            Ok(st) => Ok((datetime, st.0, st.1, st.2, st.3, st.4, st.5)),
        };
        assert(bbq_yaml_spec(lv) == whole);
        let mut k: usize = 1;
        while k < bounds.len()
            invariant
                1 <= k <= bounds@.len(),
                lv == lines_of(ls@),
                cs == runs(lv, true),
                rest == cs.drop_first(),
                bounded(lv, bounds@) == cs,
                bbq_yaml_spec(lv) == whole,
                whole == match sections_spec(rest) {
                    Err(e) => Err(e),
                    Ok(st) => Ok((datetime, st.0, st.1, st.2, st.3, st.4, st.5)),
                },
                forall|j: int| 0 <= j < bounds@.len() ==> (#[trigger] bounds@[j]).0 < bounds@[j].1 <= ls@.len(),
                forall|q: int, j: int|
                    #![trigger bounds@[q], ls@[j]]
                    0 <= q < bounds@.len() && bounds@[q].0 < j < bounds@[q].1 ==> continues(true, ls@[j]@),
                sections_spec(rest.take(k - 1)) == Ok::<Fields, YamlError>((acc@.0, acc@.1, acc@.2, acc@.3, acc@.4, footer@)),
            decreases bounds@.len() - k,
        {
            let (s, e) = bounds[k];
            assert(rest.take(k as int).drop_last() =~= rest.take(k - 1));
            assert(rest.take(k as int).last() == cs[k as int]);
            assert(cs[k as int] == lv.subrange(s as int, e as int));
            assert forall|j: int| s < j < e implies top_cont(#[trigger] ls@[j]@) by {
                assert(bounds@[k as int].0 < j < bounds@[k as int].1);
            }
            match read_section(ls, s, e, acc, footer) {
                Ok((a, f)) => {
                    acc = a;
                    footer = f;
                },
                Err(x) => {
                    proof {
                        lemma_sections_err(rest, k as int, x);
                    }
                    return Err(x);
                },
            }
            k = k + 1;
        }
        assert(rest.take(rest.len() as int) =~= rest);
        let Sections { t2, t3, t5, t6, t7 } = acc;
        Ok(Bbq {
            datetime,
            type2data: t2,
            type3data: t3,
            type5data: t5,
            type6data: t6,
            type7data: t7,
            footer,
        })
    }
}

} // verus!
