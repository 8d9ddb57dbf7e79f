//! `.bbq` files as the lines of a small YAML document, and back.
use vstd::prelude::*;
use crate::bbq::{Bbq, Command, Type2Data, Type3Data, Type5Data, Type6Data, Type7Data};
use crate::text::{string_of, chars_of, push_decimal, dec_chars, lines_of, split_char, split_on, lemma_split_char_nonempty};
use crate::bbq_read::{opt_items_view, BbqView};
use crate::yaml_read::zero_footer;

verus! {

broadcast use vstd::seq::Seq::group_seq_flatten;

/// `items` joined by `", "`.
pub open spec fn join_comma(items: Seq<Seq<char>>) -> Seq<char>
    decreases items.len(),
{
    if items.len() == 0 {
        Seq::empty()
    } else if items.len() == 1 {
        items[0]
    } else {
        join_comma(items.drop_last()) + seq![',', ' '] + items.last()
    }
}

/// A list of numbers as `[a, b, c]`.
pub open spec fn array_chars(data: Seq<u32>) -> Seq<char> {
    seq!['['] + join_comma(data.map_values(|x: u32| dec_chars(x as nat))) + seq![']']
}

/// Appends `[a, b, c]` for the numbers `data`.
pub fn push_array(out: &mut Vec<char>, data: &[u32])
    ensures
        final(out)@ == old(out)@ + array_chars(data@),
{
    out.push('[');
    let ghost start = out@;
    let mut i: usize = 0;
    while i < data.len()
        invariant
            i <= data@.len(),
            out@ == start + join_comma(data@.take(i as int).map_values(|x: u32| dec_chars(x as nat))),
        decreases data@.len() - i,
    {
        let ghost before = out@;
        let ghost prev = data@.take(i as int).map_values(|x: u32| dec_chars(x as nat));
        let ghost next = data@.take(i + 1).map_values(|x: u32| dec_chars(x as nat));
        assert(next =~= prev.push(dec_chars(data@[i as int] as nat)));
        assert(next.drop_last() =~= prev);
        if i > 0 {
            out.push(',');
            out.push(' ');
        }
        push_decimal(out, data[i] as u64);
        i = i + 1;
        proof {
            if i == 1 {
                assert(out@ =~= start + join_comma(next));
            } else {
                assert(out@ =~= start + join_comma(next));
            }
        }
    }
    assert(data@.take(data@.len() as int) =~= data@);
    out.push(']');
    assert(final(out)@ =~= old(out)@ + array_chars(data@));
}

/// The numbers `data` as `[a, b, c]`.
pub fn to_array_string(data: &[u32]) -> (r: String)
    ensures
        r@ == array_chars(data@),
{
    let mut out: Vec<char> = Vec::new();
    push_array(&mut out, data);
    assert(out@ =~= array_chars(data@));
    string_of(out.as_slice())
}

/// The YAML lines of an item of each type.
pub open spec fn type2_yaml(t: Seq<u32>) -> Seq<Seq<char>> {
    seq![seq!['d', 'a', 't', 'a', ':', ' '] + array_chars(t)]
}

pub open spec fn type3_yaml(t: (Seq<u32>, Seq<Seq<u32>>)) -> Seq<Seq<char>> {
    seq![
        seq!['d', 'a', 't', 'a', ':', ' '] + array_chars(t.0),
        seq!['c', 'h', 'i', 'l', 'd', 'r', 'e', 'n', ':'],
    ] + t.1.map_values(|c: Seq<u32>| seq!['-', ' '] + array_chars(c))
}

/// A line of a type 5 item as `[a, b, c, d, e, f]`.
pub open spec fn tuple_array(l: (u8, u8, u16, u32, u32, u32)) -> Seq<u32> {
    seq![l.0 as u32, l.1 as u32, l.2 as u32, l.3, l.4, l.5]
}

pub open spec fn type5_yaml(t: (Option<u32>, Seq<(u8, u8, u16, u32, u32, u32)>)) -> Seq<Seq<char>> {
    match t.0 {
        Some(x) => seq![dec_chars(x as nat)],
        None => seq![seq!['l', 'i', 'n', 'e', 's', ':']] + t.1.map_values(
            |l: (u8, u8, u16, u32, u32, u32)| seq!['-', ' '] + array_chars(tuple_array(l)),
        ),
    }
}

/// A command as `{code1: a, code2: b, arg_count: c, place: d, args: [..]}`.
pub open spec fn command_yaml(c: (u8, u8, u16, u32, Seq<u32>)) -> Seq<char> {
    seq!['{', 'c', 'o', 'd', 'e', '1', ':', ' '] + dec_chars(c.0 as nat) + seq![
        ',',
        ' ',
        'c',
        'o',
        'd',
        'e',
        '2',
        ':',
        ' ',
    ] + dec_chars(c.1 as nat) + seq![',', ' ', 'a', 'r', 'g', '_', 'c', 'o', 'u', 'n', 't', ':', ' ']
        + dec_chars(c.2 as nat) + seq![',', ' ', 'p', 'l', 'a', 'c', 'e', ':', ' '] + dec_chars(
        c.3 as nat,
    ) + seq![',', ' ', 'a', 'r', 'g', 's', ':', ' '] + array_chars(c.4) + seq!['}']
}

pub open spec fn type6_yaml(t: Seq<(u8, u8, u16, u32, Seq<u32>)>) -> Seq<Seq<char>> {
    seq![seq!['c', 'o', 'm', 'm', 'a', 'n', 'd', 's', ':']] + t.map_values(
        |c: (u8, u8, u16, u32, Seq<u32>)| seq!['-', ' '] + command_yaml(c),
    )
}

/// A text as a plain line (`|` when empty), or as a block: `|+` when it ends
/// with a newline (its lines but the empty last), else `|-` and its lines.
pub open spec fn type7_yaml(t: Seq<char>) -> Seq<Seq<char>> {
    let parts = split_char(t, '\n');
    if parts.len() == 1 {
        if parts[0].len() == 0 {
            seq![seq!['|']]
        } else {
            seq![parts[0]]
        }
    } else if parts.last().len() == 0 {
        seq![seq!['|', '+']] + parts.drop_last()
    } else {
        seq![seq!['|', '-']] + parts
    }
}


/// The characters of a text literal.
fn lit(s: &str) -> (r: Vec<char>)
    ensures
        r@ == s@,
{
    chars_of(s)
}

fn append_chars(out: &mut Vec<char>, src: &[char])
    ensures
        final(out)@ == old(out)@ + src@,
{
    let mut i: usize = 0;
    while i < src.len()
        invariant
            i <= src@.len(),
            out@ == old(out)@ + src@.subrange(0, i as int),
        decreases src@.len() - i,
    {
        out.push(src[i]);
        i = i + 1;
        assert(out@ =~= old(out)@ + src@.subrange(0, i as int));
    }
    assert(src@.subrange(0, src@.len() as int) =~= src@);
}

fn prefixed_array(prefix: &str, data: &[u32]) -> (r: Vec<char>)
    ensures
        r@ == prefix@ + array_chars(data@),
{
    let mut out = lit(prefix);
    push_array(&mut out, data);
    out
}

/// A value that has YAML lines.
pub trait YamlItem: Sized + View {
    spec fn yaml_spec(v: Self::V) -> Seq<Seq<char>>;

    fn yaml_lines(&self) -> (r: Vec<Vec<char>>)
        ensures
            lines_of(r@) == Self::yaml_spec(self@),
    ;
}

impl YamlItem for Type2Data {
    open spec fn yaml_spec(v: Seq<u32>) -> Seq<Seq<char>> {
        type2_yaml(v)
    }

    fn yaml_lines(&self) -> (r: Vec<Vec<char>>) {
        let mut r: Vec<Vec<char>> = Vec::new();
        let l = prefixed_array("data: ", &self.data);
        proof {
            reveal_strlit("data: ");
            assert("data: "@ =~= seq!['d', 'a', 't', 'a', ':', ' ']);
        }
        r.push(l);
        assert(lines_of(r@) =~= type2_yaml(self@));
        r
    }
}

impl YamlItem for Type3Data {
    open spec fn yaml_spec(v: (Seq<u32>, Seq<Seq<u32>>)) -> Seq<Seq<char>> {
        type3_yaml(v)
    }

    fn yaml_lines(&self) -> (r: Vec<Vec<char>>) {
        let mut r: Vec<Vec<char>> = Vec::new();
        r.push(prefixed_array("data: ", &self.data));
        r.push(lit("children:"));
        proof {
            reveal_strlit("data: ");
            assert("data: "@ =~= seq!['d', 'a', 't', 'a', ':', ' ']);
            reveal_strlit("children:");
            assert("children:"@ =~= seq!['c', 'h', 'i', 'l', 'd', 'r', 'e', 'n', ':']);
            reveal_strlit("- ");
            assert("- "@ =~= seq!['-', ' ']);
        }
        let ghost head = lines_of(r@);
        let mut i: usize = 0;
        while i < self.children.len()
            invariant
                i <= self.children@.len(),
                lines_of(r@) == head + self@.1.take(i as int).map_values(
                    |c: Seq<u32>| seq!['-', ' '] + array_chars(c),
                ),
                "- "@ == seq!['-', ' '],
            decreases self.children@.len() - i,
        {
            let l = prefixed_array("- ", &self.children[i]);
            let ghost before = lines_of(r@);
            r.push(l);
            assert(lines_of(r@) =~= before.push(l@));
            assert(self@.1.take(i + 1).map_values(|c: Seq<u32>| seq!['-', ' '] + array_chars(c))
                =~= self@.1.take(i as int).map_values(|c: Seq<u32>| seq!['-', ' '] + array_chars(c)).push(
                seq!['-', ' '] + array_chars(self.children@[i as int]@),
            ));
            i = i + 1;
        }
        assert(self@.1.take(self@.1.len() as int) =~= self@.1);
        assert(lines_of(r@) =~= type3_yaml(self@));
        r
    }
}

impl YamlItem for Type5Data {
    open spec fn yaml_spec(v: (Option<u32>, Seq<(u8, u8, u16, u32, u32, u32)>)) -> Seq<Seq<char>> {
        type5_yaml(v)
    }

    fn yaml_lines(&self) -> (r: Vec<Vec<char>>) {
        let mut r: Vec<Vec<char>> = Vec::new();
        if let Some(data) = self.small_data {
            let mut l: Vec<char> = Vec::new();
            push_decimal(&mut l, data as u64);
            r.push(l);
            assert(lines_of(r@) =~= type5_yaml(self@));
            return r;
        }
        r.push(lit("lines:"));
        proof {
            reveal_strlit("lines:");
            assert("lines:"@ =~= seq!['l', 'i', 'n', 'e', 's', ':']);
            reveal_strlit("- ");
            assert("- "@ =~= seq!['-', ' ']);
        }
        let ghost head = lines_of(r@);
        let mut i: usize = 0;
        while i < self.lines.len()
            invariant
                i <= self.lines@.len(),
                self.small_data is None,
                lines_of(r@) == head + self@.1.take(i as int).map_values(
                    |l: (u8, u8, u16, u32, u32, u32)| seq!['-', ' '] + array_chars(tuple_array(l)),
                ),
                "- "@ == seq!['-', ' '],
            decreases self.lines@.len() - i,
        {
            let t = self.lines[i];
            let arr = [t.0 as u32, t.1 as u32, t.2 as u32, t.3, t.4, t.5];
            assert(arr@ =~= tuple_array(t));
            let l = prefixed_array("- ", &arr);
            let ghost before = lines_of(r@);
            r.push(l);
            assert(lines_of(r@) =~= before.push(l@));
            assert(self@.1.take(i + 1).map_values(
                |l: (u8, u8, u16, u32, u32, u32)| seq!['-', ' '] + array_chars(tuple_array(l)),
            ) =~= self@.1.take(i as int).map_values(
                |l: (u8, u8, u16, u32, u32, u32)| seq!['-', ' '] + array_chars(tuple_array(l)),
            ).push(seq!['-', ' '] + array_chars(tuple_array(t))));
            i = i + 1;
        }
        assert(self@.1.take(self@.1.len() as int) =~= self@.1);
        assert(lines_of(r@) =~= type5_yaml(self@));
        r
    }
}

impl Command {
    /// The command as one YAML flow mapping (see `command_yaml`).
    pub fn yaml_line(&self) -> (r: Vec<char>)
        ensures
            r@ == command_yaml(self@),
    {
        let mut out = lit("{code1: ");
        push_decimal(&mut out, self.code1 as u64);
        let s2 = lit(", code2: ");
        append_chars(&mut out, s2.as_slice());
        push_decimal(&mut out, self.code2 as u64);
        let s3 = lit(", arg_count: ");
        append_chars(&mut out, s3.as_slice());
        push_decimal(&mut out, self.arg_count as u64);
        let s4 = lit(", place: ");
        append_chars(&mut out, s4.as_slice());
        push_decimal(&mut out, self.place as u64);
        let s5 = lit(", args: ");
        append_chars(&mut out, s5.as_slice());
        push_array(&mut out, self.args.as_slice());
        out.push('}');
        proof {
            reveal_strlit("{code1: ");
            assert("{code1: "@ =~= seq!['{', 'c', 'o', 'd', 'e', '1', ':', ' ']);
            reveal_strlit(", code2: ");
            assert(", code2: "@ =~= seq![',', ' ', 'c', 'o', 'd', 'e', '2', ':', ' ']);
            reveal_strlit(", arg_count: ");
            assert(", arg_count: "@ =~= seq![',', ' ', 'a', 'r', 'g', '_', 'c', 'o', 'u', 'n', 't', ':', ' ']);
            reveal_strlit(", place: ");
            assert(", place: "@ =~= seq![',', ' ', 'p', 'l', 'a', 'c', 'e', ':', ' ']);
            reveal_strlit(", args: ");
            assert(", args: "@ =~= seq![',', ' ', 'a', 'r', 'g', 's', ':', ' ']);
        }
        assert(out@ =~= command_yaml(self@));
        out
    }
}

impl YamlItem for Type6Data {
    open spec fn yaml_spec(v: Seq<(u8, u8, u16, u32, Seq<u32>)>) -> Seq<Seq<char>> {
        type6_yaml(v)
    }

    fn yaml_lines(&self) -> (r: Vec<Vec<char>>) {
        let mut r: Vec<Vec<char>> = Vec::new();
        r.push(lit("commands:"));
        proof {
            reveal_strlit("commands:");
            assert("commands:"@ =~= seq!['c', 'o', 'm', 'm', 'a', 'n', 'd', 's', ':']);
            reveal_strlit("- ");
            assert("- "@ =~= seq!['-', ' ']);
        }
        let ghost head = lines_of(r@);
        let mut i: usize = 0;
        while i < self.commands.len()
            invariant
                i <= self.commands@.len(),
                lines_of(r@) == head + self@.take(i as int).map_values(
                    |c: (u8, u8, u16, u32, Seq<u32>)| seq!['-', ' '] + command_yaml(c),
                ),
                "- "@ == seq!['-', ' '],
            decreases self.commands@.len() - i,
        {
            let mut l = lit("- ");
            let cl = self.commands[i].yaml_line();
            append_chars(&mut l, cl.as_slice());
            let ghost before = lines_of(r@);
            r.push(l);
            assert(lines_of(r@) =~= before.push(l@));
            assert(self@.take(i + 1).map_values(
                |c: (u8, u8, u16, u32, Seq<u32>)| seq!['-', ' '] + command_yaml(c),
            ) =~= self@.take(i as int).map_values(
                |c: (u8, u8, u16, u32, Seq<u32>)| seq!['-', ' '] + command_yaml(c),
            ).push(seq!['-', ' '] + command_yaml(self.commands@[i as int]@)));
            i = i + 1;
        }
        assert(self@.take(self@.len() as int) =~= self@);
        assert(lines_of(r@) =~= type6_yaml(self@));
        r
    }
}

impl YamlItem for Type7Data {
    open spec fn yaml_spec(v: Seq<char>) -> Seq<Seq<char>> {
        type7_yaml(v)
    }

    fn yaml_lines(&self) -> (r: Vec<Vec<char>>) {
        let cs = chars_of(self.text.as_str());
        let mut parts = split_on(cs.as_slice(), '\n');
        let mut r: Vec<Vec<char>> = Vec::new();
        proof {
            reveal_strlit("|");
            assert("|"@ =~= seq!['|']);
            reveal_strlit("|+");
            assert("|+"@ =~= seq!['|', '+']);
            reveal_strlit("|-");
            assert("|-"@ =~= seq!['|', '-']);
        }
        if parts.len() == 1 {
            if parts[0].len() == 0 {
                r.push(lit("|"));
            } else {
                let p = parts.pop().unwrap();
                r.push(p);
            }
            assert(lines_of(r@) =~= type7_yaml(self@));
            return r;
        }
        let ghost ps = lines_of(parts@);
        proof {
            lemma_split_char_nonempty(cs@, '\n');
        }
        if parts[parts.len() - 1].len() == 0 {
            parts.pop();
            r.push(lit("|+"));
            assert(lines_of(parts@) =~= ps.drop_last());
        } else {
            r.push(lit("|-"));
        }
        let ghost rest = lines_of(parts@);
        r.append(&mut parts);
        assert(lines_of(r@) =~= lines_of(seq![r@[0]]) + rest);
        assert(lines_of(r@) =~= type7_yaml(self@));
        r
    }
}

/// The lines of one item under a list: `- ` before its first line, two spaces
/// before the others; nothing for an item without lines.
pub open spec fn item_block(ls: Seq<Seq<char>>) -> Seq<Seq<char>> {
    if ls.len() == 0 {
        Seq::empty()
    } else {
        seq![seq!['-', ' '] + ls[0]] + ls.drop_first().map_values(|l: Seq<char>| seq![' ', ' '] + l)
    }
}

/// The lines of a list of items.
pub open spec fn yamlify_spec(items: Seq<Seq<Seq<char>>>) -> Seq<Seq<char>> {
    items.map_values(|ls: Seq<Seq<char>>| item_block(ls)).flatten()
}

/// The YAML lines of each item of `datas`, as a list.
pub fn yamlify<T: YamlItem>(datas: &[T]) -> (r: Vec<Vec<char>>)
    ensures
        lines_of(r@) == yamlify_spec(datas@.map_values(|t: T| T::yaml_spec(t@))),
{
    let ghost items = datas@.map_values(|t: T| T::yaml_spec(t@));
    let mut lines: Vec<Vec<char>> = Vec::new();
    let mut i: usize = 0;
    while i < datas.len()
        invariant
            i <= datas@.len(),
            items == datas@.map_values(|t: T| T::yaml_spec(t@)),
            lines_of(lines@) == yamlify_spec(items.take(i as int)),
        decreases datas@.len() - i,
    {
        let mut data_lines = datas[i].yaml_lines();
        let ghost dl = lines_of(data_lines@);
        let ghost before = lines_of(lines@);
        proof {
            assert(items.take(i + 1) =~= items.take(i as int).push(dl));
            assert(items.take(i + 1).map_values(|ls: Seq<Seq<char>>| item_block(ls)) =~= items.take(
                i as int,
            ).map_values(|ls: Seq<Seq<char>>| item_block(ls)).push(item_block(dl)));
            reveal_strlit("- ");
            assert("- "@ =~= seq!['-', ' ']);
            reveal_strlit("  ");
            assert("  "@ =~= seq![' ', ' ']);
        }
        if data_lines.len() > 0 {
            let mut first = lit("- ");
            append_chars(&mut first, data_lines[0].as_slice());
            lines.push(first);
            let mut k: usize = 1;
            while k < data_lines.len()
                invariant
                    1 <= k <= data_lines@.len(),
                    dl == lines_of(data_lines@),
                    "  "@ == seq![' ', ' '],
                    lines_of(lines@) == before + seq![seq!['-', ' '] + dl[0]] + dl.subrange(
                        1,
                        k as int,
                    ).map_values(|l: Seq<char>| seq![' ', ' '] + l),
                decreases data_lines@.len() - k,
            {
                let mut l = lit("  ");
                append_chars(&mut l, data_lines[k].as_slice());
                let ghost b2 = lines_of(lines@);
                lines.push(l);
                assert(lines_of(lines@) =~= b2.push(l@));
                assert(dl.subrange(1, k + 1).map_values(|l: Seq<char>| seq![' ', ' '] + l)
                    =~= dl.subrange(1, k as int).map_values(|l: Seq<char>| seq![' ', ' '] + l).push(
                    seq![' ', ' '] + dl[k as int],
                ));
                k = k + 1;
            }
            assert(dl.subrange(1, dl.len() as int) =~= dl.drop_first());
            assert(lines_of(lines@) =~= before + item_block(dl));
        } else {
            assert(item_block(dl) =~= Seq::<Seq<char>>::empty());
            assert(before + item_block(dl) =~= before);
        }
        i = i + 1;
    }
    assert(items.take(datas@.len() as int) =~= items);
    lines
}


/// A section's header line and its list of items, if the section is there.
pub open spec fn section_lines<T: YamlItem>(header: Seq<char>, o: Option<Seq<T::V>>) -> Seq<Seq<char>> {
    match o {
        None => Seq::empty(),
        Some(vs) => seq![header] + yamlify_spec(vs.map_values(|v: T::V| T::yaml_spec(v))),
    }
}

/// The YAML document of a `.bbq` file: `datetime: n`, each section that is
/// there under its header, and the footer unless it is all zeros.
pub open spec fn bbq_yaml(b: BbqView) -> Seq<Seq<char>> {
    seq!["datetime: "@ + dec_chars(b.0 as nat)] + section_lines::<Type2Data>("type2data:"@, b.1)
        + section_lines::<Type3Data>("type3data:"@, b.2) + section_lines::<Type5Data>(
        "type5data:"@,
        b.3,
    ) + section_lines::<Type6Data>("type6data:"@, b.4) + section_lines::<Type7Data>(
        "type7data:"@,
        b.5,
    ) + if b.6 != zero_footer() {
        seq!["footer: "@ + array_chars(b.6)]
    } else {
        Seq::empty()
    }
}

fn append_section<T: YamlItem>(ls: &mut Vec<Vec<char>>, header: &str, o: &Option<Vec<T>>)
    ensures
        lines_of(final(ls)@) == lines_of(old(ls)@) + section_lines::<T>(header@, opt_items_view(*o)),
{
    match o {
        None => {
            assert(lines_of(final(ls)@) =~= lines_of(old(ls)@) + Seq::<Seq<char>>::empty());
        },
        Some(v) => {
            ls.push(lit(header));
            let mut items = yamlify(v.as_slice());
            let ghost mid = lines_of(ls@);
            let ghost it = lines_of(items@);
            ls.append(&mut items);
            assert(lines_of(ls@) =~= mid + it);
            assert(v@.map_values(|t: T| T::yaml_spec(t@)) =~= v@.map_values(|t: T| t@).map_values(
                |x: T::V| T::yaml_spec(x),
            ));
            assert(lines_of(final(ls)@) =~= lines_of(old(ls)@) + section_lines::<T>(
                header@,
                opt_items_view(*o),
            ));
        },
    }
}

impl Bbq {
    /// The lines of the YAML document of this file.
    pub fn yaml_lines(&self) -> (r: Vec<String>)
        ensures
            r@.map_values(|s: String| s@) == bbq_yaml(self@),
    {
        let mut ls: Vec<Vec<char>> = Vec::new();
        let mut first = lit("datetime: ");
        push_decimal(&mut first, self.datetime as u64);
        ls.push(first);
        assert(lines_of(ls@) =~= seq!["datetime: "@ + dec_chars(self.datetime as nat)]);
        append_section(&mut ls, "type2data:", &self.type2data);
        append_section(&mut ls, "type3data:", &self.type3data);
        append_section(&mut ls, "type5data:", &self.type5data);
        append_section(&mut ls, "type6data:", &self.type6data);
        append_section(&mut ls, "type7data:", &self.type7data);
        let f = &self.footer;
        let zero = f[0] == 0 && f[1] == 0 && f[2] == 0 && f[3] == 0 && f[4] == 0 && f[5] == 0;
        assert(zero == (f@ == zero_footer())) by {
            if zero {
                assert(f@ =~= zero_footer());
            }
        }
        let ghost before = lines_of(ls@);
        if !zero {
            ls.push(prefixed_array("footer: ", f));
            assert(lines_of(ls@) =~= before + seq!["footer: "@ + array_chars(self.footer@)]);
        } else {
            assert(lines_of(ls@) =~= before + Seq::<Seq<char>>::empty());
        }
        assert(lines_of(ls@) =~= bbq_yaml(self@));
        let mut out: Vec<String> = Vec::new();
        let mut i: usize = 0;
        while i < ls.len()
            invariant
                i <= ls@.len(),
                out@.map_values(|s: String| s@) == lines_of(ls@).take(i as int),
            decreases ls@.len() - i,
        {
            let ghost before = out@.map_values(|s: String| s@);
            assert(lines_of(ls@)[i as int] == ls@[i as int]@);
            let s = string_of(ls[i].as_slice());
            out.push(s);
            assert(out@.map_values(|s: String| s@) =~= before.push(s@));
            assert(lines_of(ls@).take(i + 1) =~= lines_of(ls@).take(i as int).push(ls@[i as int]@));
            i = i + 1;
        }
        assert(lines_of(ls@).take(ls@.len() as int) =~= lines_of(ls@));
        out
    }
}

} // verus!
