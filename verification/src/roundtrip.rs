//! What reading a `.bbq` file's YAML document gives back of what was written.
use vstd::prelude::*;
use crate::text::{dec_chars, digit_char, digit_value, digits_value, all_digits, parse_unsigned, is_white, trim, trim_start, split_char};
use crate::text::has_prefix;
use crate::bbq::{Bbq, Type2Data, Type3Data, Type5Data, Type6Data, Type7Data};
use crate::yaml::{join_comma, array_chars, command_yaml, item_block, tuple_array, type2_yaml, type3_yaml, type5_yaml, type6_yaml, type7_yaml, YamlItem, yamlify_spec, section_lines, bbq_yaml};
use crate::bbq_read::BbqView;
use crate::yaml_read::{YamlError, YamlParse, array_spec, numbers, after, sep_from, split_sep, field_spec, command_spec, fold_ok, dedent, child_fn, line5_fn, command_item_fn, join_newlines, drop_empty_tail, continues, top_cont, runs, deyaml_spec, item_fn, section_step, sections_spec, bbq_yaml_spec, zero_footer, Fields};

verus! {

/// The characters of `s` are all ASCII digits.
pub open spec fn digit_chars(s: Seq<char>) -> bool {
    forall|i: int| 0 <= i < s.len() ==> '0' <= #[trigger] s[i] <= '9'
}

proof fn lemma_digit_char(d: nat)
    requires
        d < 10,
    ensures
        '0' <= digit_char(d) <= '9',
        digit_value(digit_char(d)) == Some(d),
{
    assert(d % 10 == d);
}

/// The numeral of `n` is a nonempty run of digits worth `n`.
pub proof fn lemma_dec_chars(n: nat)
    ensures
        dec_chars(n).len() >= 1,
        digit_chars(dec_chars(n)),
        all_digits(dec_chars(n)),
        digits_value(dec_chars(n)) == n,
    decreases n,
{
    if n < 10 {
        lemma_digit_char(n);
        let s = dec_chars(n);
        assert(s =~= seq![digit_char(n)]);
        assert(s.drop_last() =~= Seq::<char>::empty());
        assert(digits_value(s) == digits_value(s.drop_last()) * 10 + digit_value(s.last())->0);
    } else {
        lemma_dec_chars(n / 10);
        lemma_digit_char(n % 10);
        assert(digit_char(n % 10) == digit_char(n % 10 % 10));
        let s = dec_chars(n);
        assert(s.drop_last() =~= dec_chars(n / 10));
        assert(s.last() == digit_char(n % 10));
        assert(digits_value(s) == digits_value(s.drop_last()) * 10 + digit_value(s.last())->0);
        assert((n / 10) * 10 + n % 10 == n);
        assert(digit_chars(s));
        assert(all_digits(s)) by {
            assert forall|i: int| 0 <= i < s.len() implies #[trigger] digit_value(s[i]) is Some by {
                if i < s.len() - 1 {
                    assert(s[i] == dec_chars(n / 10)[i]);
                }
            }
        }
    }
}

/// A numeral reads back as its number, wherever the number fits.
pub proof fn lemma_parse_dec(n: nat, max: nat)
    requires
        n <= max,
    ensures
        parse_unsigned(dec_chars(n), max) == Some(n),
{
    lemma_dec_chars(n);
}

/// Text that begins and ends with a character other than whitespace is its
/// own trim.
pub proof fn lemma_trim_id(s: Seq<char>)
    requires
        s.len() == 0 || (!is_white(s[0]) && !is_white(s.last())),
    ensures
        trim(s) == s,
{
}

/// Text whose ends are digits is its own trim, also after a leading space.
proof fn lemma_trim_digits(s: Seq<char>)
    requires
        s.len() >= 1,
        digit_chars(s),
    ensures
        trim(s) == s,
        trim(seq![' '] + s) == s,
{
    assert('0' <= s[0] <= '9');
    assert('0' <= s[s.len() - 1] <= '9');
    lemma_trim_id(s);
    let t = seq![' '] + s;
    assert(t.drop_first() =~= s);
    assert(trim_start(t) == trim_start(s));
}

/// Text without `sep` is one piece.
pub proof fn lemma_split_none(t: Seq<char>, sep: char)
    requires
        forall|i: int| 0 <= i < t.len() ==> t[i] != sep,
    ensures
        split_char(t, sep) == seq![t],
    decreases t.len(),
{
    if t.len() == 0 {
        assert(t =~= Seq::<char>::empty());
    } else {
        lemma_split_none(t.drop_last(), sep);
        assert(t.drop_last().push(t.last()) =~= t);
    }
}

/// A separator followed by text without one adds that text as a last piece.
pub proof fn lemma_split_then(s: Seq<char>, t: Seq<char>, sep: char)
    requires
        forall|i: int| 0 <= i < t.len() ==> t[i] != sep,
    ensures
        split_char(s + seq![sep] + t, sep) == split_char(s, sep).push(t),
    decreases t.len(),
{
    let x = s + seq![sep] + t;
    if t.len() == 0 {
        assert(x.drop_last() =~= s);
        assert(t =~= Seq::<char>::empty());
    } else {
        lemma_split_then(s, t.drop_last(), sep);
        assert(x.drop_last() =~= s + seq![sep] + t.drop_last());
        assert(t.drop_last().push(t.last()) =~= t);
        assert(split_char(x, sep) =~= split_char(s, sep).push(t));
    }
}

/// The pieces of items joined by `", "` when cut at each comma: the first
/// item, then each other item after its space.
pub open spec fn comma_pieces(items: Seq<Seq<char>>) -> Seq<Seq<char>> {
    Seq::new(items.len(), |i: int| if i == 0 { items[0] } else { seq![' '] + items[i] })
}

/// No character of any of `items` is a comma.
pub open spec fn comma_free(items: Seq<Seq<char>>) -> bool {
    forall|i: int, j: int| 0 <= i < items.len() && 0 <= j < items[i].len() ==> #[trigger] items[i][j] != ','
}

proof fn lemma_split_join(items: Seq<Seq<char>>)
    requires
        items.len() >= 1,
        comma_free(items),
    ensures
        split_char(join_comma(items), ',') == comma_pieces(items),
    decreases items.len(),
{
    if items.len() == 1 {
        assert forall|j: int| 0 <= j < items[0].len() implies items[0][j] != ',' by {
            assert(items[0][j] != ',');
        }
        lemma_split_none(items[0], ',');
        assert(comma_pieces(items) =~= seq![items[0]]);
    } else {
        let dl = items.drop_last();
        assert forall|i: int, j: int| 0 <= i < dl.len() && 0 <= j < dl[i].len() implies #[trigger] dl[i][j] != ',' by {
            assert(dl[i] == items[i]);
        }
        lemma_split_join(dl);
        let t = seq![' '] + items.last();
        assert forall|j: int| 0 <= j < t.len() implies t[j] != ',' by {
            if j > 0 {
                assert(t[j] == items[items.len() - 1][j - 1]);
            }
        }
        lemma_split_then(join_comma(dl), t, ',');
        assert(join_comma(items) =~= join_comma(dl) + seq![','] + t);
        assert(comma_pieces(items) =~= comma_pieces(dl).push(t));
    }
}

proof fn lemma_join_ends(items: Seq<Seq<char>>)
    requires
        items.len() >= 1,
        forall|i: int| 0 <= i < items.len() ==> (#[trigger] items[i]).len() >= 1,
    ensures
        join_comma(items).len() >= 1,
        join_comma(items)[0] == items[0][0],
        join_comma(items).last() == items.last().last(),
    decreases items.len(),
{
    if items.len() > 1 {
        let dl = items.drop_last();
        assert forall|i: int| 0 <= i < dl.len() implies (#[trigger] dl[i]).len() >= 1 by {
            assert(dl[i] == items[i]);
        }
        lemma_join_ends(dl);
        assert(items[items.len() - 1].len() >= 1);
    }
}

/// The numerals of `data`.
pub open spec fn numerals(data: Seq<u32>) -> Seq<Seq<char>> {
    data.map_values(|x: u32| dec_chars(x as nat))
}

proof fn lemma_numerals(data: Seq<u32>)
    ensures
        forall|i: int| 0 <= i < data.len() ==> (#[trigger] numerals(data)[i]).len() >= 1 && digit_chars(numerals(data)[i]),
        comma_free(numerals(data)),
{
    let ns = numerals(data);
    assert forall|i: int| 0 <= i < data.len() implies (#[trigger] ns[i]).len() >= 1 && digit_chars(ns[i]) by {
        lemma_dec_chars(data[i] as nat);
    }
    assert forall|i: int, j: int| 0 <= i < ns.len() && 0 <= j < ns[i].len() implies #[trigger] ns[i][j] != ',' by {
        lemma_dec_chars(data[i] as nat);
        assert('0' <= ns[i][j] <= '9');
    }
}

proof fn lemma_numbers_pieces(data: Seq<u32>)
    requires
        data.len() >= 1,
    ensures
        numbers(comma_pieces(numerals(data))) == Some(data),
    decreases data.len(),
{
    let ps = comma_pieces(numerals(data));
    let x = data.last();
    lemma_dec_chars(x as nat);
    lemma_trim_digits(dec_chars(x as nat));
    lemma_parse_dec(x as nat, u32::MAX as nat);
    assert(parse_unsigned(trim(dec_chars(x as nat)), u32::MAX as nat) == Some(x as nat));
    assert((x as nat) as u32 == x);
    if data.len() == 1 {
        assert(ps.drop_last() =~= Seq::<Seq<char>>::empty());
        assert(numbers(ps.drop_last()) == Some(Seq::<u32>::empty()));
        assert(ps.last() == dec_chars(x as nat));
        assert(data =~= Seq::<u32>::empty().push(x));
    } else {
        let dl = data.drop_last();
        lemma_numbers_pieces(dl);
        assert(ps.drop_last() =~= comma_pieces(numerals(dl)));
        assert(ps.last() == seq![' '] + dec_chars(x as nat));
        assert(dl.push(x) =~= data);
    }
}

/// An array written as `[a, b, c]` reads back as the same numbers.
pub proof fn lemma_array_roundtrip(data: Seq<u32>)
    ensures
        array_spec(array_chars(data)) == Ok::<Seq<u32>, YamlError>(data),
{
    let items = numerals(data);
    let j = join_comma(items);
    let s = array_chars(data);
    assert(s.subrange(1, s.len() - 1) =~= j);
    if data.len() == 0 {
        assert(j =~= Seq::<char>::empty());
        assert(data =~= Seq::<u32>::empty());
    } else {
        lemma_numerals(data);
        lemma_join_ends(items);
        let a = items[0];
        let b = items[items.len() - 1];
        assert('0' <= a[0] <= '9');
        assert('0' <= b[b.len() - 1] <= '9');
        lemma_trim_id(j);
        lemma_split_join(items);
        lemma_numbers_pieces(data);
    }
}

/// Text that begins with `p` gives back what follows it.
pub proof fn lemma_after(p: Seq<char>, x: Seq<char>)
    ensures
        after(p + x, p) == Some(x),
{
    assert((p + x).subrange(0, p.len() as int) =~= p);
    assert(has_prefix(p + x, p));
    assert((p + x).subrange(p.len() as int, (p + x).len() as int) =~= x);
}

proof fn lemma_sep_from(a: Seq<char>, b: Seq<char>, i: int)
    requires
        0 <= i <= a.len(),
        forall|k: int| 0 <= k < a.len() ==> a[k] != ',',
    ensures
        sep_from(a + seq![',', ' '] + b, i) == Some(a.len() as int),
    decreases a.len() - i,
{
    let s = a + seq![',', ' '] + b;
    if i < a.len() {
        assert(s[i] == a[i]);
        lemma_sep_from(a, b, i + 1);
    } else {
        assert(s[i] == ',');
        assert(s[i + 1] == ' ');
    }
}

/// Text without a comma, then `", "`, splits at that separator.
pub proof fn lemma_split_sep(a: Seq<char>, b: Seq<char>)
    requires
        forall|k: int| 0 <= k < a.len() ==> a[k] != ',',
    ensures
        split_sep(a + seq![',', ' '] + b) == Some((a, b)),
{
    let s = a + seq![',', ' '] + b;
    lemma_sep_from(a, b, 0);
    assert(s.subrange(0, a.len() as int) =~= a);
    assert(s.subrange(a.len() as int + 2, s.len() as int) =~= b);
}

/// A `label: n, ` field gives back `n`'s numeral and what follows.
proof fn lemma_field(label: Seq<char>, n: nat, rest: Seq<char>, e: YamlError)
    ensures
        field_spec(label + dec_chars(n) + seq![',', ' '] + rest, label, e) == Ok::<(Seq<char>, Seq<char>), YamlError>((dec_chars(n), rest)),
{
    lemma_dec_chars(n);
    let d = dec_chars(n);
    assert forall|k: int| 0 <= k < d.len() implies d[k] != ',' by {
        assert('0' <= d[k] <= '9');
    }
    assert(label + d + seq![',', ' '] + rest =~= label + (d + seq![',', ' '] + rest));
    lemma_after(label, d + seq![',', ' '] + rest);
    lemma_split_sep(d, rest);
}

/// The inside of a command's YAML line, field by field.
pub open spec fn command_fields(c: (u8, u8, u16, u32, Seq<u32>)) -> Seq<char> {
    "code1: "@ + dec_chars(c.0 as nat) + seq![',', ' '] + ("code2: "@ + dec_chars(c.1 as nat) + seq![',', ' ']
        + ("arg_count: "@ + dec_chars(c.2 as nat) + seq![',', ' '] + ("place: "@ + dec_chars(c.3 as nat)
        + seq![',', ' '] + ("args: "@ + array_chars(c.4)))))
}

#[verifier::rlimit(100)]
proof fn lemma_command_shape(c: (u8, u8, u16, u32, Seq<u32>))
    ensures
        command_yaml(c).len() >= 2,
        command_yaml(c)[0] == '{',
        command_yaml(c).last() == '}',
        command_yaml(c).subrange(1, command_yaml(c).len() - 1) == command_fields(c),
{
    reveal_strlit("code1: ");
    reveal_strlit("code2: ");
    reveal_strlit("arg_count: ");
    reveal_strlit("place: ");
    reveal_strlit("args: ");
    let line = command_yaml(c);
    assert(line =~= seq!['{'] + command_fields(c) + seq!['}']);
    assert(line.subrange(1, line.len() - 1) =~= command_fields(c));
}

/// A command's YAML line reads back as the same command when its argument
/// count is the number of its arguments, and is refused for the wrong
/// number of arguments otherwise.
#[verifier::rlimit(40)]
pub proof fn lemma_command_roundtrip(c: (u8, u8, u16, u32, Seq<u32>))
    ensures
        command_spec(command_yaml(c)) == if c.4.len() == c.2 {
            Ok::<(u8, u8, u16, u32, Seq<u32>), YamlError>(c)
        } else {
            Err(YamlError::ArgsLength)
        },
{
    let sep = seq![',', ' '];
    let r4 = "args: "@ + array_chars(c.4);
    let r3 = "place: "@ + dec_chars(c.3 as nat) + sep + r4;
    let r2 = "arg_count: "@ + dec_chars(c.2 as nat) + sep + r3;
    let r1 = "code2: "@ + dec_chars(c.1 as nat) + sep + r2;
    lemma_command_shape(c);
    assert(command_fields(c) == "code1: "@ + dec_chars(c.0 as nat) + sep + r1);
    lemma_field("code1: "@, c.0 as nat, r1, YamlError::Code1Label);
    lemma_field("code2: "@, c.1 as nat, r2, YamlError::Code2Label);
    lemma_field("arg_count: "@, c.2 as nat, r3, YamlError::ArgCountLabel);
    lemma_field("place: "@, c.3 as nat, r4, YamlError::PlaceLabel);
    lemma_parse_dec(c.0 as nat, 255);
    lemma_parse_dec(c.1 as nat, 255);
    lemma_parse_dec(c.2 as nat, 0xFFFF);
    lemma_parse_dec(c.3 as nat, u32::MAX as nat);
    lemma_after("args: "@, array_chars(c.4));
    lemma_array_roundtrip(c.4);
    assert(((c.0 as nat) as u8, (c.1 as nat) as u8, (c.2 as nat) as u16, (c.3 as nat) as u32, c.4) == c);
}

/// Each item of `xs` that `f` reads as the matching one of `ys` makes the
/// fold read all of them.
pub proof fn lemma_fold_all<A, V>(xs: Seq<A>, f: spec_fn(A) -> Result<V, YamlError>, ys: Seq<V>)
    requires
        xs.len() == ys.len(),
        forall|i: int| 0 <= i < xs.len() ==> f(#[trigger] xs[i]) == Ok::<V, YamlError>(ys[i]),
    ensures
        fold_ok(xs, f) == Ok::<Seq<V>, YamlError>(ys),
    decreases xs.len(),
{
    if xs.len() == 0 {
        assert(ys =~= Seq::<V>::empty());
    } else {
        let n = xs.len() - 1;
        assert forall|i: int| 0 <= i < xs.drop_last().len() implies f(#[trigger] xs.drop_last()[i]) == Ok::<V, YamlError>(ys.drop_last()[i]) by {
            assert(xs.drop_last()[i] == xs[i]);
        }
        lemma_fold_all(xs.drop_last(), f, ys.drop_last());
        assert(f(xs[n]) == Ok::<V, YamlError>(ys[n]));
        assert(ys.drop_last().push(ys.last()) =~= ys);
    }
}

/// Two characters before a line come off with an indent of two.
pub proof fn lemma_dedent2(l: Seq<char>, a: char, b: char)
    ensures
        dedent(seq![a, b] + l, 2) == l,
{
    assert((seq![a, b] + l).subrange(2, (seq![a, b] + l).len() as int) =~= l);
}

/// The lines of an item under a list come back, with an indent of two, as
/// the item's own lines.
pub proof fn lemma_item_block(ls: Seq<Seq<char>>)
    requires
        ls.len() >= 1,
    ensures
        item_block(ls).len() == ls.len(),
        item_block(ls)[0] == seq!['-', ' '] + ls[0],
        forall|i: int| 1 <= i < ls.len() ==> #[trigger] item_block(ls)[i] == seq![' ', ' '] + ls[i],
        forall|i: int| 0 <= i < ls.len() ==> dedent(#[trigger] item_block(ls)[i], 2) == ls[i],
{
    let b = item_block(ls);
    assert forall|i: int| 1 <= i < ls.len() implies #[trigger] b[i] == seq![' ', ' '] + ls[i] by {
        assert(ls.drop_first()[i - 1] == ls[i]);
    }
    assert forall|i: int| 0 <= i < ls.len() implies dedent(#[trigger] b[i], 2) == ls[i] by {
        if i == 0 {
            lemma_dedent2(ls[0], '-', ' ');
        } else {
            lemma_dedent2(ls[i], ' ', ' ');
        }
    }
}

/// `label` then an array of `n` numbers reads back as those numbers.
proof fn lemma_labelled(label: Seq<char>, data: Seq<u32>)
    ensures
        after(label + array_chars(data), label) == Some(array_chars(data)),
        array_spec(array_chars(data)) == Ok::<Seq<u32>, YamlError>(data),
{
    lemma_after(label, array_chars(data));
    lemma_array_roundtrip(data);
}

/// A type 2 item reads back from its lines under a list.
pub proof fn lemma_type2_item(t: Seq<u32>)
    requires
        t.len() == 7,
    ensures
        Type2Data::from_yaml_spec(item_block(Type2Data::yaml_spec(t)), 2) == Ok::<Seq<u32>, YamlError>(t),
{
    reveal_strlit("data: ");
    assert("data: "@ =~= seq!['d', 'a', 't', 'a', ':', ' ']);
    lemma_item_block(type2_yaml(t));
    lemma_labelled("data: "@, t);
}

/// A type 3 item reads back from its lines under a list.
pub proof fn lemma_type3_item(t: (Seq<u32>, Seq<Seq<u32>>))
    requires
        t.0.len() == 7,
        forall|i: int| 0 <= i < t.1.len() ==> (#[trigger] t.1[i]).len() == 4,
    ensures
        Type3Data::from_yaml_spec(item_block(Type3Data::yaml_spec(t)), 2) == Ok::<(Seq<u32>, Seq<Seq<u32>>), YamlError>(t),
{
    reveal_strlit("data: ");
    assert("data: "@ =~= seq!['d', 'a', 't', 'a', ':', ' ']);
    reveal_strlit("children:");
    assert("children:"@ =~= seq!['c', 'h', 'i', 'l', 'd', 'r', 'e', 'n', ':']);
    reveal_strlit("- ");
    assert("- "@ =~= seq!['-', ' ']);
    let ls = type3_yaml(t);
    lemma_item_block(ls);
    let b = item_block(ls);
    lemma_labelled("data: "@, t.0);
    let xs = b.subrange(2, b.len() as int);
    assert forall|i: int| 0 <= i < xs.len() implies (child_fn(2))(#[trigger] xs[i]) == Ok::<Seq<u32>, YamlError>(t.1[i]) by {
        assert(xs[i] == b[i + 2]);
        assert(ls[i + 2] == seq!['-', ' '] + array_chars(t.1[i]));
        lemma_labelled("- "@, t.1[i]);
    }
    lemma_fold_all(xs, child_fn(2), t.1);
}

/// A type 5 item that is either one number or a nonempty list of lines.
pub open spec fn type5_faithful(t: (Option<u32>, Seq<(u8, u8, u16, u32, u32, u32)>)) -> bool {
    match t.0 {
        Some(_) => t.1.len() == 0,
        None => t.1.len() > 0,
    }
}

/// A type 5 item reads back from its lines under a list.
pub proof fn lemma_type5_item(t: (Option<u32>, Seq<(u8, u8, u16, u32, u32, u32)>))
    requires
        type5_faithful(t),
    ensures
        Type5Data::from_yaml_spec(item_block(Type5Data::yaml_spec(t)), 2) == Ok::<(Option<u32>, Seq<(u8, u8, u16, u32, u32, u32)>), YamlError>(t),
{
    reveal_strlit("lines:");
    assert("lines:"@ =~= seq!['l', 'i', 'n', 'e', 's', ':']);
    reveal_strlit("- ");
    assert("- "@ =~= seq!['-', ' ']);
    let ls = type5_yaml(t);
    lemma_item_block(ls);
    let b = item_block(ls);
    match t.0 {
        Some(x) => {
            lemma_parse_dec(x as nat, u32::MAX as nat);
            assert((x as nat) as u32 == x);
            assert(t.1 =~= Seq::<(u8, u8, u16, u32, u32, u32)>::empty());
        },
        None => {
            let xs = b.drop_first();
            assert forall|i: int| 0 <= i < xs.len() implies (line5_fn(2))(#[trigger] xs[i]) == Ok::<(u8, u8, u16, u32, u32, u32), YamlError>(t.1[i]) by {
                assert(xs[i] == b[i + 1]);
                let l = t.1[i];
                assert(ls[i + 1] == seq!['-', ' '] + array_chars(tuple_array(l)));
                lemma_labelled("- "@, tuple_array(l));
                let v = tuple_array(l);
                assert(v[0] == l.0 as u32 && v[1] == l.1 as u32 && v[2] == l.2 as u32);
                assert((v[0] as u8, v[1] as u8, v[2] as u16, v[3], v[4], v[5]) == l);
            }
            lemma_fold_all(xs, line5_fn(2), t.1);
        },
    }
}

/// Each command's argument count is the number of its arguments.
pub open spec fn commands_faithful(t: Seq<(u8, u8, u16, u32, Seq<u32>)>) -> bool {
    forall|i: int| 0 <= i < t.len() ==> (#[trigger] t[i]).4.len() == t[i].2
}

/// A type 6 item reads back from its lines under a list.
pub proof fn lemma_type6_item(t: Seq<(u8, u8, u16, u32, Seq<u32>)>)
    requires
        commands_faithful(t),
    ensures
        Type6Data::from_yaml_spec(item_block(Type6Data::yaml_spec(t)), 2) == Ok::<Seq<(u8, u8, u16, u32, Seq<u32>)>, YamlError>(t),
{
    reveal_strlit("commands:");
    assert("commands:"@ =~= seq!['c', 'o', 'm', 'm', 'a', 'n', 'd', 's', ':']);
    reveal_strlit("- ");
    assert("- "@ =~= seq!['-', ' ']);
    let ls = type6_yaml(t);
    lemma_item_block(ls);
    let b = item_block(ls);
    let xs = b.drop_first();
    assert forall|i: int| 0 <= i < xs.len() implies (command_item_fn(2))(#[trigger] xs[i]) == Ok::<(u8, u8, u16, u32, Seq<u32>), YamlError>(t[i]) by {
        assert(xs[i] == b[i + 1]);
        assert(ls[i + 1] == seq!['-', ' '] + command_yaml(t[i]));
        lemma_after("- "@, command_yaml(t[i]));
        lemma_command_roundtrip(t[i]);
    }
    lemma_fold_all(xs, command_item_fn(2), t);
}

proof fn lemma_join_extend(ls: Seq<Seq<char>>, c: char)
    requires
        ls.len() >= 1,
    ensures
        join_newlines(ls.update(ls.len() - 1, ls.last().push(c))) == join_newlines(ls).push(c),
{
    let u = ls.update(ls.len() - 1, ls.last().push(c));
    if ls.len() > 1 {
        assert(u.drop_last() =~= ls.drop_last());
        assert(join_newlines(u) =~= join_newlines(ls).push(c));
    }
}

/// Text cut at its newlines and joined again by newlines is the text.
pub proof fn lemma_join_split(t: Seq<char>)
    ensures
        join_newlines(split_char(t, '\n')) == t,
    decreases t.len(),
{
    if t.len() == 0 {
        assert(t =~= Seq::<char>::empty());
    } else {
        let prev = split_char(t.drop_last(), '\n');
        lemma_join_split(t.drop_last());
        crate::text::lemma_split_char_nonempty(t.drop_last(), '\n');
        if t.last() == '\n' {
            let p = prev.push(Seq::<char>::empty());
            assert(p.drop_last() =~= prev);
            assert(join_newlines(p) =~= t);
        } else {
            lemma_join_extend(prev, t.last());
            assert(t.drop_last().push(t.last()) =~= t);
        }
    }
}

/// A text other than the lone `|`, which stands for the empty text.
pub open spec fn text_faithful(t: Seq<char>) -> bool {
    t != seq!['|']
}

/// A type 7 item reads back from its lines under a list.
pub proof fn lemma_type7_item(t: Seq<char>)
    requires
        text_faithful(t),
    ensures
        Type7Data::from_yaml_spec(item_block(Type7Data::yaml_spec(t)), 2) == Ok::<Seq<char>, YamlError>(t),
{
    reveal_strlit("|");
    assert("|"@ =~= seq!['|']);
    reveal_strlit("|-");
    assert("|-"@ =~= seq!['|', '-']);
    reveal_strlit("|+");
    assert("|+"@ =~= seq!['|', '+']);
    let parts = split_char(t, '\n');
    crate::text::lemma_split_char_nonempty(t, '\n');
    lemma_join_split(t);
    let ls = type7_yaml(t);
    lemma_item_block(ls);
    let b = item_block(ls);
    let body = b.drop_first().map_values(|l: Seq<char>| dedent(l, 2));
    assert(body =~= ls.drop_first());
    if parts.len() == 1 {
        assert(join_newlines(parts) == parts[0]);
    } else if parts.last().len() == 0 {
        assert(ls.drop_first() =~= parts.drop_last());
        assert(parts.drop_last().push(Seq::<char>::empty()) =~= parts);
    } else {
        assert(ls.drop_first() =~= parts);
        assert(drop_empty_tail(parts) == parts);
    }
}

/// A run on its own: its first line does not go on the run before it, the
/// others do.
pub open spec fn fresh_run(b: Seq<Seq<char>>, top: bool) -> bool {
    &&& b.len() >= 1
    &&& !continues(top, b[0])
    &&& forall|i: int| 1 <= i < b.len() ==> continues(top, #[trigger] b[i])
}

/// Lines that make a run on their own, after any lines, add that run.
pub proof fn lemma_runs_append(a: Seq<Seq<char>>, b: Seq<Seq<char>>, top: bool)
    requires
        fresh_run(b, top),
    ensures
        runs(a + b, top) == runs(a, top).push(b),
    decreases b.len(),
{
    let x = a + b;
    if b.len() == 1 {
        assert(x.drop_last() =~= a);
        assert(seq![b[0]] =~= b);
    } else {
        let b2 = b.drop_last();
        assert forall|i: int| 1 <= i < b2.len() implies continues(top, #[trigger] b2[i]) by {
            assert(b2[i] == b[i]);
        }
        lemma_runs_append(a, b2, top);
        assert(x.drop_last() =~= a + b2);
        assert(continues(top, b[b.len() - 1]));
        assert(b2.push(b.last()) =~= b);
    }
}

/// Blocks that are each a run on their own are the runs of their lines.
pub proof fn lemma_runs_flatten(bs: Seq<Seq<Seq<char>>>, top: bool)
    requires
        forall|i: int| 0 <= i < bs.len() ==> fresh_run(#[trigger] bs[i], top),
    ensures
        runs(bs.flatten(), top) == bs,
    decreases bs.len(),
{
    broadcast use vstd::seq::Seq::group_seq_flatten;
    if bs.len() == 0 {
        assert(bs.flatten() =~= Seq::<Seq<char>>::empty());
        assert(bs =~= Seq::<Seq<Seq<char>>>::empty());
    } else {
        let dl = bs.drop_last();
        assert forall|i: int| 0 <= i < dl.len() implies fresh_run(#[trigger] dl[i], top) by {
            assert(dl[i] == bs[i]);
        }
        lemma_runs_flatten(dl, top);
        assert(dl.push(bs.last()) =~= bs);
        assert(fresh_run(bs[bs.len() - 1], top));
        lemma_runs_append(dl.flatten(), bs.last(), top);
    }
}

/// Every line of blocks whose lines all go on a run at the top level does so.
proof fn lemma_flatten_top(bs: Seq<Seq<Seq<char>>>)
    requires
        forall|i: int, j: int| 0 <= i < bs.len() && 0 <= j < bs[i].len() ==> top_cont(#[trigger] bs[i][j]),
    ensures
        forall|k: int| 0 <= k < bs.flatten().len() ==> top_cont(#[trigger] bs.flatten()[k]),
    decreases bs.len(),
{
    broadcast use vstd::seq::Seq::group_seq_flatten;
    if bs.len() == 0 {
        assert(bs.flatten() =~= Seq::<Seq<char>>::empty());
    } else {
        let dl = bs.drop_last();
        assert forall|i: int, j: int| 0 <= i < dl.len() && 0 <= j < dl[i].len() implies top_cont(#[trigger] dl[i][j]) by {
            assert(dl[i] == bs[i]);
        }
        lemma_flatten_top(dl);
        assert(dl.push(bs.last()) =~= bs);
        let f = bs.flatten();
        assert(f =~= dl.flatten() + bs.last());
        assert forall|k: int| 0 <= k < f.len() implies top_cont(#[trigger] f[k]) by {
            if k >= dl.flatten().len() {
                let j = k - dl.flatten().len();
                assert(f[k] == bs[bs.len() - 1][j]);
            } else {
                assert(f[k] == dl.flatten()[k]);
            }
        }
    }
}

/// A section's items, under its header, read back as those items; its lines
/// after the header each go on the header's run.
pub proof fn lemma_section_body<T: YamlItem + YamlParse>(h: Seq<char>, vs: Seq<T::V>)
    requires
        forall|i: int| 0 <= i < vs.len() ==> (#[trigger] T::yaml_spec(vs[i])).len() >= 1,
        forall|i: int| 0 <= i < vs.len() ==> T::from_yaml_spec(item_block(#[trigger] T::yaml_spec(vs[i])), 2) == Ok::<T::V, YamlError>(vs[i]),
    ensures
        section_lines::<T>(h, Some(vs)).len() >= 1,
        section_lines::<T>(h, Some(vs))[0] == h,
        deyaml_spec::<T>(section_lines::<T>(h, Some(vs)).drop_first()) == Ok::<Seq<T::V>, YamlError>(vs),
        forall|k: int| 1 <= k < section_lines::<T>(h, Some(vs)).len() ==> top_cont(#[trigger] section_lines::<T>(h, Some(vs))[k]),
{
    reveal(deyaml_spec);
    reveal_strlit("- ");
    reveal_strlit("  ");
    assert("- "@ =~= seq!['-', ' ']);
    assert("  "@ =~= seq![' ', ' ']);
    let items = vs.map_values(|v: T::V| T::yaml_spec(v));
    let bs = items.map_values(|ls: Seq<Seq<char>>| item_block(ls));
    let y = yamlify_spec(items);
    assert(y == bs.flatten());
    let sl = section_lines::<T>(h, Some(vs));
    assert(sl == seq![h] + y);
    assert(sl.drop_first() =~= y);
    assert forall|i: int| 0 <= i < bs.len() implies fresh_run(#[trigger] bs[i], false) by {
        assert(bs[i] == item_block(T::yaml_spec(vs[i])));
        let ls = T::yaml_spec(vs[i]);
        lemma_item_block(ls);
        assert(ls.len() >= 1);
        assert(bs[i][0].subrange(0, 2) =~= seq!['-', ' ']);
        assert(!continues(false, bs[i][0]));
        assert forall|j: int| 1 <= j < bs[i].len() implies continues(false, #[trigger] bs[i][j]) by {
            assert(bs[i][j] == seq![' ', ' '] + ls[j]);
            assert(bs[i][j].subrange(0, 2)[0] == ' ');
            assert(bs[i][j].subrange(0, 2) != "- "@);
        }
    }
    lemma_runs_flatten(bs, false);
    assert forall|i: int| 0 <= i < bs.len() implies (item_fn::<T>())(#[trigger] bs[i]) == Ok::<T::V, YamlError>(vs[i]) by {
        assert(bs[i] == item_block(T::yaml_spec(vs[i])));
    }
    lemma_fold_all(bs, item_fn::<T>(), vs);
    assert forall|i: int, j: int| 0 <= i < bs.len() && 0 <= j < bs[i].len() implies top_cont(#[trigger] bs[i][j]) by {
        let ls = T::yaml_spec(vs[i]);
        assert(bs[i] == item_block(ls));
        lemma_item_block(ls);
        if j == 0 {
            assert(bs[i][j].subrange(0, 2) =~= "- "@);
        } else {
            assert(bs[i][j] == seq![' ', ' '] + ls[j]);
            assert(bs[i][j].subrange(0, 2) =~= "  "@);
        }
    }
    lemma_flatten_top(bs);
    assert forall|k: int| 1 <= k < sl.len() implies top_cont(#[trigger] sl[k]) by {
        assert(sl[k] == y[k - 1]);
    }
}

proof fn lemma_labels()
    ensures
        "type2data:"@ == seq!['t', 'y', 'p', 'e', '2', 'd', 'a', 't', 'a', ':'],
        "type3data:"@ == seq!['t', 'y', 'p', 'e', '3', 'd', 'a', 't', 'a', ':'],
        "type5data:"@ == seq!['t', 'y', 'p', 'e', '5', 'd', 'a', 't', 'a', ':'],
        "type6data:"@ == seq!['t', 'y', 'p', 'e', '6', 'd', 'a', 't', 'a', ':'],
        "type7data:"@ == seq!['t', 'y', 'p', 'e', '7', 'd', 'a', 't', 'a', ':'],
        "footer: "@ == seq!['f', 'o', 'o', 't', 'e', 'r', ':', ' '],
        "datetime: "@ == seq!['d', 'a', 't', 'e', 't', 'i', 'm', 'e', ':', ' '],
        "- "@ == seq!['-', ' '],
        "  "@ == seq![' ', ' '],
{
    reveal_strlit("type2data:");
    reveal_strlit("type3data:");
    reveal_strlit("type5data:");
    reveal_strlit("type6data:");
    reveal_strlit("type7data:");
    reveal_strlit("footer: ");
    reveal_strlit("datetime: ");
    reveal_strlit("- ");
    reveal_strlit("  ");
    assert("type2data:"@ =~= seq!['t', 'y', 'p', 'e', '2', 'd', 'a', 't', 'a', ':']);
    assert("type3data:"@ =~= seq!['t', 'y', 'p', 'e', '3', 'd', 'a', 't', 'a', ':']);
    assert("type5data:"@ =~= seq!['t', 'y', 'p', 'e', '5', 'd', 'a', 't', 'a', ':']);
    assert("type6data:"@ =~= seq!['t', 'y', 'p', 'e', '6', 'd', 'a', 't', 'a', ':']);
    assert("type7data:"@ =~= seq!['t', 'y', 'p', 'e', '7', 'd', 'a', 't', 'a', ':']);
    assert("footer: "@ =~= seq!['f', 'o', 'o', 't', 'e', 'r', ':', ' ']);
    assert("datetime: "@ =~= seq!['d', 'a', 't', 'e', 't', 'i', 'm', 'e', ':', ' ']);
    assert("- "@ =~= seq!['-', ' ']);
    assert("  "@ =~= seq![' ', ' ']);
}

/// A line that begins with a letter starts a run at the top level.
proof fn lemma_letter_line(l: Seq<char>)
    requires
        l.len() >= 2,
        'a' <= l[0] <= 'z',
    ensures
        !top_cont(l),
{
    lemma_labels();
    assert(l.subrange(0, 2)[0] == l[0]);
}

/// A section under its header makes a run of its own at the top level.
proof fn lemma_section_run<T: YamlItem + YamlParse>(h: Seq<char>, vs: Seq<T::V>)
    requires
        h.len() >= 2,
        'a' <= h[0] <= 'z',
        section_lines::<T>(h, Some(vs)).len() >= 1,
        section_lines::<T>(h, Some(vs))[0] == h,
        forall|k: int| 1 <= k < section_lines::<T>(h, Some(vs)).len() ==> top_cont(#[trigger] section_lines::<T>(h, Some(vs))[k]),
    ensures
        fresh_run(section_lines::<T>(h, Some(vs)), true),
{
    lemma_letter_line(h);
}

proof fn lemma_step2(st: Fields, vs: Seq<Seq<u32>>)
    requires
        forall|i: int| 0 <= i < vs.len() ==> (#[trigger] vs[i]).len() == 7,
    ensures
        fresh_run(section_lines::<Type2Data>("type2data:"@, Some(vs)), true),
        section_step(st, section_lines::<Type2Data>("type2data:"@, Some(vs))) == Ok::<Fields, YamlError>((Some(vs), st.1, st.2, st.3, st.4, st.5)),
{
    reveal(section_step);
    lemma_labels();
    assert forall|i: int| 0 <= i < vs.len() implies Type2Data::from_yaml_spec(item_block(#[trigger] Type2Data::yaml_spec(vs[i])), 2) == Ok::<Seq<u32>, YamlError>(vs[i]) by {
        lemma_type2_item(vs[i]);
    }
    lemma_section_body::<Type2Data>("type2data:"@, vs);
    lemma_section_run::<Type2Data>("type2data:"@, vs);
}

proof fn lemma_step3(st: Fields, vs: Seq<(Seq<u32>, Seq<Seq<u32>>)>)
    requires
        forall|i: int| 0 <= i < vs.len() ==> (#[trigger] vs[i]).0.len() == 7 && (forall|j: int| 0 <= j < vs[i].1.len() ==> (#[trigger] vs[i].1[j]).len() == 4),
    ensures
        fresh_run(section_lines::<Type3Data>("type3data:"@, Some(vs)), true),
        section_step(st, section_lines::<Type3Data>("type3data:"@, Some(vs))) == Ok::<Fields, YamlError>((st.0, Some(vs), st.2, st.3, st.4, st.5)),
{
    reveal(section_step);
    lemma_labels();
    assert forall|i: int| 0 <= i < vs.len() implies Type3Data::from_yaml_spec(item_block(#[trigger] Type3Data::yaml_spec(vs[i])), 2) == Ok::<(Seq<u32>, Seq<Seq<u32>>), YamlError>(vs[i]) by {
        lemma_type3_item(vs[i]);
    }
    lemma_section_body::<Type3Data>("type3data:"@, vs);
    lemma_section_run::<Type3Data>("type3data:"@, vs);
    assert("type3data:"@[4] != "type2data:"@[4]);
}

proof fn lemma_step5(st: Fields, vs: Seq<(Option<u32>, Seq<(u8, u8, u16, u32, u32, u32)>)>)
    requires
        forall|i: int| 0 <= i < vs.len() ==> type5_faithful(#[trigger] vs[i]),
    ensures
        fresh_run(section_lines::<Type5Data>("type5data:"@, Some(vs)), true),
        section_step(st, section_lines::<Type5Data>("type5data:"@, Some(vs))) == Ok::<Fields, YamlError>((st.0, st.1, Some(vs), st.3, st.4, st.5)),
{
    reveal(section_step);
    lemma_labels();
    assert forall|i: int| 0 <= i < vs.len() implies Type5Data::from_yaml_spec(item_block(#[trigger] Type5Data::yaml_spec(vs[i])), 2) == Ok::<(Option<u32>, Seq<(u8, u8, u16, u32, u32, u32)>), YamlError>(vs[i]) by {
        lemma_type5_item(vs[i]);
    }
    assert forall|i: int| 0 <= i < vs.len() implies (#[trigger] Type5Data::yaml_spec(vs[i])).len() >= 1 by {
        assert(type5_faithful(vs[i]));
    }
    lemma_section_body::<Type5Data>("type5data:"@, vs);
    lemma_section_run::<Type5Data>("type5data:"@, vs);
    assert("type5data:"@[4] != "type2data:"@[4]);
    assert("type5data:"@[4] != "type3data:"@[4]);
}

proof fn lemma_step6(st: Fields, vs: Seq<Seq<(u8, u8, u16, u32, Seq<u32>)>>)
    requires
        forall|i: int| 0 <= i < vs.len() ==> commands_faithful(#[trigger] vs[i]),
    ensures
        fresh_run(section_lines::<Type6Data>("type6data:"@, Some(vs)), true),
        section_step(st, section_lines::<Type6Data>("type6data:"@, Some(vs))) == Ok::<Fields, YamlError>((st.0, st.1, st.2, Some(vs), st.4, st.5)),
{
    reveal(section_step);
    lemma_labels();
    assert forall|i: int| 0 <= i < vs.len() implies Type6Data::from_yaml_spec(item_block(#[trigger] Type6Data::yaml_spec(vs[i])), 2) == Ok::<Seq<(u8, u8, u16, u32, Seq<u32>)>, YamlError>(vs[i]) by {
        lemma_type6_item(vs[i]);
    }
    lemma_section_body::<Type6Data>("type6data:"@, vs);
    lemma_section_run::<Type6Data>("type6data:"@, vs);
    assert("type6data:"@[4] != "type2data:"@[4]);
    assert("type6data:"@[4] != "type3data:"@[4]);
    assert("type6data:"@[4] != "type5data:"@[4]);
}

proof fn lemma_step7(st: Fields, vs: Seq<Seq<char>>)
    requires
        forall|i: int| 0 <= i < vs.len() ==> text_faithful(#[trigger] vs[i]),
    ensures
        fresh_run(section_lines::<Type7Data>("type7data:"@, Some(vs)), true),
        section_step(st, section_lines::<Type7Data>("type7data:"@, Some(vs))) == Ok::<Fields, YamlError>((st.0, st.1, st.2, st.3, Some(vs), st.5)),
{
    reveal(section_step);
    lemma_labels();
    assert forall|i: int| 0 <= i < vs.len() implies Type7Data::from_yaml_spec(item_block(#[trigger] Type7Data::yaml_spec(vs[i])), 2) == Ok::<Seq<char>, YamlError>(vs[i]) by {
        lemma_type7_item(vs[i]);
    }
    assert forall|i: int| 0 <= i < vs.len() implies (#[trigger] Type7Data::yaml_spec(vs[i])).len() >= 1 by {
        crate::text::lemma_split_char_nonempty(vs[i], '\n');
    }
    lemma_section_body::<Type7Data>("type7data:"@, vs);
    lemma_section_run::<Type7Data>("type7data:"@, vs);
    assert("type7data:"@[4] != "type2data:"@[4]);
    assert("type7data:"@[4] != "type3data:"@[4]);
    assert("type7data:"@[4] != "type5data:"@[4]);
    assert("type7data:"@[4] != "type6data:"@[4]);
}

proof fn lemma_step_footer(st: Fields, f: Seq<u32>)
    requires
        f.len() == 6,
    ensures
        fresh_run(seq!["footer: "@ + array_chars(f)], true),
        section_step(st, seq!["footer: "@ + array_chars(f)]) == Ok::<Fields, YamlError>((st.0, st.1, st.2, st.3, st.4, f)),
{
    reveal(section_step);
    lemma_labels();
    let l = "footer: "@ + array_chars(f);
    assert(l[0] == 'f');
    lemma_letter_line(l);
    assert(l != "type2data:"@ && l != "type3data:"@ && l != "type5data:"@ && l != "type6data:"@ && l != "type7data:"@) by {
        assert(l[0] != "type2data:"@[0]);
    }
    assert(seq![l][0] == l);
    assert(seq![l].drop_first().len() == 0);
    lemma_labelled("footer: "@, f);
}

/// One more top-level run, read as a section or the footer, or no lines at
/// all.
proof fn lemma_add_run(a: Seq<Seq<char>>, sl: Seq<Seq<char>>, st: Fields, st2: Fields)
    requires
        runs(a, true).len() >= 1,
        sections_spec(runs(a, true).drop_first()) == Ok::<Fields, YamlError>(st),
        sl.len() == 0 ==> st2 == st,
        sl.len() > 0 ==> fresh_run(sl, true) && section_step(st, sl) == Ok::<Fields, YamlError>(st2),
    ensures
        runs(a + sl, true).len() >= 1,
        runs(a + sl, true)[0] == runs(a, true)[0],
        sections_spec(runs(a + sl, true).drop_first()) == Ok::<Fields, YamlError>(st2),
{
    if sl.len() == 0 {
        assert(a + sl =~= a);
    } else {
        let r = runs(a, true);
        lemma_runs_append(a, sl, true);
        assert(r.push(sl).drop_first() =~= r.drop_first().push(sl));
        assert(r.drop_first().push(sl).drop_last() =~= r.drop_first());
    }
}

/// The shapes that every `.bbq` value has: seven numbers in each type 2 item
/// and in each type 3 item's head, four in each child, six in the footer.
pub open spec fn well_shaped(b: BbqView) -> bool {
    &&& (b.1 matches Some(vs) ==> forall|i: int| 0 <= i < vs.len() ==> (#[trigger] vs[i]).len() == 7)
    &&& (b.2 matches Some(vs) ==> forall|i: int| 0 <= i < vs.len() ==> (#[trigger] vs[i]).0.len() == 7
        && (forall|j: int| 0 <= j < vs[i].1.len() ==> (#[trigger] vs[i].1[j]).len() == 4))
    &&& b.6.len() == 6
}

/// What the YAML document can say of a `.bbq` value: each type 5 item is one
/// number or a nonempty list of lines, each command's argument count is its
/// number of arguments, and no text is the lone `|`.
pub open spec fn yaml_faithful(b: BbqView) -> bool {
    &&& (b.3 matches Some(vs) ==> forall|i: int| 0 <= i < vs.len() ==> type5_faithful(#[trigger] vs[i]))
    &&& (b.4 matches Some(vs) ==> forall|i: int| 0 <= i < vs.len() ==> commands_faithful(#[trigger] vs[i]))
    &&& (b.5 matches Some(vs) ==> forall|i: int| 0 <= i < vs.len() ==> text_faithful(#[trigger] vs[i]))
}

/// Reading a `.bbq` value's YAML document gives the value back.
#[verifier::rlimit(30)]
pub proof fn lemma_bbq_yaml_roundtrip_view(b: BbqView)
    requires
        well_shaped(b),
        yaml_faithful(b),
    ensures
        bbq_yaml_spec(bbq_yaml(b)) == Ok::<BbqView, YamlError>(b),
{
    lemma_labels();
    let dl = "datetime: "@ + dec_chars(b.0 as nat);
    let l0 = seq![dl];
    let s2 = section_lines::<Type2Data>("type2data:"@, b.1);
    let s3 = section_lines::<Type3Data>("type3data:"@, b.2);
    let s5 = section_lines::<Type5Data>("type5data:"@, b.3);
    let s6 = section_lines::<Type6Data>("type6data:"@, b.4);
    let s7 = section_lines::<Type7Data>("type7data:"@, b.5);
    let sf = if b.6 != zero_footer() {
        seq!["footer: "@ + array_chars(b.6)]
    } else {
        Seq::<Seq<char>>::empty()
    };
    let f0: Fields = (None, None, None, None, None, zero_footer());
    let f1: Fields = (b.1, None, None, None, None, zero_footer());
    let f2: Fields = (b.1, b.2, None, None, None, zero_footer());
    let f3: Fields = (b.1, b.2, b.3, None, None, zero_footer());
    let f4: Fields = (b.1, b.2, b.3, b.4, None, zero_footer());
    let f5: Fields = (b.1, b.2, b.3, b.4, b.5, zero_footer());
    let f6: Fields = (b.1, b.2, b.3, b.4, b.5, b.6);
    assert(l0.drop_last() =~= Seq::<Seq<char>>::empty());
    assert(runs(l0.drop_last(), true) =~= Seq::<Seq<Seq<char>>>::empty());
    assert(l0.last() == dl);
    assert(runs(l0, true) =~= seq![l0]);
    assert(runs(l0, true).drop_first() =~= Seq::<Seq<Seq<char>>>::empty());
    match b.1 {
        Some(vs) => lemma_step2(f0, vs),
        None => {},
    }
    lemma_add_run(l0, s2, f0, f1);
    match b.2 {
        Some(vs) => lemma_step3(f1, vs),
        None => {},
    }
    lemma_add_run(l0 + s2, s3, f1, f2);
    match b.3 {
        Some(vs) => lemma_step5(f2, vs),
        None => {},
    }
    lemma_add_run(l0 + s2 + s3, s5, f2, f3);
    match b.4 {
        Some(vs) => lemma_step6(f3, vs),
        None => {},
    }
    lemma_add_run(l0 + s2 + s3 + s5, s6, f3, f4);
    match b.5 {
        Some(vs) => lemma_step7(f4, vs),
        None => {},
    }
    lemma_add_run(l0 + s2 + s3 + s5 + s6, s7, f4, f5);
    if b.6 != zero_footer() {
        lemma_step_footer(f5, b.6);
    } else {
        assert(b.6 =~= zero_footer());
    }
    lemma_add_run(l0 + s2 + s3 + s5 + s6 + s7, sf, f5, f6);
    let all = l0 + s2 + s3 + s5 + s6 + s7 + sf;
    assert(bbq_yaml(b) == all);
    let cs = runs(all, true);
    assert(cs[0] == l0);
    lemma_after("datetime: "@, dec_chars(b.0 as nat));
    lemma_parse_dec(b.0 as nat, u32::MAX as nat);
    assert((b.0 as nat) as u32 == b.0);
}

/// Reading the YAML document of a `.bbq` file gives the file back, when each
/// type 5 item is one number or a nonempty list of lines, each command's
/// argument count is its number of arguments, and no text is the lone `|`.
pub proof fn lemma_bbq_yaml_roundtrip(b: Bbq)
    requires
        yaml_faithful(b@),
    ensures
        bbq_yaml_spec(bbq_yaml(b@)) == Ok::<BbqView, YamlError>(b@),
{
    let v = b@;
    match b.type2data {
        Some(items) => {
            assert forall|i: int| 0 <= i < items@.len() implies (#[trigger] v.1->0[i]).len() == 7 by {
                assert(v.1->0[i] == items@[i].data@);
            }
        },
        None => {},
    }
    match b.type3data {
        Some(items) => {
            assert forall|i: int| 0 <= i < items@.len() implies (#[trigger] v.2->0[i]).0.len() == 7
                && (forall|j: int| 0 <= j < v.2->0[i].1.len() ==> (#[trigger] v.2->0[i].1[j]).len() == 4) by {
                assert(v.2->0[i] == items@[i]@);
                assert forall|j: int| 0 <= j < v.2->0[i].1.len() implies (#[trigger] v.2->0[i].1[j]).len() == 4 by {
                    assert(v.2->0[i].1[j] == items@[i].children@[j]@);
                }
            }
        },
        None => {},
    }
    assert(well_shaped(v));
    lemma_bbq_yaml_roundtrip_view(v);
}

} // verus!
