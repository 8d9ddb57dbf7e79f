//! The text of `.bbq` files: their strings, and the lines of message scripts
//! with their speakers, as rows of comma-separated text.
use vstd::prelude::*;
use crate::bbq::{Bbq, Type2Data, Type5Data, Type6Data, Type7Data};
use crate::sjis::{sjis_encode, sj_len};
use crate::text::{chars_of, string_of, push_decimal, dec_chars};

verus! {

/// A line of a message script: who says it, its voice clip, and its text.
pub struct ScriptLine {
    pub speaker_id: u8,
    pub audio_flag: u8,
    pub audio_id: u16,
    pub speaker_text: String,
    pub line_text: String,
}

/// A script line as plain values: ids, speaker text, line text.
pub type ScriptLineView = (u8, u8, u16, Seq<char>, Seq<char>);

impl View for ScriptLine {
    type V = ScriptLineView;

    open spec fn view(&self) -> ScriptLineView {
        (self.speaker_id, self.audio_flag, self.audio_id, self.speaker_text@, self.line_text@)
    }
}

/// The views of script lines.
pub open spec fn lines_view(lines: Seq<ScriptLine>) -> Seq<ScriptLineView> {
    lines.map_values(|l: ScriptLine| l@)
}

/// `s` with every `"` doubled, as a quoted csv field holds it.
pub open spec fn double_quotes(s: Seq<char>) -> Seq<char>
    decreases s.len(),
{
    if s.len() == 0 {
        Seq::empty()
    } else if s.last() == '"' {
        double_quotes(s.drop_last()) + seq!['"', '"']
    } else {
        double_quotes(s.drop_last()).push(s.last())
    }
}

fn push_quoted(out: &mut Vec<char>, s: &str)
    ensures
        final(out)@ == old(out)@ + seq!['"'] + double_quotes(s@) + seq!['"'],
{
    let cs = chars_of(s);
    out.push('"');
    let ghost start = out@;
    let mut i: usize = 0;
    while i < cs.len()
        invariant
            i <= cs@.len(),
            cs@ == s@,
            out@ == start + double_quotes(cs@.subrange(0, i as int)),
        decreases cs@.len() - i,
    {
        let c = cs[i];
        assert(cs@.subrange(0, i + 1).drop_last() =~= cs@.subrange(0, i as int));
        if c == '"' {
            out.push('"');
            out.push('"');
        } else {
            out.push(c);
        }
        i = i + 1;
        assert(out@ =~= start + double_quotes(cs@.subrange(0, i as int)));
    }
    assert(cs@.subrange(0, cs@.len() as int) =~= s@);
    out.push('"');
    assert(final(out)@ =~= old(out)@ + seq!['"'] + double_quotes(s@) + seq!['"']);
}

/// The csv row of a script line: the three numbers, then the speaker text and
/// the line text in quotes, separated by commas.
pub open spec fn csv_row(l: ScriptLine) -> Seq<char> {
    dec_chars(l.speaker_id as nat) + seq![','] + dec_chars(l.audio_flag as nat) + seq![',']
        + dec_chars(l.audio_id as nat) + seq![','] + seq!['"'] + double_quotes(l.speaker_text@)
        + seq!['"'] + seq![','] + seq!['"'] + double_quotes(l.line_text@) + seq!['"']
}

/// A string as a quoted csv field: between double quotes, with each `"`
/// in it doubled.
pub fn string_csv_field(s: &str) -> (r: String)
    ensures
        r@ == seq!['"'] + double_quotes(s@) + seq!['"'],
{
    let mut out: Vec<char> = Vec::new();
    push_quoted(&mut out, s);
    assert(out@ =~= seq!['"'] + double_quotes(s@) + seq!['"']);
    string_of(out.as_slice())
}

impl ScriptLine {
    /// The line as a comma-separated row (see `csv_row`).
    pub fn to_csv_string(&self) -> (r: String)
        ensures
            r@ == csv_row(*self),
    {
        let mut out: Vec<char> = Vec::new();
        push_decimal(&mut out, self.speaker_id as u64);
        out.push(',');
        push_decimal(&mut out, self.audio_flag as u64);
        out.push(',');
        push_decimal(&mut out, self.audio_id as u64);
        out.push(',');
        push_quoted(&mut out, self.speaker_text.as_str());
        out.push(',');
        push_quoted(&mut out, self.line_text.as_str());
        assert(out@ =~= csv_row(*self));
        string_of(out.as_slice())
    }
}

/// The texts of the type 7 items, each line of a script refers to them by index.
pub open spec fn texts_of(b: Bbq) -> Seq<Seq<char>> {
    b.type7data->0@.map_values(|t: Type7Data| t.text@)
}

/// The strings of the file: the texts of its type 7 items but the first.
pub open spec fn strings_of(b: Bbq) -> Option<Seq<Seq<char>>> {
    if b.type7data is Some {
        if texts_of(b).len() == 0 {
            Some(Seq::empty())
        } else {
            Some(texts_of(b).drop_first())
        }
    } else {
        None
    }
}

/// The one type 5 item of a message script.
pub open spec fn script_item(b: Bbq) -> Type5Data {
    b.type5data->0@[0]
}

/// Every text index of every script line refers to an existing text.
pub open spec fn script_refs_ok(b: Bbq) -> bool {
    (b.type5data matches Some(v) && v@.len() == 1 && b.type7data is Some) ==> forall|i: int|
        0 <= i < script_item(b).lines@.len() ==> {
            let l = #[trigger] script_item(b).lines@[i];
            &&& l.3 < texts_of(b).len()
            &&& l.4 < texts_of(b).len()
            &&& l.5 < texts_of(b).len()
        }
}

/// The script lines of a message script: each line's numbers, speaker text,
/// and its two texts joined by a newline.
pub open spec fn script_line_ok(b: Bbq, l: (u8, u8, u16, u32, u32, u32), s: ScriptLine) -> bool {
    &&& s.speaker_id == l.0
    &&& s.audio_flag == l.1
    &&& s.audio_id == l.2
    &&& s.speaker_text@ == texts_of(b)[l.3 as int]
    &&& s.line_text@ == texts_of(b)[l.4 as int] + seq!['\n'] + texts_of(b)[l.5 as int]
}

impl Bbq {
    /// The strings of the file (its type 7 texts but the first), `None` when it
    /// has no type 7 section.
    pub fn get_strings(&self) -> (r: Option<Vec<&str>>)
        ensures
            match r {
                Some(v) => strings_of(*self) == Some(v@.map_values(|s: &str| s@)),
                None => strings_of(*self) is None,
            },
    {
        let texts = match &self.type7data {
            Some(t) => t,
            None => return None,
        };
        let mut strings: Vec<&str> = Vec::new();
        if texts.len() == 0 {
            assert(strings@.map_values(|s: &str| s@) =~= Seq::<Seq<char>>::empty());
            return Some(strings);
        }
        let mut i: usize = 1;
        assert(strings@.map_values(|s: &str| s@) =~= texts_of(*self).subrange(1, 1));
        while i < texts.len()
            invariant
                1 <= i <= texts@.len(),
                self.type7data == Some(*texts),
                strings@.map_values(|s: &str| s@) == texts_of(*self).subrange(1, i as int),
            decreases texts@.len() - i,
        {
            let ghost before = strings@.map_values(|s: &str| s@);
            strings.push(texts[i].text.as_str());
            assert(strings@.map_values(|s: &str| s@) =~= before.push(texts@[i as int].text@));
            i = i + 1;
            assert(strings@.map_values(|s: &str| s@) =~= texts_of(*self).subrange(1, i as int));
        }
        assert(texts_of(*self).subrange(1, i as int) =~= texts_of(*self).drop_first());
        Some(strings)
    }

    /// The lines of a message script, `None` unless the file has exactly one
    /// type 5 item and a type 7 section.
    pub fn get_script_lines(&self) -> (r: Option<Vec<ScriptLine>>)
        requires
            script_refs_ok(*self),
        ensures
            (self.type5data matches Some(v) && v@.len() == 1 && self.type7data is Some) <==> r
                is Some,
            r matches Some(v) ==> v@.len() == script_item(*self).lines@.len() && forall|i: int|
                0 <= i < v@.len() ==> script_line_ok(
                    *self,
                    script_item(*self).lines@[i],
                    #[trigger] v@[i],
                ),
    {
        let type5data = match &self.type5data {
            Some(v) => {
                if v.len() != 1 {
                    return None;
                }
                &v[0]
            },
            None => return None,
        };
        let texts = match &self.type7data {
            Some(t) => t,
            None => return None,
        };
        let mut script_lines: Vec<ScriptLine> = Vec::new();
        let mut i: usize = 0;
        while i < type5data.lines.len()
            invariant
                i <= type5data.lines@.len(),
                *type5data == script_item(*self),
                self.type7data == Some(*texts),
                self.type5data matches Some(v) && v@.len() == 1,
                script_refs_ok(*self),
                script_lines@.len() == i,
                forall|k: int|
                    0 <= k < i ==> script_line_ok(
                        *self,
                        script_item(*self).lines@[k],
                        #[trigger] script_lines@[k],
                    ),
            decreases type5data.lines@.len() - i,
        {
            let line = type5data.lines[i];
            assert(line == script_item(*self).lines@[i as int]);
            let speaker_text = String::from_str(texts[line.3 as usize].text.as_str());
            let mut joined = chars_of(texts[line.4 as usize].text.as_str());
            joined.push('\n');
            let second = chars_of(texts[line.5 as usize].text.as_str());
            let mut k: usize = 0;
            let ghost j0 = joined@;
            while k < second.len()
                invariant
                    k <= second@.len(),
                    joined@ == j0 + second@.subrange(0, k as int),
                decreases second@.len() - k,
            {
                joined.push(second[k]);
                k = k + 1;
                assert(joined@ =~= j0 + second@.subrange(0, k as int));
            }
            assert(second@.subrange(0, second@.len() as int) =~= second@);
            assert(joined@ =~= texts@[line.4 as int].text@ + seq!['\n'] + texts@[line.5 as int].text@);
            let line_text = string_of(joined.as_slice());
            assert(texts_of(*self)[line.3 as int] == texts@[line.3 as int].text@);
            assert(texts_of(*self)[line.4 as int] == texts@[line.4 as int].text@);
            assert(texts_of(*self)[line.5 as int] == texts@[line.5 as int].text@);
            let ghost before = script_lines@;
            script_lines.push(
                ScriptLine {
                    speaker_id: line.0,
                    audio_flag: line.1,
                    audio_id: line.2,
                    speaker_text,
                    line_text,
                },
            );
            assert(script_line_ok(*self, line, script_lines@[i as int]));
            assert forall|k: int| 0 <= k < i + 1 implies script_line_ok(
                *self,
                script_item(*self).lines@[k],
                #[trigger] script_lines@[k],
            ) by {
                if k < i {
                    assert(script_lines@[k] == before[k]);
                }
            }
            i = i + 1;
        }
        Some(script_lines)
    }
}


/// The index of the first element of `list` equal to `item`, or `list.len()`.
pub open spec fn index_in(list: Seq<Seq<char>>, item: Seq<char>) -> int
    decreases list.len(),
{
    if list.len() == 0 {
        0
    } else if list[0] == item {
        0
    } else {
        1 + index_in(list.drop_first(), item)
    }
}

/// `list` with `item` appended unless it is already there.
pub open spec fn interned(list: Seq<Seq<char>>, item: Seq<char>) -> Seq<Seq<char>> {
    if index_in(list, item) < list.len() {
        list
    } else {
        list.push(item)
    }
}

proof fn lemma_index_in(list: Seq<Seq<char>>, item: Seq<char>)
    ensures
        0 <= index_in(list, item) <= list.len(),
        index_in(list, item) < list.len() ==> list[index_in(list, item)] == item,
        forall|j: int| 0 <= j < index_in(list, item) ==> list[j] != item,
    decreases list.len(),
{
    if list.len() > 0 && list[0] != item {
        lemma_index_in(list.drop_first(), item);
        assert forall|j: int| 0 <= j < index_in(list, item) implies list[j] != item by {
            if j > 0 {
                assert(list[j] == list.drop_first()[j - 1]);
            }
        }
    }
}

/// The index of `item` in `list`, appending it first if it is not there.
pub fn get_index(list: &mut Vec<String>, item: String) -> (r: usize)
    ensures
        r == index_in(old(list)@.map_values(|s: String| s@), item@),
        final(list)@.map_values(|s: String| s@) == interned(
            old(list)@.map_values(|s: String| s@),
            item@,
        ),
{
    let ghost l = old(list)@.map_values(|s: String| s@);
    proof {
        lemma_index_in(l, item@);
    }
    let mut i: usize = 0;
    while i < list.len()
        invariant
            i <= list@.len(),
            list@.map_values(|s: String| s@) == l,
            forall|j: int| 0 <= j < i ==> l[j] != item@,
            0 <= index_in(l, item@) <= l.len(),
            index_in(l, item@) < l.len() ==> l[index_in(l, item@)] == item@,
            forall|j: int| 0 <= j < index_in(l, item@) ==> l[j] != item@,
        decreases list@.len() - i,
    {
        if list[i] == item {
            assert(l[i as int] == item@);
            return i;
        }
        i = i + 1;
    }
    let id = list.len();
    list.push(item);
    assert(list@.map_values(|s: String| s@) =~= l.push(item@));
    id
}

/// A note on a script line that the game may not show as meant.
#[derive(Debug, Clone, Copy, PartialEq, Eq, Structural)]
pub enum LineWarning {
    /// The line (by its index) has more than two lines of text.
    MoreThanTwoLines(usize),
    /// A text line of the line (by its index) is over 40 bytes in Shift JIS.
    OverCharacterLimit(usize),
}

/// The position of the first newline in `s`, if any.
pub open spec fn first_newline(s: Seq<char>) -> Option<int> {
    if exists|i: int| 0 <= i < s.len() && s[i] == '\n' {
        Some(choose|i: int| 0 <= i < s.len() && s[i] == '\n' && forall|j: int| 0 <= j < i ==> s[j] != '\n')
    } else {
        None
    }
}

/// The two text lines of a script line: before and after its first newline,
/// or the whole text and an empty line.
pub open spec fn split_text(s: Seq<char>) -> (Seq<char>, Seq<char>) {
    match first_newline(s) {
        Some(i) => (s.subrange(0, i), s.subrange(i + 1, s.len() as int)),
        None => (s, Seq::empty()),
    }
}

/// Splits `s` at its first newline.
fn split_once_newline(s: &[char]) -> (r: Option<(Vec<char>, Vec<char>)>)
    ensures
        match r {
            Some(p) => first_newline(s@) is Some && p.0@ == split_text(s@).0 && p.1@ == split_text(
                s@,
            ).1,
            None => first_newline(s@) is None,
        },
{
    let mut i: usize = 0;
    while i < s.len()
        invariant
            i <= s@.len(),
            forall|j: int| 0 <= j < i ==> s@[j] != '\n',
        decreases s@.len() - i,
    {
        if s[i] == '\n' {
            let ghost k = choose|k: int| 0 <= k < s@.len() && s@[k] == '\n' && forall|j: int| 0 <= j < k ==> s@[j] != '\n';
            assert(exists|k: int| 0 <= k < s@.len() && s@[k] == '\n' && forall|j: int| 0 <= j < k ==> s@[j] != '\n') by {
                assert(0 <= i < s@.len() && s@[i as int] == '\n' && forall|j: int| 0 <= j < i ==> s@[j] != '\n');
            }
            assert(k == i) by {
                if k < i {
                    assert(s@[k] != '\n');
                } else if k > i {
                    assert(s@[i as int] != '\n');
                }
            }
            let mut a: Vec<char> = Vec::new();
            let mut b: Vec<char> = Vec::new();
            let mut j: usize = 0;
            while j < i
                invariant
                    j <= i,
                    i < s@.len(),
                    a@ == s@.subrange(0, j as int),
                decreases i - j,
            {
                a.push(s[j]);
                j = j + 1;
                assert(a@ =~= s@.subrange(0, j as int));
            }
            let mut j: usize = i + 1;
            while j < s.len()
                invariant
                    i + 1 <= j <= s@.len(),
                    b@ == s@.subrange(i + 1, j as int),
                decreases s@.len() - j,
            {
                b.push(s[j]);
                j = j + 1;
                assert(b@ =~= s@.subrange(i + 1, j as int));
            }
            return Some((a, b));
        }
        i = i + 1;
    }
    None
}

/// Whether `s` holds a newline.
fn has_newline(s: &[char]) -> (r: bool)
    ensures
        r == (exists|i: int| 0 <= i < s@.len() && s@[i] == '\n'),
{
    let mut i: usize = 0;
    while i < s.len()
        invariant
            i <= s@.len(),
            forall|j: int| 0 <= j < i ==> s@[j] != '\n',
        decreases s@.len() - i,
    {
        if s[i] == '\n' {
            return true;
        }
        i = i + 1;
    }
    false
}

/// The strings and line tuples built from script lines `lines[..n]`: the
/// strings start with an empty one, and each text is added once.
pub open spec fn script_tables(lines: Seq<ScriptLineView>, n: int) -> (Seq<Seq<char>>, Seq<
    (u8, u8, u16, u32, u32, u32),
>)
    decreases n,
{
    if n <= 0 {
        (seq![Seq::<char>::empty()], Seq::empty())
    } else {
        let prev = script_tables(lines, n - 1);
        let l = lines[n - 1];
        let (t1, t2) = split_text(l.4);
        let s0 = prev.0;
        let sp = index_in(s0, l.3);
        let s1 = interned(s0, l.3);
        let i1 = index_in(s1, t1);
        let s2 = interned(s1, t1);
        let i2 = index_in(s2, t2);
        let s3 = interned(s2, t2);
        (s3, prev.1.push((l.0, l.1, l.2, sp as u32, i1 as u32, i2 as u32)))
    }
}

/// The warnings on a script line at index `i`.
pub open spec fn line_warnings(l: ScriptLineView, i: int) -> Seq<LineWarning> {
    let (t1, t2) = split_text(l.4);
    let more = if first_newline(l.4) is Some && (exists|k: int| 0 <= k < t2.len() && t2[k]
        == '\n') {
        seq![LineWarning::MoreThanTwoLines(i as usize)]
    } else {
        Seq::empty()
    };
    let over = if sjis_encode(t1).len() > 40 || (first_newline(l.4) is Some
        && sjis_encode(t2).len() > 40) {
        seq![LineWarning::OverCharacterLimit(i as usize)]
    } else {
        Seq::empty()
    };
    more + over
}

/// The warnings on the first `n` script lines.
pub open spec fn script_warnings(lines: Seq<ScriptLineView>, n: int) -> Seq<LineWarning>
    decreases n,
{
    if n <= 0 {
        Seq::empty()
    } else {
        script_warnings(lines, n - 1) + line_warnings(lines[n - 1], n - 1)
    }
}


/// Type 7 items of the given texts.
fn texts_to_items(strings: Vec<String>) -> (r: Vec<Type7Data>)
    ensures
        r@.map_values(|t: Type7Data| t.text@) == strings@.map_values(|s: String| s@),
{
    let mut items: Vec<Type7Data> = Vec::new();
    let mut rest = strings;
    let ghost all = rest@.map_values(|s: String| s@);
    let mut n: usize = rest.len();
    // take the texts from the back, then put them in order
    let mut rev: Vec<Type7Data> = Vec::new();
    while rest.len() > 0
        invariant
            rest@.len() + rev@.len() == all.len(),
            rest@.map_values(|s: String| s@) == all.subrange(0, rest@.len() as int),
            forall|k: int| 0 <= k < rev@.len() ==> (#[trigger] rev@[k]).text@ == all[all.len() - 1 - k],
        decreases rest@.len(),
    {
        let ghost before = rest@;
        let text = rest.pop().unwrap();
        assert(rest@ =~= before.drop_last());
        assert(text@ == all[before.len() - 1]) by {
            assert(before.map_values(|s: String| s@)[before.len() - 1] == text@);
        }
        assert(rest@.map_values(|s: String| s@) =~= all.subrange(0, rest@.len() as int));
        rev.push(Type7Data { text });
    }
    while rev.len() > 0
        invariant
            rev@.len() + items@.len() == all.len(),
            forall|k: int| 0 <= k < rev@.len() ==> (#[trigger] rev@[k]).text@ == all[all.len() - 1 - k],
            items@.map_values(|t: Type7Data| t.text@) == all.subrange(0, items@.len() as int),
        decreases rev@.len(),
    {
        let ghost before = rev@;
        let item = rev.pop().unwrap();
        assert(item.text@ == all[all.len() - 1 - (before.len() - 1)]);
        assert forall|k: int| 0 <= k < rev@.len() implies (#[trigger] rev@[k]).text@ == all[all.len() - 1 - k] by {
            assert(rev@[k] == before[k]);
        }
        let ghost iv = items@.map_values(|t: Type7Data| t.text@);
        items.push(item);
        assert(items@.map_values(|t: Type7Data| t.text@) =~= iv.push(item.text@));
        assert(items@.map_values(|t: Type7Data| t.text@) =~= all.subrange(0, items@.len() as int));
    }
    assert(all.subrange(0, all.len() as int) =~= all);
    items
}

impl Bbq {
    /// The file with its type 7 texts replaced by `strings`.
    pub fn inject_strings(self, strings: Vec<String>) -> (r: Bbq)
        ensures
            r.datetime == self.datetime,
            r.type2data == self.type2data,
            r.type3data == self.type3data,
            r.type5data == self.type5data,
            r.type6data == self.type6data,
            r.footer == self.footer,
            r.type7data matches Some(v) && v@.map_values(|t: Type7Data| t.text@) == strings@.map_values(
                |s: String| s@,
            ),
    {
        let items = texts_to_items(strings);
        Bbq {
            datetime: self.datetime,
            type2data: self.type2data,
            type3data: self.type3data,
            type5data: self.type5data,
            type6data: self.type6data,
            type7data: Some(items),
            footer: self.footer,
        }
    }

    /// The file rebuilt as a message script of `lines`: their texts, each
    /// added once after an empty string, the line tuples referring to them,
    /// and the fixed type 2 and type 6 items of a script. Also returns the
    /// warnings on lines of more than two text lines or over 40 bytes.
    pub fn inject_script_lines(self, lines: Vec<ScriptLine>) -> (r: (Bbq, Vec<LineWarning>))
        ensures
            r.0.datetime == self.datetime,
            r.0.footer == self.footer,
            r.0.type3data is None,
            r.0@.1 == Some(seq![seq![0u32, 65536, 0, 1, 16, lines@.len() as u32, 0]]),
            r.0@.3 == Some(seq![(None::<u32>, script_tables(lines_view(lines@), lines@.len() as int).1)]),
            r.0@.4 == Some(seq![Seq::<(u8, u8, u16, u32, Seq<u32>)>::empty()]),
            r.0@.5 == Some(script_tables(lines_view(lines@), lines@.len() as int).0),
            r.1@ == script_warnings(lines_view(lines@), lines@.len() as int),
    {
        let mut strings: Vec<String> = Vec::new();
        strings.push(String::new());
        let mut tuples: Vec<(u8, u8, u16, u32, u32, u32)> = Vec::new();
        let mut warnings: Vec<LineWarning> = Vec::new();
        let line_count = lines.len() as u32;
        let mut i: usize = 0;
        assert(strings@.map_values(|s: String| s@) =~= script_tables(lines_view(lines@), 0).0);
        while i < lines.len()
            invariant
                i <= lines@.len(),
                strings@.map_values(|s: String| s@) == script_tables(lines_view(lines@), i as int).0,
                tuples@ == script_tables(lines_view(lines@), i as int).1,
                warnings@ == script_warnings(lines_view(lines@), i as int),
            decreases lines@.len() - i,
        {
            let line = &lines[i];
            let speaker_text_id = get_index(&mut strings, String::from_str(line.speaker_text.as_str()));
            let text = chars_of(line.line_text.as_str());
            let line_text1_id: usize;
            let line_text2_id: usize;
            let ghost wbefore = warnings@;
            match split_once_newline(text.as_slice()) {
                Some((t1, t2)) => {
                    if has_newline(t2.as_slice()) {
                        warnings.push(LineWarning::MoreThanTwoLines(i));
                    }
                    let s1 = string_of(t1.as_slice());
                    let s2 = string_of(t2.as_slice());
                    if sj_len(s1.as_str()) > 40 || sj_len(s2.as_str()) > 40 {
                        warnings.push(LineWarning::OverCharacterLimit(i));
                    }
                    line_text1_id = get_index(&mut strings, s1);
                    line_text2_id = get_index(&mut strings, s2);
                },
                None => {
                    if sj_len(line.line_text.as_str()) > 40 {
                        warnings.push(LineWarning::OverCharacterLimit(i));
                    }
                    line_text1_id = get_index(&mut strings, String::from_str(line.line_text.as_str()));
                    line_text2_id = get_index(&mut strings, String::new());
                    assert(split_text(text@).1 =~= Seq::<char>::empty());
                },
            }
            assert(warnings@ =~= wbefore + line_warnings(lines@[i as int]@, i as int));
            tuples.push(
                (
                    line.speaker_id,
                    line.audio_flag,
                    line.audio_id,
                    speaker_text_id as u32,
                    line_text1_id as u32,
                    line_text2_id as u32,
                ),
            );
            i = i + 1;
        }
        let items = texts_to_items(strings);
        let mut t2: Vec<Type2Data> = Vec::new();
        t2.push(Type2Data { data: [0, 65536, 0, 1, 16, line_count, 0] });
        let mut t5: Vec<Type5Data> = Vec::new();
        t5.push(Type5Data { small_data: None, lines: tuples });
        let mut t6: Vec<Type6Data> = Vec::new();
        t6.push(Type6Data { commands: Vec::new() });
        let b = Bbq {
            datetime: self.datetime,
            type2data: Some(t2),
            type3data: None,
            type5data: Some(t5),
            type6data: Some(t6),
            type7data: Some(items),
            footer: self.footer,
        };
        proof {
            let a2 = [0u32, 65536, 0, 1, 16, line_count, 0];
            assert(a2@ =~= seq![0u32, 65536, 0, 1, 16, lines@.len() as u32, 0]);
            assert(b.type2data->0@.map_values(|t: Type2Data| t@) =~= seq![seq![0u32, 65536, 0, 1, 16, lines@.len() as u32, 0]]);
            assert(b.type5data->0@.map_values(|t: Type5Data| t@) =~= seq![(None::<u32>, script_tables(lines_view(lines@), lines@.len() as int).1)]);
            assert(b.type6data->0@[0]@ =~= Seq::<(u8, u8, u16, u32, Seq<u32>)>::empty());
            assert(b.type6data->0@.map_values(|t: Type6Data| t@) =~= seq![Seq::<(u8, u8, u16, u32, Seq<u32>)>::empty()]);
            assert(b.type7data->0@.map_values(|t: Type7Data| t@) =~= b.type7data->0@.map_values(|t: Type7Data| t.text@));
        }
        (b, warnings)
    }
}


/// The `k`-th cell of a row, or the empty text past its end.
pub open spec fn cell(row: Seq<Seq<char>>, k: int) -> Seq<char> {
    if k < row.len() {
        row[k]
    } else {
        Seq::empty()
    }
}

/// The replacement text of a row: its own cell if not empty, else the default.
pub open spec fn chosen(default_text: Seq<char>, replace_text: Seq<char>) -> Seq<char> {
    if replace_text.len() > 0 {
        replace_text
    } else {
        default_text
    }
}

fn take_cell(row: &Vec<String>, k: usize) -> (r: String)
    ensures
        r@ == cell(row@.map_values(|s: String| s@), k as int),
{
    if k < row.len() {
        String::from_str(row[k].as_str())
    } else {
        String::new()
    }
}

/// A row of a strings csv as (file name, text): the file name, then the
/// default text and the replacement text; `None` for an empty row.
pub fn row_to_text(row: Vec<String>) -> (r: Option<(String, String)>)
    ensures
        row@.len() == 0 <==> r is None,
        r matches Some(p) ==> ({
            let cells = row@.map_values(|s: String| s@);
            p.0@ == cells[0] && p.1@ == chosen(cell(cells, 1), cell(cells, 2))
        }),
{
    if row.len() == 0 {
        return None;
    }
    let filename = take_cell(&row, 0);
    let default_text = take_cell(&row, 1);
    let replace_text = take_cell(&row, 2);
    if replace_text.as_str().unicode_len() > 0 {
        Some((filename, replace_text))
    } else {
        Some((filename, default_text))
    }
}

/// A row of a messages csv as (file name, (speaker text, line text)): the file
/// name, the speaker text, then the default and the replacement line text;
/// `None` for an empty row.
pub fn row_to_message(row: Vec<String>) -> (r: Option<(String, (String, String))>)
    ensures
        row@.len() == 0 <==> r is None,
        r matches Some(p) ==> ({
            let cells = row@.map_values(|s: String| s@);
            p.0@ == cells[0] && p.1.0@ == cell(cells, 1) && p.1.1@ == chosen(
                cell(cells, 2),
                cell(cells, 3),
            )
        }),
{
    if row.len() == 0 {
        return None;
    }
    let filename = take_cell(&row, 0);
    let speaker_text = take_cell(&row, 1);
    let default_text = take_cell(&row, 2);
    let replace_text = take_cell(&row, 3);
    if replace_text.as_str().unicode_len() > 0 {
        Some((filename, (speaker_text, replace_text)))
    } else {
        Some((filename, (speaker_text, default_text)))
    }
}

/// Why the texts of a csv cannot be put into a `.bbq` file.
#[derive(Debug, Clone, Copy, PartialEq, Eq, Structural)]
pub enum InjectError {
    /// The file is not a message script.
    NoScriptLines,
    /// The csv has another number of lines than the script.
    IncorrectLineCount,
    /// The csv has another number of texts than the file.
    IncorrectTextCount,
}

/// Replaces the strings of a `.bbq` file that is not a message script: the
/// first text stays empty, the others are `replace_texts` in order. `None`
/// when the file has no strings to replace (no type 7 section, or only one text).
pub fn replace_strings(bbq: Bbq, replace_texts: Vec<String>) -> (r: Result<Option<Bbq>, InjectError>)
    ensures
        match r {
            Ok(None) => bbq.type7data is None || bbq.type7data->0@.len() <= 1,
            Ok(Some(b)) => (bbq.type7data matches Some(t) && t@.len() > 1 && t@.len()
                == replace_texts@.len() + 1) && b.datetime == bbq.datetime && b.type2data
                == bbq.type2data && b.type3data == bbq.type3data && b.type5data == bbq.type5data
                && b.type6data == bbq.type6data && b.footer == bbq.footer && (b.type7data matches Some(
                v) && v@.map_values(|t: Type7Data| t.text@) == seq![Seq::<char>::empty()]
                + replace_texts@.map_values(|s: String| s@)),
            Err(e) => e == InjectError::IncorrectTextCount && (bbq.type7data matches Some(t)
                && t@.len() > 1 && t@.len() != replace_texts@.len() + 1),
        },
{
    let count = match &bbq.type7data {
        Some(t) => t.len(),
        None => return Ok(None),
    };
    if count <= 1 {
        return Ok(None);
    }
    let mut texts: Vec<String> = Vec::new();
    texts.push(String::new());
    let ghost first = texts@.map_values(|s: String| s@);
    let mut i: usize = 0;
    let mut rest = replace_texts;
    let ghost all = rest@.map_values(|s: String| s@);
    let n = rest.len();
    if n != count - 1 {
        return Err(InjectError::IncorrectTextCount);
    }
    texts.append(&mut rest);
    assert(texts@.map_values(|s: String| s@) =~= seq![Seq::<char>::empty()] + all);
    Ok(Some(bbq.inject_strings(texts)))
}

/// The script lines with the ids of `lines` and the texts of `texts`.
pub open spec fn replaced_lines(lines: Seq<(u8, u8, u16, u32, u32, u32)>, texts: Seq<(String, String)>) -> Seq<ScriptLineView> {
    Seq::new(lines.len(), |k: int| (lines[k].0, lines[k].1, lines[k].2, texts[k].0@, texts[k].1@))
}

/// Rebuilds a message script with the speaker texts and line texts of
/// `replace_lines`, one per line of the script, in order.
pub fn replace_script(bbq: Bbq, replace_lines: Vec<(String, String)>) -> (r: Result<
    (Bbq, Vec<LineWarning>),
    InjectError,
>)
    requires
        script_refs_ok(bbq),
    ensures
        match r {
            Ok(p) => (bbq.type5data matches Some(v) && v@.len() == 1 && bbq.type7data is Some)
                && replace_lines@.len() == script_item(bbq).lines@.len() && ({
                let lv = replaced_lines(script_item(bbq).lines@, replace_lines@);
                &&& p.0.datetime == bbq.datetime
                &&& p.0.footer == bbq.footer
                &&& p.0.type3data is None
                &&& p.0@.1 == Some(seq![seq![0u32, 65536, 0, 1, 16, lv.len() as u32, 0]])
                &&& p.0@.3 == Some(seq![(None::<u32>, script_tables(lv, lv.len() as int).1)])
                &&& p.0@.4 == Some(seq![Seq::<(u8, u8, u16, u32, Seq<u32>)>::empty()])
                &&& p.0@.5 == Some(script_tables(lv, lv.len() as int).0)
                &&& p.1@ == script_warnings(lv, lv.len() as int)
            }),
            Err(e) => if bbq.type5data matches Some(v) && v@.len() == 1 && bbq.type7data is Some {
                e == InjectError::IncorrectLineCount && replace_lines@.len() != script_item(
                    bbq,
                ).lines@.len()
            } else {
                e == InjectError::NoScriptLines
            },
        },
{
    let script_lines = match bbq.get_script_lines() {
        Some(l) => l,
        None => return Err(InjectError::NoScriptLines),
    };
    if replace_lines.len() != script_lines.len() {
        return Err(InjectError::IncorrectLineCount);
    }
    let mut new_lines: Vec<ScriptLine> = Vec::new();
    let mut i: usize = 0;
    while i < script_lines.len()
        invariant
            i <= script_lines@.len(),
            replace_lines@.len() == script_lines@.len(),
            new_lines@.len() == i,
            forall|k: int| 0 <= k < i ==> {
                &&& (#[trigger] new_lines@[k]).speaker_id == script_lines@[k].speaker_id
                &&& new_lines@[k].audio_flag == script_lines@[k].audio_flag
                &&& new_lines@[k].audio_id == script_lines@[k].audio_id
                &&& new_lines@[k].speaker_text@ == replace_lines@[k].0@
                &&& new_lines@[k].line_text@ == replace_lines@[k].1@
            },
        decreases script_lines@.len() - i,
    {
        let old_line = &script_lines[i];
        let (speaker, text) = &replace_lines[i];
        new_lines.push(
            ScriptLine {
                speaker_id: old_line.speaker_id,
                audio_flag: old_line.audio_flag,
                audio_id: old_line.audio_id,
                speaker_text: String::from_str(speaker.as_str()),
                line_text: String::from_str(text.as_str()),
            },
        );
        i = i + 1;
    }
    proof {
        assert forall|k: int| 0 <= k < script_lines@.len() implies script_lines@[k].speaker_id == script_item(bbq).lines@[k].0 && script_lines@[k].audio_flag == script_item(bbq).lines@[k].1 && script_lines@[k].audio_id == script_item(bbq).lines@[k].2 by {
            assert(script_line_ok(bbq, script_item(bbq).lines@[k], script_lines@[k]));
        }
        assert(lines_view(new_lines@) =~= replaced_lines(script_item(bbq).lines@, replace_lines@));
    }
    Ok(bbq.inject_script_lines(new_lines))
}

impl Bbq {
    /// Whether every text index of every line of a message script refers to
    /// one of its texts, which is what `get_script_lines` asks of the file.
    pub fn script_refs_valid(&self) -> (r: bool)
        ensures
            r == script_refs_ok(*self),
    {
        let items = match &self.type5data {
            Some(v) => v,
            None => return true,
        };
        let texts = match &self.type7data {
            Some(t) => t,
            None => return true,
        };
        if items.len() != 1 {
            return true;
        }
        let n = texts.len() as u64;
        let lines = &items[0].lines;
        let mut i: usize = 0;
        while i < lines.len()
            invariant
                i <= lines@.len(),
                self.type5data == Some(*items),
                self.type7data == Some(*texts),
                items@.len() == 1,
                *lines == items@[0].lines,
                n == texts_of(*self).len(),
                forall|k: int| 0 <= k < i ==> {
                    let l = #[trigger] script_item(*self).lines@[k];
                    &&& l.3 < texts_of(*self).len()
                    &&& l.4 < texts_of(*self).len()
                    &&& l.5 < texts_of(*self).len()
                },
            decreases lines@.len() - i,
        {
            let l = lines[i];
            if l.3 as u64 >= n || l.4 as u64 >= n || l.5 as u64 >= n {
                assert(script_item(*self).lines@[i as int] == l);
                return false;
            }
            i = i + 1;
        }
        true
    }
}

/// Adding `item` to `list` keeps what `list` holds in place and puts `item`
/// where `index_in` finds it.
proof fn lemma_interned_keeps(list: Seq<Seq<char>>, item: Seq<char>, j: int)
    requires
        0 <= j < list.len(),
    ensures
        interned(list, item)[j] == list[j],
{
}

proof fn lemma_interned(list: Seq<Seq<char>>, item: Seq<char>)
    ensures
        0 <= index_in(list, item) < interned(list, item).len() <= list.len() + 1,
        list.len() <= interned(list, item).len(),
        interned(list, item)[index_in(list, item)] == item,
        forall|j: int| 0 <= j < list.len() ==> #[trigger] interned(list, item)[j] == list[j],
{
    lemma_index_in(list, item);
}

/// The text of a script line as it is read back: its two text lines joined
/// by a newline; the text itself when it holds a newline, the text and a
/// newline otherwise.
pub open spec fn read_back_text(s: Seq<char>) -> Seq<char> {
    if first_newline(s) is Some {
        s
    } else {
        s.push('\n')
    }
}

/// A text with a newline has a first one.
proof fn lemma_first_newline(s: Seq<char>, k: int)
    requires
        0 <= k < s.len(),
        s[k] == '\n',
    ensures
        exists|m: int| 0 <= m < s.len() && s[m] == '\n' && forall|j: int| 0 <= j < m ==> s[j] != '\n',
    decreases k,
{
    if exists|j: int| 0 <= j < k && s[j] == '\n' {
        let j = choose|j: int| 0 <= j < k && s[j] == '\n';
        lemma_first_newline(s, j);
    } else {
        assert(0 <= k < s.len() && s[k] == '\n' && forall|j: int| 0 <= j < k ==> s[j] != '\n');
    }
}

proof fn lemma_split_join(s: Seq<char>)
    ensures
        split_text(s).0 + seq!['\n'] + split_text(s).1 == read_back_text(s),
{
    match first_newline(s) {
        Some(i) => {
            let k = choose|k: int| 0 <= k < s.len() && s[k] == '\n';
            lemma_first_newline(s, k);
            assert(s[i] == '\n');
            assert(s.subrange(0, i) + seq!['\n'] + s.subrange(i + 1, s.len() as int) =~= s);
        },
        None => {
            assert(s + seq!['\n'] + Seq::<char>::empty() =~= s.push('\n'));
        },
    }
}

/// The tables built from the first `n` script lines: one line tuple each,
/// whose numbers are the line's and whose indices find its speaker text and
/// its two text lines.
proof fn lemma_tables(lines: Seq<ScriptLineView>, n: int)
    requires
        0 <= n <= lines.len(),
    ensures
        ({
            let (strs, tuples) = script_tables(lines, n);
            &&& 1 <= strs.len() <= 1 + 3 * n
            &&& tuples.len() == n
            &&& forall|i: int| 0 <= i < n ==> {
                let l = #[trigger] tuples[i];
                let (t1, t2) = split_text(lines[i].4);
                &&& l.0 == lines[i].0 && l.1 == lines[i].1 && l.2 == lines[i].2
                &&& (1 + 3 * n <= u32::MAX ==> {
                    &&& l.3 < strs.len() && strs[l.3 as int] == lines[i].3
                    &&& l.4 < strs.len() && strs[l.4 as int] == t1
                    &&& l.5 < strs.len() && strs[l.5 as int] == t2
                })
            }
        }),
    decreases n,
{
    if n > 0 {
        lemma_tables(lines, n - 1);
        let prev = script_tables(lines, n - 1);
        let last = lines[n - 1];
        let u1 = split_text(last.4).0;
        let u2 = split_text(last.4).1;
        let s0 = prev.0;
        let s1 = interned(s0, last.3);
        let s2 = interned(s1, u1);
        let s3 = interned(s2, u2);
        lemma_interned(s0, last.3);
        lemma_interned(s1, u1);
        lemma_interned(s2, u2);
        let cur = script_tables(lines, n);
        assert(cur.0 == s3);
        assert forall|i: int| 0 <= i < n implies {
            let l = #[trigger] cur.1[i];
            let (t1, t2) = split_text(lines[i].4);
            &&& l.0 == lines[i].0 && l.1 == lines[i].1 && l.2 == lines[i].2
            &&& (1 + 3 * n <= u32::MAX ==> {
                &&& l.3 < cur.0.len() && cur.0[l.3 as int] == lines[i].3
                &&& l.4 < cur.0.len() && cur.0[l.4 as int] == t1
                &&& l.5 < cur.0.len() && cur.0[l.5 as int] == t2
            })
        } by {
            if i < n - 1 {
                assert(cur.1[i] == prev.1[i]);
                let e = prev.1[i];
                if 1 + 3 * n <= u32::MAX {
                    lemma_interned_keeps(s0, last.3, e.3 as int);
                    lemma_interned_keeps(s1, u1, e.3 as int);
                    lemma_interned_keeps(s2, u2, e.3 as int);
                    lemma_interned_keeps(s0, last.3, e.4 as int);
                    lemma_interned_keeps(s1, u1, e.4 as int);
                    lemma_interned_keeps(s2, u2, e.4 as int);
                    lemma_interned_keeps(s0, last.3, e.5 as int);
                    lemma_interned_keeps(s1, u1, e.5 as int);
                    lemma_interned_keeps(s2, u2, e.5 as int);
                }
            } else {
                let sp = index_in(s0, last.3);
                let i1 = index_in(s1, u1);
                let i2 = index_in(s2, u2);
                assert(cur.1[i] == (last.0, last.1, last.2, sp as u32, i1 as u32, i2 as u32));
                if 1 + 3 * n <= u32::MAX {
                    lemma_interned_keeps(s1, u1, sp);
                    lemma_interned_keeps(s2, u2, sp);
                    lemma_interned_keeps(s2, u2, i1);
                }
            }
        }
    }
}

/// Writing script lines into a message script and reading them back gives
/// them again: each line's numbers and speaker text, and its text split at its
/// first newline and joined again, which is the text itself when it holds a
/// newline. Every index of the written lines finds a text. This holds while
/// the indices fit in 32 bits.
pub proof fn lemma_script_lines_read_back(b: Bbq, lines: Seq<ScriptLineView>)
    requires
        b@.3 == Some(seq![(None::<u32>, script_tables(lines, lines.len() as int).1)]),
        b@.5 == Some(script_tables(lines, lines.len() as int).0),
        1 + 3 * lines.len() <= u32::MAX,
    ensures
        script_refs_ok(b),
        script_item(b).lines@.len() == lines.len(),
        forall|i: int| 0 <= i < lines.len() ==> {
            let l = #[trigger] script_item(b).lines@[i];
            &&& l.0 == lines[i].0 && l.1 == lines[i].1 && l.2 == lines[i].2
            &&& texts_of(b)[l.3 as int] == lines[i].3
            &&& texts_of(b)[l.4 as int] + seq!['\n'] + texts_of(b)[l.5 as int] == read_back_text(lines[i].4)
        },
{
    let n = lines.len() as int;
    lemma_tables(lines, n);
    let (strs, tuples) = script_tables(lines, n);
    let items5 = b.type5data->0@;
    assert(items5.map_values(|t: Type5Data| t@) == seq![(None::<u32>, tuples)]);
    assert(items5.map_values(|t: Type5Data| t@).len() == 1);
    assert(items5.len() == 1);
    assert(items5.map_values(|t: Type5Data| t@)[0] == items5[0]@);
    assert(script_item(b).lines@ == tuples);
    assert(texts_of(b) =~= strs) by {
        assert(b.type7data->0@.map_values(|t: Type7Data| t@) == strs);
        assert forall|k: int| 0 <= k < strs.len() implies texts_of(b)[k] == strs[k] by {
            assert(b.type7data->0@.map_values(|t: Type7Data| t@)[k] == strs[k]);
        }
    }
    assert forall|i: int| 0 <= i < n implies {
        let l = #[trigger] script_item(b).lines@[i];
        &&& l.0 == lines[i].0 && l.1 == lines[i].1 && l.2 == lines[i].2
        &&& texts_of(b)[l.3 as int] == lines[i].3
        &&& texts_of(b)[l.4 as int] + seq!['\n'] + texts_of(b)[l.5 as int] == read_back_text(lines[i].4)
    } by {
        assert(tuples[i] == script_item(b).lines@[i]);
        lemma_split_join(lines[i].4);
    }
    assert forall|i: int| 0 <= i < script_item(b).lines@.len() implies {
        let l = #[trigger] script_item(b).lines@[i];
        &&& l.3 < texts_of(b).len()
        &&& l.4 < texts_of(b).len()
        &&& l.5 < texts_of(b).len()
    } by {
        assert(tuples[i] == script_item(b).lines@[i]);
    }
}

/// The strings written into a file, after the empty first text, are what
/// reading its strings gives back.
pub proof fn lemma_strings_read_back(b: Bbq, texts: Seq<Seq<char>>)
    requires
        b.type7data is Some,
        texts_of(b) == seq![Seq::<char>::empty()] + texts,
    ensures
        strings_of(b) == Some(texts),
{
    assert((seq![Seq::<char>::empty()] + texts).drop_first() =~= texts);
}

} // verus!
