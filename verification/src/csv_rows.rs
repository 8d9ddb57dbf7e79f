//! The rows of a comma-separated table: fields split by commas, rows by
//! newlines, a field in double quotes may hold commas, newlines and doubled
//! quotes; carriage returns outside quotes are dropped.
use vstd::prelude::*;
use crate::text::{chars_of, string_of};

verus! {

/// Where the reader is: at the start of a field, inside an unquoted field,
/// inside a quoted field, or just after a quote inside a quoted field.
#[derive(Clone, Copy, PartialEq, Eq, Structural)]
pub enum CsvMode {
    Start,
    Plain,
    Quoted,
    QuoteSeen,
}

/// The rows read so far, the fields of the current row, the current field,
/// and where the reader is.
pub type CsvState = (Seq<Seq<Seq<char>>>, Seq<Seq<char>>, Seq<char>, CsvMode);

/// The state after the field ends.
pub open spec fn end_field(st: CsvState) -> CsvState {
    (st.0, st.1.push(st.2), Seq::empty(), CsvMode::Start)
}

/// The state after the row ends.
pub open spec fn end_row(st: CsvState) -> CsvState {
    (st.0.push(st.1.push(st.2)), Seq::empty(), Seq::empty(), CsvMode::Start)
}

/// The state after the character `c`.
pub open spec fn csv_step(st: CsvState, c: char) -> CsvState {
    match st.3 {
        CsvMode::Start => if c == '"' {
            (st.0, st.1, st.2, CsvMode::Quoted)
        } else if c == ',' {
            end_field(st)
        } else if c == '\n' {
            end_row(st)
        } else if c == '\r' {
            st
        } else {
            (st.0, st.1, st.2.push(c), CsvMode::Plain)
        },
        CsvMode::Plain => if c == ',' {
            end_field(st)
        } else if c == '\n' {
            end_row(st)
        } else if c == '\r' {
            st
        } else {
            (st.0, st.1, st.2.push(c), CsvMode::Plain)
        },
        CsvMode::Quoted => if c == '"' {
            (st.0, st.1, st.2, CsvMode::QuoteSeen)
        } else {
            (st.0, st.1, st.2.push(c), CsvMode::Quoted)
        },
        CsvMode::QuoteSeen => if c == '"' {
            (st.0, st.1, st.2.push('"'), CsvMode::Quoted)
        } else if c == ',' {
            end_field(st)
        } else if c == '\n' {
            end_row(st)
        } else if c == '\r' {
            st
        } else {
            (st.0, st.1, st.2.push(c), CsvMode::Plain)
        },
    }
}

/// The state after the characters `s`.
pub open spec fn csv_scan(s: Seq<char>) -> CsvState
    decreases s.len(),
{
    if s.len() == 0 {
        (Seq::empty(), Seq::empty(), Seq::empty(), CsvMode::Start)
    } else {
        csv_step(csv_scan(s.drop_last()), s.last())
    }
}

/// The rows of the text `s`: a last row without a newline counts too, and a
/// text that ends with a newline has no empty row after it.
pub open spec fn csv_rows(s: Seq<char>) -> Seq<Seq<Seq<char>>> {
    let st = csv_scan(s);
    if st.1.len() == 0 && st.2.len() == 0 && st.3 == CsvMode::Start {
        st.0
    } else {
        st.0.push(st.1.push(st.2))
    }
}

/// The text of each field of each row.
pub open spec fn rows_view(rows: Seq<Vec<String>>) -> Seq<Seq<Seq<char>>> {
    rows.map_values(|r: Vec<String>| r@.map_values(|f: String| f@))
}

fn end_field_exec(row: &mut Vec<String>, field: &mut Vec<char>)
    ensures
        final(row)@.map_values(|f: String| f@) == old(row)@.map_values(|f: String| f@).push(old(field)@),
        final(field)@ == Seq::<char>::empty(),
{
    let s = string_of(field.as_slice());
    let ghost before = row@.map_values(|f: String| f@);
    row.push(s);
    assert(row@.map_values(|f: String| f@) =~= before.push(old(field)@));
    *field = Vec::new();
}

fn end_row_exec(rows: &mut Vec<Vec<String>>, row: &mut Vec<String>, field: &mut Vec<char>)
    ensures
        rows_view(final(rows)@) == rows_view(old(rows)@).push(old(row)@.map_values(|f: String| f@).push(old(field)@)),
        final(row)@.map_values(|f: String| f@) == Seq::<Seq<char>>::empty(),
        final(field)@ == Seq::<char>::empty(),
{
    end_field_exec(row, field);
    let mut done: Vec<String> = Vec::new();
    std::mem::swap(&mut done, row);
    let ghost before = rows_view(rows@);
    rows.push(done);
    assert(rows_view(rows@) =~= before.push(done@.map_values(|f: String| f@)));
    assert(row@.map_values(|f: String| f@) =~= Seq::<Seq<char>>::empty());
}

/// The rows of a comma-separated table (see `csv_rows`).
pub fn parse_csv(text: &str) -> (r: Vec<Vec<String>>)
    ensures
        rows_view(r@) == csv_rows(text@),
{
    let cs = chars_of(text);
    let mut rows: Vec<Vec<String>> = Vec::new();
    let mut row: Vec<String> = Vec::new();
    let mut field: Vec<char> = Vec::new();
    let mut mode = CsvMode::Start;
    let mut i: usize = 0;
    assert(cs@.subrange(0, 0) =~= Seq::<char>::empty());
    assert(rows_view(rows@) =~= Seq::<Seq<Seq<char>>>::empty());
    assert(row@.map_values(|f: String| f@) =~= Seq::<Seq<char>>::empty());
    while i < cs.len()
        invariant
            i <= cs@.len(),
            cs@ == text@,
            csv_scan(cs@.subrange(0, i as int)) == (rows_view(rows@), row@.map_values(|f: String| f@), field@, mode),
        decreases cs@.len() - i,
    {
        let c = cs[i];
        let ghost pre = cs@.subrange(0, i as int);
        assert(cs@.subrange(0, i + 1).drop_last() =~= pre);
        assert(cs@.subrange(0, i + 1).last() == c);
        match mode {
            CsvMode::Start => {
                if c == '"' {
                    mode = CsvMode::Quoted;
                } else if c == ',' {
                    end_field_exec(&mut row, &mut field);
                } else if c == '\n' {
                    end_row_exec(&mut rows, &mut row, &mut field);
                } else if c == '\r' {
                } else {
                    field.push(c);
                    mode = CsvMode::Plain;
                }
            },
            CsvMode::Plain => {
                if c == ',' {
                    end_field_exec(&mut row, &mut field);
                    mode = CsvMode::Start;
                } else if c == '\n' {
                    end_row_exec(&mut rows, &mut row, &mut field);
                    mode = CsvMode::Start;
                } else if c == '\r' {
                } else {
                    field.push(c);
                }
            },
            CsvMode::Quoted => {
                if c == '"' {
                    mode = CsvMode::QuoteSeen;
                } else {
                    field.push(c);
                }
            },
            CsvMode::QuoteSeen => {
                if c == '"' {
                    field.push('"');
                    mode = CsvMode::Quoted;
                } else if c == ',' {
                    end_field_exec(&mut row, &mut field);
                    mode = CsvMode::Start;
                } else if c == '\n' {
                    end_row_exec(&mut rows, &mut row, &mut field);
                    mode = CsvMode::Start;
                } else if c == '\r' {
                } else {
                    field.push(c);
                    mode = CsvMode::Plain;
                }
            },
        }
        i = i + 1;
    }
    assert(cs@.subrange(0, cs@.len() as int) =~= cs@);
    if row.len() == 0 && field.len() == 0 && mode == CsvMode::Start {
        assert(row@.map_values(|f: String| f@).len() == 0);
        rows
    } else {
        let ghost r0 = rows_view(rows@);
        let ghost r1 = row@.map_values(|f: String| f@);
        let ghost f0 = field@;
        end_row_exec(&mut rows, &mut row, &mut field);
        assert(rows_view(rows@) == r0.push(r1.push(f0)));
        rows
    }
}

} // verus!
