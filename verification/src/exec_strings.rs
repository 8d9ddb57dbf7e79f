//! Translated strings put into the game's executables, each over the bytes of
//! the string it replaces.
use vstd::prelude::*;
use crate::ez::{hex_value, hex_digits_value};
use crate::text::{chars_of, parse_u64, parse_unsigned, has_prefix};
use crate::sjis::sjis_encode;

verus! {

/// Why a row of the string table cannot be put into its file.
#[derive(Debug, Clone, Copy, PartialEq, Eq)]
pub enum StringInjectionError {
    /// The offset is not a hexadecimal number.
    Offset,
    /// The number of bytes available is not a number.
    MaxBytes,
    /// The encoded string with its terminating zero is longer than the bytes
    /// available.
    TooLong,
}

/// `s` without all the `0x` that begin it, one after another.
pub open spec fn strip_0x(s: Seq<char>) -> Seq<char>
    decreases s.len(),
{
    if s.len() >= 2 && s[0] == '0' && s[1] == 'x' {
        strip_0x(s.subrange(2, s.len() as int))
    } else {
        s
    }
}

/// What std's `u64::from_str_radix(s, 16)` gives: an optional `+`, then at
/// least one hexadecimal digit, the value fitting in 64 bits.
pub open spec fn parse_hex_u64(s: Seq<char>) -> Option<u64> {
    let body = if s.len() > 0 && s[0] == '+' {
        s.drop_first()
    } else {
        s
    };
    if body.len() == 0 {
        None
    } else {
        match hex_digits_value(body) {
            Some(v) => if v <= u64::MAX {
                Some(v as u64)
            } else {
                None
            },
            None => None,
        }
    }
}

proof fn lemma_hex_none(s: Seq<char>, i: int)
    requires
        0 <= i <= s.len(),
        hex_digits_value(s.subrange(0, i)) is None,
    ensures
        hex_digits_value(s) is None,
    decreases s.len() - i,
{
    if i < s.len() {
        assert(s.subrange(0, i + 1).drop_last() =~= s.subrange(0, i));
        lemma_hex_none(s, i + 1);
    } else {
        assert(s.subrange(0, i) =~= s);
    }
}

proof fn lemma_hex_prefix(s: Seq<char>, i: int)
    requires
        0 <= i <= s.len(),
        hex_digits_value(s) is Some,
    ensures
        hex_digits_value(s.subrange(0, i)) is Some,
        hex_digits_value(s.subrange(0, i))->0 <= hex_digits_value(s)->0,
    decreases s.len() - i,
{
    if i < s.len() {
        lemma_hex_prefix(s, i + 1);
        assert(s.subrange(0, i + 1).drop_last() =~= s.subrange(0, i));
    } else {
        assert(s.subrange(0, i) =~= s);
    }
}

/// Parses a 64-bit hexadecimal number as std's `u64::from_str_radix` does.
fn parse_hex64(s: &[char]) -> (r: Option<u64>)
    ensures
        r == parse_hex_u64(s@),
{
    let mut start: usize = 0;
    if s.len() > 0 && s[0] == '+' {
        start = 1;
    }
    let ghost body = if s@.len() > 0 && s@[0] == '+' {
        s@.drop_first()
    } else {
        s@
    };
    assert(body =~= s@.subrange(start as int, s@.len() as int));
    if start >= s.len() {
        return None;
    }
    let mut value: u64 = 0;
    let mut i: usize = start;
    assert(body.subrange(0, 0) =~= Seq::<char>::empty());
    while i < s.len()
        invariant
            start <= i <= s@.len(),
            start < s@.len(),
            body == s@.subrange(start as int, s@.len() as int),
            body == (if s@.len() > 0 && s@[0] == '+' {
                s@.drop_first()
            } else {
                s@
            }),
            hex_digits_value(body.subrange(0, i - start)) == Some(value as nat),
        decreases s@.len() - i,
    {
        let c = s[i];
        let ghost sub = body.subrange(0, i - start + 1);
        assert(sub.drop_last() =~= body.subrange(0, i - start));
        assert(sub.last() == c);
        let d: u64 = if '0' <= c && c <= '9' {
            (c as u64) - 48
        } else if 'a' <= c && c <= 'f' {
            (c as u64) - 87
        } else if 'A' <= c && c <= 'F' {
            (c as u64) - 55
        } else {
            proof {
                assert(hex_value(c) is None);
                assert(hex_digits_value(sub) is None);
                lemma_hex_none(body, i - start + 1);
            }
            return None;
        };
        assert(hex_digits_value(sub) == Some((value * 16 + d) as nat));
        if value > (u64::MAX - d) / 16 {
            proof {
                assert(value * 16 + d > u64::MAX) by (nonlinear_arith)
                    requires
                        value > (u64::MAX - d) / 16,
                        d < 16,
                ;
                if hex_digits_value(body) is Some {
                    lemma_hex_prefix(body, i - start + 1);
                }
            }
            return None;
        }
        assert(value * 16 + d <= u64::MAX) by (nonlinear_arith)
            requires
                value <= (u64::MAX - d) / 16,
                d < 16,
        ;
        value = value * 16 + d;
        i = i + 1;
    }
    assert(body.subrange(0, s@.len() - start) =~= body);
    Some(value)
}

fn strip_all_0x(s: &[char]) -> (r: Vec<char>)
    ensures
        r@ == strip_0x(s@),
{
    let n = s.len();
    let mut a: usize = 0;
    assert(s@.subrange(0, n as int) =~= s@);
    while n >= 2 && a <= n - 2 && s[a] == '0' && s[a + 1] == 'x'
        invariant
            a <= n,
            n == s@.len(),
            strip_0x(s@) == strip_0x(s@.subrange(a as int, n as int)),
        decreases n - a,
    {
        assert(s@.subrange(a as int, n as int).subrange(2, (n - a) as int) =~= s@.subrange(a + 2, n as int));
        a = a + 2;
    }
    crate::text::slice_chars(s, a, n)
}

/// What putting a row (translation in column B, offset in column D, bytes
/// available in column E) gives: nothing without a translation, else the
/// offset and the bytes to write there, the translation in Shift JIS with a
/// terminating zero and zeros up to the bytes available.
pub open spec fn patch_spec(row: Seq<Seq<char>>) -> Result<Option<(u64, Seq<u8>)>, StringInjectionError> {
    if row[1].len() == 0 {
        Ok(None)
    } else {
        match parse_hex_u64(strip_0x(row[3])) {
            None => Err(StringInjectionError::Offset),
            Some(offset) => match parse_unsigned(row[4], usize::MAX as nat) {
                None => Err(StringInjectionError::MaxBytes),
                Some(max) => {
                    let tl = sjis_encode(row[1]);
                    if tl.len() + 1 > max {
                        Err(StringInjectionError::TooLong)
                    } else {
                        Ok(Some((offset, tl.push(0u8) + Seq::new((max - tl.len() - 1) as nat, |_i: int| 0u8))))
                    }
                }
            },
        }
    }
}

/// A row with a translation, a hexadecimal offset and `n` written in decimal
/// as the bytes available: the translation does not fit when its Shift JIS
/// bytes with a terminating zero are more than `n`; otherwise the patch is
/// at the offset and is exactly `n` bytes, the Shift JIS bytes of the
/// translation followed by zeros.
pub proof fn lemma_patch_size(row: Seq<Seq<char>>, n: nat)
    requires
        row.len() >= 5,
        row[1].len() > 0,
        parse_hex_u64(strip_0x(row[3])) is Some,
        row[4] == crate::text::dec_chars(n),
        n <= usize::MAX,
    ensures
        ({
            let tl = sjis_encode(row[1]);
            match patch_spec(row) {
                Ok(Some((off, bytes))) => {
                    &&& tl.len() < n
                    &&& off == parse_hex_u64(strip_0x(row[3]))->0
                    &&& bytes.len() == n
                    &&& bytes.subrange(0, tl.len() as int) == tl
                    &&& forall|i: int| tl.len() <= i < n ==> bytes[i] == 0u8
                },
                Err(e) => e == StringInjectionError::TooLong && tl.len() >= n,
                Ok(None) => false,
            }
        }),
{
    crate::roundtrip::lemma_parse_dec(n, usize::MAX as nat);
    let tl = sjis_encode(row[1]);
    if tl.len() + 1 <= n {
        let bytes = tl.push(0u8) + Seq::new((n - tl.len() - 1) as nat, |_i: int| 0u8);
        assert(bytes.subrange(0, tl.len() as int) =~= tl);
        assert forall|i: int| tl.len() <= i < n implies bytes[i] == 0u8 by {
            if i > tl.len() {
                assert(bytes[i] == Seq::new((n - tl.len() - 1) as nat, |_i: int| 0u8)[i - tl.len() - 1]);
            }
        }
    }
}

/// Whether `string_patch` can read what it needs of `row`: the translation,
/// and for a translation the offset field, and the size field when the
/// offset is a hexadecimal number.
pub fn row_is_complete(row: &[String]) -> (r: bool)
    ensures
        r == (row@.len() >= 2 && (row@[1]@.len() > 0 ==> row@.len() >= 4) && (row@[1]@.len() > 0
            && parse_hex_u64(strip_0x(row@[3]@)) is Some ==> row@.len() >= 5)),
{
    if row.len() < 2 {
        return false;
    }
    if row[1].as_str().unicode_len() == 0 {
        return true;
    }
    if row.len() < 4 {
        return false;
    }
    if row.len() >= 5 {
        return true;
    }
    let hex = chars_of(row[3].as_str());
    parse_hex64(strip_all_0x(hex.as_slice()).as_slice()).is_none()
}

/// The place and bytes of a translated string of the string table.
pub fn string_patch(row: &[String]) -> (r: Result<Option<(u64, Vec<u8>)>, StringInjectionError>)
    requires
        row@.len() >= 2,
        row@[1]@.len() > 0 ==> row@.len() >= 4,
        row@[1]@.len() > 0 && parse_hex_u64(strip_0x(row@[3]@)) is Some ==> row@.len() >= 5,
    ensures
        match r {
            Ok(Some((off, bytes))) => patch_spec(row@.map_values(|s: String| s@))
                == Ok::<Option<(u64, Seq<u8>)>, StringInjectionError>(Some((off, bytes@))),
            Ok(None) => patch_spec(row@.map_values(|s: String| s@)) == Ok::<Option<(u64, Seq<u8>)>, StringInjectionError>(None),
            Err(e) => patch_spec(row@.map_values(|s: String| s@)) == Err::<Option<(u64, Seq<u8>)>, StringInjectionError>(e),
        },
{
    let ghost rv = row@.map_values(|s: String| s@);
    assert(rv[1] == row@[1]@);
    let translation = row[1].as_str();
    if translation.unicode_len() == 0 {
        return Ok(None);
    }
    assert(rv[3] == row@[3]@);
    let hex = chars_of(row[3].as_str());
    let offset = match parse_hex64(strip_all_0x(hex.as_slice()).as_slice()) {
        Some(o) => o,
        None => return Err(StringInjectionError::Offset),
    };
    assert(rv[4] == row@[4]@);
    let len_chars = chars_of(row[4].as_str());
    let max = match parse_u64(len_chars.as_slice(), usize::MAX as u64) {
        Some(m) => m as usize,
        None => return Err(StringInjectionError::MaxBytes),
    };
    let mut tl = crate::sjis::encode_sjis(translation);
    if tl.len() >= max {
        return Err(StringInjectionError::TooLong);
    }
    let pad = max - tl.len() - 1;
    tl.push(0);
    crate::bytes::push_repeat(&mut tl, 0, pad);
    Ok(Some((offset, tl)))
}

/// Where a file named in the string table is: in the overlay directory when
/// its name begins `overlay`.
pub fn exec_file_path(filename: &str) -> (r: Vec<String>)
    ensures
        r@.map_values(|s: String| s@) == (if has_prefix(filename@, "overlay"@) {
            seq!["overlay"@, filename@]
        } else {
            seq![filename@]
        }),
{
    let cs = chars_of(filename);
    let p = chars_of("overlay");
    let mut r: Vec<String> = Vec::new();
    if crate::text::starts_with(cs.as_slice(), p.as_slice()) {
        r.push(crate::text::string_of(p.as_slice()));
    }
    r.push(crate::text::string_of(cs.as_slice()));
    assert(r@.map_values(|s: String| s@) =~= (if has_prefix(filename@, "overlay"@) {
        seq!["overlay"@, filename@]
    } else {
        seq![filename@]
    }));
    r
}

} // verus!
