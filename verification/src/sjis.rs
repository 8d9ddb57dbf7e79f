//! Shift JIS text, the encoding of the game's strings, through `encoding_rs`.
use vstd::prelude::*;
use vstd::utf8::is_ascii_chars;
use encoding_rs::SHIFT_JIS;

verus! {

/// The Shift JIS encoding of `text`, unmappable characters written as HTML
/// numeric character references, as `encoding_rs` produces it.
pub uninterp spec fn sjis_encode(text: Seq<char>) -> Seq<u8>;

/// The text that the bytes decode to as Shift JIS, `None` when they hold a
/// malformed sequence, as `encoding_rs` decodes it without replacement.
pub uninterp spec fn sjis_decode(bytes: Seq<u8>) -> Option<Seq<char>>;

/// The bytes of ASCII text.
pub open spec fn ascii_bytes(text: Seq<char>) -> Seq<u8> {
    text.map_values(|c: char| c as u8)
}

/// The characters of ASCII bytes.
pub open spec fn ascii_chars(bytes: Seq<u8>) -> Seq<char> {
    bytes.map_values(|b: u8| b as char)
}

/// All bytes are below 0x80.
pub open spec fn is_ascii_bytes(bytes: Seq<u8>) -> bool {
    forall|i: int| 0 <= i < bytes.len() ==> #[trigger] bytes[i] < 0x80
}

/// `encoding_rs::Encoding::encode` with `SHIFT_JIS`: the encoded bytes. Its
/// source returns the UTF-8 bytes unchanged when the text is all ASCII, which
/// is what the second clause states; of other text it is trusted to give
/// `sjis_encode`, a function of the text alone.
#[verifier::external_body]
pub(crate) fn encode_sjis(text: &str) -> (r: Vec<u8>)
    ensures
        r@ == sjis_encode(text@),
        is_ascii_chars(text@) ==> r@ == ascii_bytes(text@),
{
    SHIFT_JIS.encode(text).0.into_owned()
}

/// `encoding_rs::Encoding::decode_without_bom_handling_and_without_replacement`
/// with `SHIFT_JIS`: the decoded text, or `None` on a malformed sequence. Its
/// source returns the bytes unchanged when they are all ASCII, which is what
/// the second clause states.
#[verifier::external_body]
pub(crate) fn decode_sjis(bytes: &[u8]) -> (r: Option<String>)
    ensures
        match r {
            Some(s) => sjis_decode(bytes@) == Some(s@),
            None => sjis_decode(bytes@) is None,
        },
        is_ascii_bytes(bytes@) ==> (r.is_some() && r.unwrap()@ == ascii_chars(bytes@)),
{
    match SHIFT_JIS.decode_without_bom_handling_and_without_replacement(bytes) {
        Some(text) => Some(text.into_owned()),
        None => None,
    }
}

/// The encoding of `text` with `encode_sjis`.
pub fn sjis_bytes(text: &str) -> (r: Vec<u8>)
    ensures
        r@ == sjis_encode(text@),
        is_ascii_chars(text@) ==> r@ == ascii_bytes(text@),
{
    encode_sjis(text)
}

/// The number of bytes of `text` in Shift JIS, the measure of the game's line
/// length limit.
pub fn sj_len(text: &str) -> (r: usize)
    ensures
        r == sjis_encode(text@).len(),
{
    encode_sjis(text).len()
}

} // verus!
