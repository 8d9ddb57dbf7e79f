//! LZ10 compression, the format of the compressed entries of `.bin` archives.
//!
//! A compressed stream is a 4-byte header (`0x10` and the 24-bit decompressed
//! size) followed by groups: a flags byte, then up to 8 tokens, the most
//! significant flag bit first. A clear bit is a literal byte; a set bit is a
//! 2-byte back reference of 3..=18 bytes at a distance of 1..=0x1000.
use vstd::prelude::*;
use crate::bytes::{u32_at, u32_of, read_u32_le};

verus! {

/// The ways in which an LZ10 stream can be refused.
#[derive(Debug, Clone, Copy, PartialEq, Eq, Structural)]
pub enum Lz10Error {
    /// The low byte of the header is not `0x10`.
    BadMagic,
    /// The stream ends before the decompressed size is reached.
    UnexpectedEof,
    /// A back reference overshoots the decompressed size.
    Overrun,
    /// The data to compress has more than `0xFFFFFF` bytes.
    TooLarge,
}

/// What decoding a stream gives: the bytes, a refusal, or a back reference
/// that reaches before the start of the output (which the decoder cannot follow).
pub enum Lz10Decoded {
    Done(Seq<u8>),
    Refused(Lz10Error),
    Fault,
}

/// `n` bytes copied one at a time from `disp` bytes back, so that a copy may
/// overlap what it writes.
pub open spec fn lz_copy(out: Seq<u8>, disp: int, n: nat) -> Seq<u8>
    decreases n,
{
    if n == 0 {
        out
    } else {
        let o = lz_copy(out, disp, (n - 1) as nat);
        o.push(o[o.len() - disp])
    }
}

pub proof fn lemma_lz_copy_len(out: Seq<u8>, disp: int, n: nat)
    ensures
        lz_copy(out, disp, n).len() == out.len() + n,
        lz_copy(out, disp, n).subrange(0, out.len() as int) == out,
    decreases n,
{
    if n > 0 {
        lemma_lz_copy_len(out, disp, (n - 1) as nat);
        let o = lz_copy(out, disp, (n - 1) as nat);
        assert(o.push(o[o.len() - disp]).subrange(0, out.len() as int) =~= o.subrange(
            0,
            out.len() as int,
        ));
    }
}

/// Whether bit 7 of a flags byte is set: the next token is a back reference.
pub open spec fn flag_top(fl: u8) -> bool {
    fl & 0x80u8 != 0u8
}

/// Decoding from the flags byte at `pos`.
pub open spec fn lz10_block(src: Seq<u8>, pos: int, out: Seq<u8>, size: nat) -> Lz10Decoded
    decreases src.len() - pos, 0int,
{
    if pos < 0 || pos >= src.len() {
        Lz10Decoded::Refused(Lz10Error::UnexpectedEof)
    } else {
        lz10_tokens(src, pos + 1, src[pos], 0, out, size)
    }
}

/// Decoding the token `k` of a group, `fl` being the flags byte shifted left `k` times.
pub open spec fn lz10_tokens(
    src: Seq<u8>,
    pos: int,
    fl: u8,
    k: nat,
    out: Seq<u8>,
    size: nat,
) -> Lz10Decoded
    decreases src.len() - pos, 1int,
{
    if pos < 0 || pos > src.len() {
        Lz10Decoded::Refused(Lz10Error::UnexpectedEof)
    } else if k >= 8 {
        lz10_block(src, pos, out, size)
    } else if flag_top(fl) {
        if pos + 2 > src.len() {
            Lz10Decoded::Refused(Lz10Error::UnexpectedEof)
        } else {
            let len = src[pos] / 16 + 3;
            let disp = (src[pos] % 16) * 256 + src[pos + 1] + 1;
            if disp > out.len() {
                Lz10Decoded::Fault
            } else {
                lz10_step(src, pos + 2, fl << 1u8, k + 1, lz_copy(out, disp, len as nat), size)
            }
        }
    } else {
        if pos + 1 > src.len() {
            Lz10Decoded::Refused(Lz10Error::UnexpectedEof)
        } else {
            lz10_step(src, pos + 1, fl << 1u8, k + 1, out.push(src[pos]), size)
        }
    }
}

/// After a token: stop when the size is reached or passed, else go on.
pub open spec fn lz10_step(
    src: Seq<u8>,
    pos: int,
    fl: u8,
    k: nat,
    out: Seq<u8>,
    size: nat,
) -> Lz10Decoded
    decreases src.len() - pos, 2int,
{
    if out.len() > size {
        Lz10Decoded::Refused(Lz10Error::Overrun)
    } else if out.len() == size {
        Lz10Decoded::Done(out)
    } else if pos < 0 || pos > src.len() {
        Lz10Decoded::Refused(Lz10Error::UnexpectedEof)
    } else {
        lz10_tokens(src, pos, fl, k, out, size)
    }
}

/// What decoding the LZ10 stream `src` gives.
pub open spec fn lz10_decode(src: Seq<u8>) -> Lz10Decoded {
    if src.len() < 4 {
        Lz10Decoded::Refused(Lz10Error::UnexpectedEof)
    } else if u32_at(src, 0) & 0xff != 0x10 {
        Lz10Decoded::Refused(Lz10Error::BadMagic)
    } else {
        lz10_block(src, 4, Seq::empty(), (u32_at(src, 0) >> 8u32) as nat)
    }
}

/// What decoding a stream gives in executable code.
pub enum Decoded {
    Done(Vec<u8>),
    Refused(Lz10Error),
    Fault,
}

/// Decodes an LZ10 stream, telling apart the streams the decoder cannot follow.
pub fn decode_stream(src: &[u8]) -> (r: Decoded)
    ensures
        match r {
            Decoded::Done(v) => lz10_decode(src@) == Lz10Decoded::Done(v@),
            Decoded::Refused(e) => lz10_decode(src@) == Lz10Decoded::Refused(e),
            Decoded::Fault => lz10_decode(src@) is Fault,
        },
{
    let header = match read_u32_le(src, 0) {
        Some(h) => h,
        None => return Decoded::Refused(Lz10Error::UnexpectedEof),
    };
    if header & 0xff != 0x10 {
        return Decoded::Refused(Lz10Error::BadMagic);
    }
    let size: u32 = header >> 8u32;
    assert(header >> 8u32 < 0x1000000) by (bit_vector);
    let ghost total = lz10_decode(src@);
    let mut out: Vec<u8> = Vec::new();
    let mut pos: usize = 4;
    loop
        invariant
            4 <= pos <= src@.len(),
            out@.len() <= size,
            size < 0x1000000,
            lz10_block(src@, pos as int, out@, size as nat) == total,
            total == lz10_decode(src@),
        decreases src@.len() - pos,
    {
        if pos >= src.len() {
            return Decoded::Refused(Lz10Error::UnexpectedEof);
        }
        let mut flags: u8 = src[pos];
        pos = pos + 1;
        let ghost block_start = pos;
        let mut k: usize = 0;
        while k < 8
            invariant
                block_start <= pos <= src@.len(),
                k <= 8,
                out@.len() <= size,
                size < 0x1000000,
                lz10_tokens(src@, pos as int, flags, k as nat, out@, size as nat) == total,
                total == lz10_decode(src@),
            decreases 8 - k,
        {
            if flags & 0x80 != 0 {
                if src.len() - pos < 2 {
                    return Decoded::Refused(Lz10Error::UnexpectedEof);
                }
                let ref0 = src[pos];
                let ref1 = src[pos + 1];
                let length: usize = ((ref0 >> 4u8) as usize) + 3;
                assert(ref0 >> 4u8 == ref0 / 16) by (bit_vector);
                assert(ref0 & 0xFu8 == ref0 % 16) by (bit_vector);
                let disp: usize = ((ref0 & 0xF) as usize) * 256 + (ref1 as usize) + 1;
                if disp > out.len() {
                    return Decoded::Fault;
                }
                let ghost out0 = out@;
                let mut source_index: usize = out.len() - disp;
                let mut i: usize = 0;
                while i < length
                    invariant
                        i <= length,
                        1 <= disp <= out0.len(),
                        out0.len() <= size,
                        size < 0x1000000,
                        length <= 18,
                        out@ == lz_copy(out0, disp as int, i as nat),
                        source_index == out0.len() - disp + i,
                    decreases length - i,
                {
                    proof {
                        lemma_lz_copy_len(out0, disp as int, i as nat);
                    }
                    let b = out[source_index];
                    out.push(b);
                    source_index = source_index + 1;
                    i = i + 1;
                }
                pos = pos + 2;
            } else {
                if pos >= src.len() {
                    return Decoded::Refused(Lz10Error::UnexpectedEof);
                }
                out.push(src[pos]);
                pos = pos + 1;
            }
            flags = flags << 1u8;
            k = k + 1;
            if out.len() > size as usize {
                return Decoded::Refused(Lz10Error::Overrun);
            } else if out.len() == size as usize {
                return Decoded::Done(out);
            }
        }
    }
}

/// Decompresses the LZ10 stream `src`: the 4-byte header, then as many groups as
/// it takes to produce the decompressed size given in the header. Bytes after
/// that are ignored.
pub fn decompress(src: &[u8]) -> (r: Result<Vec<u8>, Lz10Error>)
    requires
        !(lz10_decode(src@) is Fault),
    ensures
        match r {
            Ok(v) => lz10_decode(src@) == Lz10Decoded::Done(v@),
            Err(e) => lz10_decode(src@) == Lz10Decoded::Refused(e),
        },
{
    match decode_stream(src) {
        Decoded::Done(v) => Ok(v),
        Decoded::Refused(e) => Err(e),
        Decoded::Fault => {
            assert(false);
            Err(Lz10Error::UnexpectedEof)
        },
    }
}

/// Whether `src` can be decoded without a back reference before the start of the
/// output, which is what `decompress` asks of its input.
pub fn is_decodable(src: &[u8]) -> (r: bool)
    ensures
        r == !(lz10_decode(src@) is Fault),
{
    match decode_stream(src) {
        Decoded::Fault => false,
        _ => true,
    }
}


// ---------------------------------------------------------------------------
// Compression
// ---------------------------------------------------------------------------

/// A token of a compressed stream: a literal byte, or a copy of `len` bytes
/// from `disp` bytes back.
pub enum LzToken {
    Literal(u8),
    Copy(nat, nat),
}

pub open spec fn is_copy(t: LzToken) -> bool {
    t is Copy
}

/// How many bytes a token produces.
pub open spec fn token_len(t: LzToken) -> nat {
    match t {
        LzToken::Literal(_) => 1,
        LzToken::Copy(len, _) => len,
    }
}

/// How many bytes the compressor looks ahead at `p` in data of `n` bytes.
pub open spec fn test_len(n: int, p: int) -> int {
    if n - p < 18 {
        n - p
    } else {
        18
    }
}

/// How far back the compressor looks at `p`.
pub open spec fn max_disp(p: int) -> int {
    if p < 0x1000 {
        p
    } else {
        0x1000
    }
}

/// The `l` bytes at `p` equal the `l` bytes `d` bytes earlier.
pub open spec fn matches_at(x: Seq<u8>, p: int, d: int, l: int) -> bool {
    forall|i: int| 0 <= i < l ==> #[trigger] x[p + i] == x[p - d + i]
}

/// At `p`, a copy of `l` bytes from `d` back is the longest match of at least
/// 3 bytes within reach, and of the longest matches the one from farthest back.
pub open spec fn is_best_ref(x: Seq<u8>, p: int, l: int, d: int) -> bool {
    &&& 3 <= l <= test_len(x.len() as int, p)
    &&& 2 <= d <= max_disp(p)
    &&& matches_at(x, p, d, l)
    &&& forall|d2: int, l2: int|
        2 <= d2 <= max_disp(p) && 0 <= l2 <= test_len(x.len() as int, p) && #[trigger] matches_at(
            x,
            p,
            d2,
            l2,
        ) ==> l2 <= l && (l2 == l ==> d2 <= d)
}

/// The token the compressor emits at `p`.
pub open spec fn greedy_token(x: Seq<u8>, p: int) -> LzToken {
    if exists|l: int, d: int| is_best_ref(x, p, l, d) {
        let (l, d) = choose|l: int, d: int| is_best_ref(x, p, l, d);
        LzToken::Copy(l as nat, d as nat)
    } else {
        LzToken::Literal(x[p])
    }
}

/// The tokens the compressor emits from `p` on.
pub open spec fn greedy_tokens(x: Seq<u8>, p: int) -> Seq<LzToken>
    decreases x.len() - p,
{
    if p < 0 || p >= x.len() {
        Seq::empty()
    } else {
        let t = greedy_token(x, p);
        if token_len(t) == 0 {
            Seq::empty()
        } else {
            seq![t] + greedy_tokens(x, p + token_len(t))
        }
    }
}

/// The bytes of one token.
pub open spec fn token_bytes(t: LzToken) -> Seq<u8> {
    match t {
        LzToken::Literal(b) => seq![b],
        LzToken::Copy(len, disp) => seq![
            ((len - 3) * 16 + (disp - 1) / 256) as u8,
            ((disp - 1) % 256) as u8,
        ],
    }
}

/// The bytes of a run of tokens.
pub open spec fn tokens_bytes(g: Seq<LzToken>) -> Seq<u8>
    decreases g.len(),
{
    if g.len() == 0 {
        Seq::empty()
    } else {
        token_bytes(g[0]) + tokens_bytes(g.drop_first())
    }
}

/// The flag bits of a group, the first token in the most significant used bit.
pub open spec fn flag_bits(g: Seq<LzToken>) -> u8
    decreases g.len(),
{
    if g.len() == 0 {
        0
    } else {
        (flag_bits(g.drop_last()) << 1u8) | (if is_copy(g.last()) {
            1u8
        } else {
            0u8
        })
    }
}

/// The flags byte of a group of at most 8 tokens, the first token in bit 7.
pub open spec fn flag_byte(g: Seq<LzToken>) -> u8 {
    flag_bits(g) << ((8 - g.len()) as u8)
}

/// The encoding of a token sequence: groups of 8 tokens, each after its flags byte.
pub open spec fn lz10_encode(t: Seq<LzToken>) -> Seq<u8>
    decreases t.len(),
{
    if t.len() == 0 {
        Seq::empty()
    } else if t.len() <= 8 {
        seq![flag_byte(t)] + tokens_bytes(t)
    } else {
        seq![flag_byte(t.take(8))] + tokens_bytes(t.take(8)) + lz10_encode(t.skip(8))
    }
}

/// The header of a stream that decompresses to `n` bytes.
pub open spec fn lz10_header(n: nat) -> Seq<u8> {
    seq![0x10u8, (n % 256) as u8, ((n / 256) % 256) as u8, ((n / 65536) % 256) as u8]
}

/// What the compressor produces for `x`.
pub open spec fn lz10_compressed(x: Seq<u8>) -> Seq<u8> {
    lz10_header(x.len()) + lz10_encode(greedy_tokens(x, 0))
}

proof fn lemma_best_unique(x: Seq<u8>, p: int, l1: int, d1: int, l2: int, d2: int)
    requires
        is_best_ref(x, p, l1, d1),
        is_best_ref(x, p, l2, d2),
    ensures
        l1 == l2,
        d1 == d2,
{
    assert(matches_at(x, p, d2, l2));
    assert(matches_at(x, p, d1, l1));
}

proof fn lemma_greedy_unfold(x: Seq<u8>, p: int)
    requires
        0 <= p < x.len(),
    ensures
        token_len(greedy_token(x, p)) >= 1,
        greedy_tokens(x, p) == seq![greedy_token(x, p)] + greedy_tokens(
            x,
            p + token_len(greedy_token(x, p)),
        ),
{
    if exists|l: int, d: int| is_best_ref(x, p, l, d) {
        let (l, d) = choose|l: int, d: int| is_best_ref(x, p, l, d);
        assert(is_best_ref(x, p, l, d));
    }
}

proof fn lemma_tokens_bytes_push(g: Seq<LzToken>, t: LzToken)
    ensures
        tokens_bytes(g.push(t)) == tokens_bytes(g) + token_bytes(t),
    decreases g.len(),
{
    if g.len() == 0 {
        assert(g.push(t).drop_first() =~= Seq::<LzToken>::empty());
        assert(g.push(t)[0] == t);
        assert(tokens_bytes(Seq::<LzToken>::empty()) =~= Seq::<u8>::empty());
        assert(tokens_bytes(g.push(t)) =~= token_bytes(t));
    } else {
        assert(g.push(t).drop_first() =~= g.drop_first().push(t));
        assert(g.push(t)[0] == g[0]);
        lemma_tokens_bytes_push(g.drop_first(), t);
        assert(tokens_bytes(g.push(t)) =~= tokens_bytes(g) + token_bytes(t));
    }
}

proof fn lemma_encode_append_group(a: Seq<LzToken>, g: Seq<LzToken>)
    requires
        a.len() % 8 == 0,
        1 <= g.len() <= 8,
    ensures
        lz10_encode(a + g) == lz10_encode(a) + (seq![flag_byte(g)] + tokens_bytes(g)),
    decreases a.len(),
{
    if a.len() == 0 {
        assert(a + g =~= g);
        assert(lz10_encode(a) =~= Seq::<u8>::empty());
        assert(lz10_encode(a + g) =~= lz10_encode(a) + (seq![flag_byte(g)] + tokens_bytes(g)));
    } else {
        assert((a + g).take(8) =~= a.take(8));
        assert((a + g).skip(8) =~= a.skip(8) + g);
        lemma_encode_append_group(a.skip(8), g);
        if a.len() == 8 {
            assert(a.take(8) =~= a);
            assert(a.skip(8) =~= Seq::<LzToken>::empty());
            assert(a.skip(8) + g =~= g);
        }
        assert(lz10_encode(a + g) =~= lz10_encode(a) + (seq![flag_byte(g)] + tokens_bytes(g)));
    }
}

fn match_length(data: &[u8], pos: usize, disp: usize, test_len: usize) -> (r: usize)
    requires
        1 <= disp <= pos,
        pos + test_len <= data.len(),
    ensures
        r <= test_len,
        matches_at(data@, pos as int, disp as int, r as int),
        r < test_len ==> data@[pos + r] != data@[pos - disp + r],
{
    let mut i: usize = 0;
    while i < test_len
        invariant
            i <= test_len,
            1 <= disp <= pos,
            pos + test_len <= data.len(),
            matches_at(data@, pos as int, disp as int, i as int),
        decreases test_len - i,
    {
        assert(pos + i < data@.len());
        let back: usize = pos - disp;
        if data[back + i] != data[pos + i] {
            return i;
        }
        i = i + 1;
    }
    test_len
}

/// The longest back reference at `position` and its distance, or a length of
/// at most 2 when no reference of 3 bytes or more is within reach.
fn best_reference(data: &[u8], position: usize) -> (r: (usize, usize))
    requires
        position < data@.len(),
    ensures
        r.0 > 2 ==> (r.0 <= 18 && 2 <= r.1 <= 0x1000 && position + r.0 <= data@.len()
            && greedy_token(data@, position as int) == LzToken::Copy(r.0 as nat, r.1 as nat)),
        r.0 <= 2 ==> greedy_token(data@, position as int) == LzToken::Literal(data@[position as int]),
{
    let ghost x = data@;
    let n = data.len();
    let test_length: usize = if n - position < 18 {
        n - position
    } else {
        18
    };
    let reach: usize = if position < 0x1000 {
        position
    } else {
        0x1000
    };
    let mut best_disp: usize = 0;
    let mut best_length: usize = 2;
    let mut disp: usize = reach;
    while disp >= 2 && best_length < test_length
        invariant
            n == x.len(),
            x == data@,
            position < n,
            test_length == test_len(n as int, position as int),
            reach == max_disp(position as int),
            disp <= reach,
            best_length >= 2,
            best_length > 2 ==> (best_length <= test_length && disp < best_disp <= reach
                && 2 <= best_disp && matches_at(
                x,
                position as int,
                best_disp as int,
                best_length as int,
            )),
            forall|d2: int, l2: int|
                disp < d2 <= reach && 2 <= d2 && 0 <= l2 <= test_length
                    && #[trigger] matches_at(x, position as int, d2, l2) ==> l2 <= best_length
                    && (l2 == best_length && best_length > 2 ==> d2 <= best_disp),
        decreases disp,
    {
        let this_length = match_length(data, position, disp, test_length);
        proof {
            assert forall|l2: int|
                0 <= l2 <= test_length && #[trigger] matches_at(
                    x,
                    position as int,
                    disp as int,
                    l2,
                ) implies l2 <= this_length by {
                if l2 > this_length {
                    assert(x[position + this_length] == x[position - disp + this_length]);
                }
            }
        }
        if this_length > best_length {
            best_length = this_length;
            best_disp = disp;
        }
        disp = disp - 1;
    }
    if best_length > 2 {
        proof {
            assert(is_best_ref(x, position as int, best_length as int, best_disp as int));
            assert(exists|l: int, d: int| is_best_ref(x, position as int, l, d));
            let (l, d) = choose|l: int, d: int| is_best_ref(x, position as int, l, d);
            lemma_best_unique(x, position as int, l, d, best_length as int, best_disp as int);
        }
    } else {
        proof {
            if exists|l: int, d: int| is_best_ref(x, position as int, l, d) {
                let (l, d) = choose|l: int, d: int| is_best_ref(x, position as int, l, d);
                assert(matches_at(x, position as int, d, l));
                assert(false);
            }
        }
    }
    (best_length, best_disp)
}

/// Compresses `data` to an LZ10 stream. At each position it emits the longest
/// back reference of 3 to 18 bytes from 2 to 0x1000 bytes back (of equally long
/// ones the farthest back), or else a literal byte.
pub fn compress(data: &[u8]) -> (r: Result<Vec<u8>, Lz10Error>)
    requires
        data@.len() > 0,
    ensures
        data@.len() > 0xFFFFFF ==> r == Err::<Vec<u8>, Lz10Error>(Lz10Error::TooLarge),
        data@.len() <= 0xFFFFFF ==> (r matches Ok(v) && v@ == lz10_compressed(data@)),
{
    let n = data.len();
    if n > 0xFFFFFF {
        return Err(Lz10Error::TooLarge);
    }
    let ghost x = data@;
    let mut out: Vec<u8> = Vec::new();
    out.push(0x10u8);
    out.push((n % 256) as u8);
    out.push(((n / 256) % 256) as u8);
    out.push(((n / 65536) % 256) as u8);
    assert(out@ =~= lz10_header(n as nat) + lz10_encode(Seq::<LzToken>::empty()));
    let mut position: usize = 0;
    let mut flags: u8 = 0;
    let mut flags_count: usize = 0;
    let mut mini_buffer: Vec<u8> = Vec::new();
    let ghost mut done: Seq<LzToken> = Seq::empty();
    let ghost mut cur: Seq<LzToken> = Seq::empty();
    assert(done + cur + greedy_tokens(x, 0) =~= greedy_tokens(x, 0));
    while position < n
        invariant
            n == x.len(),
            x == data@,
            0 < n <= 0xFFFFFF,
            position <= n,
            done.len() % 8 == 0,
            cur.len() == flags_count,
            flags_count <= 8,
            position > 0 ==> flags_count >= 1,
            out@ == lz10_header(n as nat) + lz10_encode(done),
            flags == flag_bits(cur),
            mini_buffer@ == tokens_bytes(cur),
            done + cur + greedy_tokens(x, position as int) == greedy_tokens(x, 0),
        decreases n - position,
    {
        if flags_count == 8 {
            proof {
                lemma_encode_append_group(done, cur);
                let fb = flags;
                assert(fb << 0u8 == fb) by (bit_vector);
                assert(flag_byte(cur) == flags);
            }
            out.push(flags);
            let mut mb = mini_buffer;
            out.append(&mut mb);
            mini_buffer = Vec::new();
            proof {
                assert(out@ =~= lz10_header(n as nat) + lz10_encode(done + cur));
                assert(done + cur + Seq::<LzToken>::empty() =~= done + cur);
                done = done + cur;
                cur = Seq::empty();
                assert(mini_buffer@ =~= tokens_bytes(cur));
            }
            flags = 0;
            flags_count = 0;
        }
        let (best_length, best_disp) = best_reference(data, position);
        let ghost t: LzToken;
        flags = flags << 1u8;
        flags_count = flags_count + 1;
        if best_length > 2 {
            proof {
                t = LzToken::Copy(best_length as nat, best_disp as nat);
            }
            mini_buffer.push(((best_length - 3) * 16 + (best_disp - 1) / 256) as u8);
            mini_buffer.push(((best_disp - 1) % 256) as u8);
            position = position + best_length;
            flags = flags | 1;
        } else {
            proof {
                t = LzToken::Literal(x[position as int]);
                let fv = flags;
                assert(fv | 0u8 == fv) by (bit_vector);
            }
            mini_buffer.push(data[position]);
            position = position + 1;
        }
        assert(flags == ((flag_bits(cur) << 1u8) | (if is_copy(t) {
            1u8
        } else {
            0u8
        })));
        proof {
            let old_pos = (position - token_len(t)) as int;
            lemma_greedy_unfold(x, old_pos);
            lemma_tokens_bytes_push(cur, t);
            assert(cur.push(t).drop_last() =~= cur);
            assert(cur.push(t).last() == t);
            assert(flag_bits(cur.push(t)) == ((flag_bits(cur) << 1u8) | (if is_copy(t) {
                1u8
            } else {
                0u8
            })));
            assert(done + cur.push(t) + greedy_tokens(x, position as int) =~= done + cur + (seq![t]
                + greedy_tokens(x, position as int)));
            cur = cur.push(t);
            assert(mini_buffer@ =~= tokens_bytes(cur));
            assert(flags == flag_bits(cur));
        }
    }
    proof {
        assert(greedy_tokens(x, n as int) =~= Seq::<LzToken>::empty());
        assert(done + cur =~= greedy_tokens(x, 0));
        lemma_encode_append_group(done, cur);
    }
    flags = flags << ((8 - flags_count) as u8);
    out.push(flags);
    let mut mb = mini_buffer;
    out.append(&mut mb);
    assert(out@ =~= lz10_compressed(x));
    Ok(out)
}


// ---------------------------------------------------------------------------
// Decompressing what was compressed gives the data back
// ---------------------------------------------------------------------------

/// A token can be followed after `out`: a literal, or a copy of 3..=18 bytes
/// from at most 0x1000 bytes back, and not before the start of `out`.
pub open spec fn tok_ok(out: Seq<u8>, t: LzToken) -> bool {
    match t {
        LzToken::Literal(_) => true,
        LzToken::Copy(l, d) => 3 <= l <= 18 && 1 <= d <= 0x1000 && d <= out.len(),
    }
}

/// The output after one more token.
pub open spec fn apply_token(out: Seq<u8>, t: LzToken) -> Seq<u8> {
    match t {
        LzToken::Literal(b) => out.push(b),
        LzToken::Copy(l, d) => lz_copy(out, d as int, l),
    }
}

/// The tokens `ts`, followed after `out`, produce exactly `x`, each one on an
/// output shorter than `x`.
pub open spec fn toks_ok(out: Seq<u8>, ts: Seq<LzToken>, x: Seq<u8>) -> bool
    decreases ts.len(),
{
    if ts.len() == 0 {
        out == x
    } else {
        out.len() < x.len() && tok_ok(out, ts[0]) && toks_ok(
            apply_token(out, ts[0]),
            ts.drop_first(),
            x,
        )
    }
}

proof fn lemma_copy_matches(x: Seq<u8>, p: int, d: int, l: nat)
    requires
        1 <= d <= p,
        p + l <= x.len(),
        matches_at(x, p, d, l as int),
    ensures
        lz_copy(x.take(p), d, l) == x.take(p + l),
    decreases l,
{
    if l > 0 {
        lemma_copy_matches(x, p, d, (l - 1) as nat);
        let o = lz_copy(x.take(p), d, (l - 1) as nat);
        assert(x[p + (l - 1)] == x[p - d + (l - 1)]);
        assert(o.push(o[o.len() - d]) =~= x.take(p + l));
    }
}

proof fn lemma_greedy_ok(x: Seq<u8>, p: int)
    requires
        0 <= p <= x.len(),
    ensures
        toks_ok(x.take(p), greedy_tokens(x, p), x),
    decreases x.len() - p,
{
    if p == x.len() {
        assert(x.take(p) =~= x);
    } else {
        lemma_greedy_unfold(x, p);
        let t = greedy_token(x, p);
        let ts = greedy_tokens(x, p);
        let q = p + token_len(t);
        assert(ts[0] == t);
        assert(ts.drop_first() =~= greedy_tokens(x, q));
        if exists|l: int, d: int| is_best_ref(x, p, l, d) {
            let (l, d) = choose|l: int, d: int| is_best_ref(x, p, l, d);
            assert(is_best_ref(x, p, l, d));
            lemma_copy_matches(x, p, d, l as nat);
        } else {
            assert(x.take(p).push(x[p]) =~= x.take(p + 1));
        }
        lemma_greedy_ok(x, q);
    }
}

proof fn lemma_flag_bits(g: Seq<LzToken>)
    requires
        g.len() <= 8,
    ensures
        flag_bits(g) >> (g.len() as u8) == 0,
        forall|i: int|
            0 <= i < g.len() ==> (((flag_bits(g) >> (i as u8)) & 1u8) == 1u8) == is_copy(
                #[trigger] g[g.len() - 1 - i],
            ),
    decreases g.len(),
{
    if g.len() == 0 {
        let z: u8 = 0;
        assert(z >> 0u8 == 0u8) by (bit_vector)
            requires
                z == 0u8,
        ;
    } else {
        let h = g.drop_last();
        lemma_flag_bits(h);
        let v = flag_bits(h);
        let b: u8 = if is_copy(g.last()) {
            1
        } else {
            0
        };
        let n = h.len() as u8;
        assert(flag_bits(g) == (v << 1u8) | b);
        let n1: u8 = (n + 1) as u8;
        assert(((v << 1u8) | b) >> n1 == 0u8) by (bit_vector)
            requires
                v >> n == 0u8,
                n < 8u8,
                n1 == n + 1,
                b <= 1u8,
        ;
        assert(((((v << 1u8) | b) >> 0u8) & 1u8 == 1u8) == (b == 1u8)) by (bit_vector)
            requires
                b <= 1u8,
        ;
        assert forall|i: int| 0 <= i < g.len() implies (((flag_bits(g) >> (i as u8)) & 1u8)
            == 1u8) == is_copy(#[trigger] g[g.len() - 1 - i]) by {
            if i > 0 {
                let iu = i as u8;
                let im: u8 = (iu - 1) as u8;
                assert((((v << 1u8) | b) >> iu) & 1u8 == (v >> im) & 1u8) by (bit_vector)
                    requires
                        v >> n == 0u8,
                        n < 8u8,
                        b <= 1u8,
                        1u8 <= iu <= 8u8,
                        im == iu - 1,
                ;
                assert(g[g.len() - 1 - i] == h[h.len() - 1 - (i - 1)]);
            }
        }
    }
}

proof fn lemma_flag_byte(g: Seq<LzToken>)
    requires
        1 <= g.len() <= 8,
    ensures
        forall|j: int| 0 <= j < g.len() ==> flag_top(flag_byte(g) << (j as u8)) == is_copy(#[trigger] g[j]),
{
    lemma_flag_bits(g);
    let v = flag_bits(g);
    let n = g.len() as u8;
    assert forall|j: int| 0 <= j < g.len() implies flag_top(flag_byte(g) << (j as u8)) == is_copy(
        #[trigger] g[j],
    ) by {
        let ju = j as u8;
        let sh: u8 = (8 - n) as u8;
        let bi: u8 = (n - 1 - ju) as u8;
        assert((((v << sh) << ju) & 0x80u8 != 0u8) == (((v >> bi) & 1u8) == 1u8)) by (bit_vector)
            requires
                v >> n == 0u8,
                1u8 <= n <= 8u8,
                ju < n,
                sh == 8 - n,
                bi == n - 1 - ju,
        ;
        let i = g.len() - 1 - j;
        assert(g[g.len() - 1 - i] == g[j]);
    }
}

proof fn lemma_subrange_split(s: Seq<u8>, p: int, a: Seq<u8>, b: Seq<u8>)
    requires
        0 <= p <= s.len(),
        s.subrange(p, s.len() as int) == a + b,
    ensures
        forall|i: int| 0 <= i < a.len() ==> s[p + i] == #[trigger] a[i],
        p + a.len() <= s.len(),
        s.subrange(p + a.len(), s.len() as int) == b,
{
    let len = s.len() as int;
    assert(s.subrange(p, len).len() == len - p);
    assert forall|i: int| 0 <= i < a.len() implies s[p + i] == #[trigger] a[i] by {
        assert(s.subrange(p, len)[i] == s[p + i]);
        assert((a + b)[i] == a[i]);
    }
    assert(s.subrange(p + a.len(), len) =~= b) by {
        assert forall|i: int| 0 <= i < b.len() implies s.subrange(p + a.len(), len)[i] == b[i] by {
            assert(s.subrange(p, len)[a.len() + i] == s[p + a.len() + i]);
            assert((a + b)[a.len() + i] == b[i]);
        }
    }
}

/// Decoding from the next flags byte, at `pos`, after a full group.
proof fn lemma_decode_next_block(src: Seq<u8>, pos: int, out: Seq<u8>, ts: Seq<LzToken>, x: Seq<u8>)
    requires
        ts.len() > 0,
        0 <= pos <= src.len(),
        src.subrange(pos, src.len() as int) == lz10_encode(ts),
        toks_ok(out, ts, x),
    ensures
        lz10_block(src, pos, out, x.len()) == Lz10Decoded::Done(x),
    decreases ts.len(), 1int,
{
    let m2 = group_rest(0, ts);
    let g2 = ts.take(m2);
    lemma_flag_byte(g2);
    let fb = flag_byte(g2);
    let body = tokens_bytes(g2) + lz10_encode(ts.skip(m2));
    assert(lz10_encode(ts) =~= seq![fb] + body) by {
        if ts.len() <= 8 {
            assert(g2 =~= ts);
            assert(ts.skip(m2) =~= Seq::<LzToken>::empty());
        }
    }
    lemma_subrange_split(src, pos, seq![fb], body);
    assert(seq![fb][0] == fb);
    assert(src[pos] == fb);
    assert forall|j: int| 0 <= j < m2 implies flag_top(fb << (j as u8)) == is_copy(
        #[trigger] ts[j],
    ) by {
        assert(g2[j] == ts[j]);
    }
    lemma_decode_tokens(src, pos + 1, fb, 0, out, ts, x);
}

/// How many tokens of the current group are left at token `k` of it.
pub open spec fn group_rest(k: nat, ts: Seq<LzToken>) -> int {
    if 8 - k < ts.len() {
        8 - k
    } else {
        ts.len() as int
    }
}

#[verifier::rlimit(40)]
proof fn lemma_decode_tokens(
    src: Seq<u8>,
    pos: int,
    fl: u8,
    k: nat,
    out: Seq<u8>,
    ts: Seq<LzToken>,
    x: Seq<u8>,
)
    requires
        k < 8,
        ts.len() > 0,
        0 <= pos <= src.len(),
        src.subrange(pos, src.len() as int) == tokens_bytes(ts.take(group_rest(k, ts)))
            + lz10_encode(ts.skip(group_rest(k, ts))),
        forall|j: int|
            0 <= j < group_rest(k, ts) ==> flag_top(fl << (j as u8)) == is_copy(#[trigger] ts[j]),
        toks_ok(out, ts, x),
    ensures
        lz10_tokens(src, pos, fl, k, out, x.len()) == Lz10Decoded::Done(x),
    decreases ts.len(), 0int,
{
    let m = group_rest(k, ts);
    let g = ts.take(m);
    let r = ts.skip(m);
    let t = ts[0];
    let rest = ts.drop_first();
    assert(g[0] == t);
    let tb = token_bytes(t);
    assert(tokens_bytes(g) == tb + tokens_bytes(g.drop_first()));
    let w = tb.len() as int;
    assert(src.subrange(pos, src.len() as int) =~= tb + (tokens_bytes(g.drop_first())
        + lz10_encode(r)));
    lemma_subrange_split(src, pos, tb, tokens_bytes(g.drop_first()) + lz10_encode(r));
    let f0 = fl;
    assert(f0 << 0u8 == f0) by (bit_vector);
    assert(flag_top(fl << (0int as u8)) == is_copy(ts[0]));
    let out2 = apply_token(out, t);
    assert(toks_ok(out2, rest, x));
    assert(out.len() < x.len());
    match t {
        LzToken::Copy(l, d) => {
            assert(w == 2);
            let b0 = src[pos];
            let b1 = src[pos + 1];
            assert(b0 == tb[0] && b1 == tb[1]);
            assert(b0 / 16 + 3 == l && (b0 % 16) * 256 + b1 + 1 == d) by (nonlinear_arith)
                requires
                    3 <= l <= 18,
                    1 <= d <= 0x1000,
                    b0 == ((l - 3) * 16 + (d - 1) / 256) as u8,
                    b1 == ((d - 1) % 256) as u8,
            ;
            assert(flag_top(fl));
            assert(lz10_tokens(src, pos, fl, k, out, x.len()) == lz10_step(
                src,
                pos + 2,
                fl << 1u8,
                k + 1,
                out2,
                x.len(),
            ));
        },
        LzToken::Literal(b) => {
            assert(w == 1);
            assert(src[pos] == tb[0]);
            assert(!flag_top(fl));
            assert(lz10_tokens(src, pos, fl, k, out, x.len()) == lz10_step(
                src,
                pos + 1,
                fl << 1u8,
                k + 1,
                out2,
                x.len(),
            ));
        },
    }
    if rest.len() == 0 {
        assert(out2 == x);
    } else {
        assert(out2.len() < x.len());
        if k + 1 < 8 {
            assert forall|j: int| 0 <= j < m - 1 implies flag_top((fl << 1u8) << (j as u8))
                == is_copy(#[trigger] rest[j]) by {
                let ju = j as u8;
                let j1: u8 = (ju + 1) as u8;
                assert((fl << 1u8) << ju == fl << j1) by (bit_vector)
                    requires
                        ju < 7u8,
                        j1 == ju + 1,
                ;
                assert(flag_top(fl << ((j + 1) as u8)) == is_copy(ts[j + 1]));
            }
            assert(group_rest((k + 1) as nat, rest) == m - 1);
            assert(rest.take(m - 1) =~= g.drop_first());
            assert(rest.skip(m - 1) =~= r);
            lemma_decode_tokens(src, pos + w, fl << 1u8, (k + 1) as nat, out2, rest, x);
        } else {
            assert(m == 1);
            assert(g.drop_first() =~= Seq::<LzToken>::empty());
            assert(r =~= rest);
            assert(tokens_bytes(g.drop_first()) =~= Seq::<u8>::empty());
            assert(tokens_bytes(g.drop_first()) + lz10_encode(r) =~= lz10_encode(rest));
            lemma_decode_next_block(src, pos + w, out2, rest, x);
        }
    }
}

/// Decompressing what `compress` produces gives the data back.
pub proof fn lemma_lz10_roundtrip(x: Seq<u8>)
    requires
        0 < x.len() <= 0xFFFFFF,
    ensures
        lz10_decode(lz10_compressed(x)) == Lz10Decoded::Done(x),
{
    let ts = greedy_tokens(x, 0);
    lemma_greedy_unfold(x, 0);
    lemma_greedy_ok(x, 0);
    assert(x.take(0) =~= Seq::<u8>::empty());
    let src = lz10_compressed(x);
    let n = x.len() as u32;
    let b1 = (n % 256) as u8;
    let b2 = ((n / 256) % 256) as u8;
    let b3 = ((n / 65536) % 256) as u8;
    assert(n & 0xffu32 == n % 256u32 && (n >> 8u32) & 0xffu32 == (n / 256u32) % 256u32 && (n
        >> 16u32) & 0xffu32 == (n / 65536u32) % 256u32) by (bit_vector);
    let c1 = (n & 0xffu32) as u8;
    let c2 = ((n >> 8u32) & 0xffu32) as u8;
    let c3 = ((n >> 16u32) & 0xffu32) as u8;
    assert(c1 == b1 && c2 == b2 && c3 == b3);
    let h = u32_of(0x10u8, b1, b2, b3);
    assert(h == (16u32 | ((c1 as u32) << 8u32) | ((c2 as u32) << 16u32) | ((c3 as u32) << 24u32)));
    assert(h & 0xffu32 == 0x10u32 && h >> 8u32 == n) by (bit_vector)
        requires
            n < 0x1000000u32,
            c1 == (n & 0xffu32) as u8,
            c2 == ((n >> 8u32) & 0xffu32) as u8,
            c3 == ((n >> 16u32) & 0xffu32) as u8,
            h == (16u32 | ((c1 as u32) << 8u32) | ((c2 as u32) << 16u32) | ((c3 as u32) << 24u32)),
    ;
    let m = group_rest(0, ts);
    let g = ts.take(m);
    lemma_flag_byte(g);
    let body = tokens_bytes(g) + lz10_encode(ts.skip(m));
    assert(lz10_encode(ts) =~= seq![flag_byte(g)] + body) by {
        if ts.len() <= 8 {
            assert(g =~= ts);
            assert(ts.skip(m) =~= Seq::<LzToken>::empty());
        }
    }
    assert(src =~= lz10_header(x.len()) + (seq![flag_byte(g)] + body));
    assert(src[0] == 0x10u8 && src[1] == b1 && src[2] == b2 && src[3] == b3);
    assert(u32_at(src, 0) == u32_of(0x10u8, b1, b2, b3));
    assert(src[4] == flag_byte(g));
    assert(src.subrange(5, src.len() as int) =~= body);
    assert forall|j: int| 0 <= j < m implies flag_top(flag_byte(g) << (j as u8)) == is_copy(
        #[trigger] ts[j],
    ) by {
        assert(g[j] == ts[j]);
    }
    lemma_decode_tokens(src, 5, flag_byte(g), 0, Seq::empty(), ts, x);
}

/// Bytes after a stream that decodes do not change what it decodes to.
pub proof fn lemma_block_ext(src: Seq<u8>, tail: Seq<u8>, pos: int, out: Seq<u8>, size: nat)
    requires
        lz10_block(src, pos, out, size) is Done,
    ensures
        lz10_block(src + tail, pos, out, size) == lz10_block(src, pos, out, size),
    decreases src.len() - pos, 0int,
{
    lemma_tokens_ext(src, tail, pos + 1, src[pos], 0, out, size);
    assert((src + tail)[pos] == src[pos]);
}

pub proof fn lemma_tokens_ext(src: Seq<u8>, tail: Seq<u8>, pos: int, fl: u8, k: nat, out: Seq<u8>, size: nat)
    requires
        lz10_tokens(src, pos, fl, k, out, size) is Done,
    ensures
        lz10_tokens(src + tail, pos, fl, k, out, size) == lz10_tokens(src, pos, fl, k, out, size),
    decreases src.len() - pos, 1int,
{
    let s2 = src + tail;
    if k >= 8 {
        lemma_block_ext(src, tail, pos, out, size);
    } else if flag_top(fl) {
        assert(s2[pos] == src[pos] && s2[pos + 1] == src[pos + 1]);
        let len = src[pos] / 16 + 3;
        let disp = (src[pos] % 16) * 256 + src[pos + 1] + 1;
        lemma_step_ext(src, tail, pos + 2, fl << 1u8, k + 1, lz_copy(out, disp, len as nat), size);
    } else {
        assert(s2[pos] == src[pos]);
        lemma_step_ext(src, tail, pos + 1, fl << 1u8, k + 1, out.push(src[pos]), size);
    }
}

pub proof fn lemma_step_ext(src: Seq<u8>, tail: Seq<u8>, pos: int, fl: u8, k: nat, out: Seq<u8>, size: nat)
    requires
        lz10_step(src, pos, fl, k, out, size) is Done,
    ensures
        lz10_step(src + tail, pos, fl, k, out, size) == lz10_step(src, pos, fl, k, out, size),
    decreases src.len() - pos, 2int,
{
    if out.len() < size {
        lemma_tokens_ext(src, tail, pos, fl, k, out, size);
    }
}

/// A stream that decodes decodes the same with bytes after it.
pub proof fn lemma_decode_ext(src: Seq<u8>, tail: Seq<u8>)
    requires
        lz10_decode(src) is Done,
    ensures
        lz10_decode(src + tail) == lz10_decode(src),
{
    let s2 = src + tail;
    assert(s2[0] == src[0] && s2[1] == src[1] && s2[2] == src[2] && s2[3] == src[3]);
    lemma_block_ext(src, tail, 4, Seq::empty(), (u32_at(src, 0) >> 8u32) as nat);
}

} // verus!
