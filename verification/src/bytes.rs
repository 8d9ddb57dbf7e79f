//! Little-endian integer codecs and alignment arithmetic on byte sequences.
use vstd::prelude::*;

verus! {

/// The two little-endian bytes of `x`.
pub open spec fn le_bytes_u16(x: u16) -> Seq<u8> {
    seq![(x & 0xff) as u8, ((x >> 8u16) & 0xff) as u8]
}

/// The four little-endian bytes of `x`.
pub open spec fn le_bytes_u32(x: u32) -> Seq<u8> {
    seq![
        (x & 0xff) as u8,
        ((x >> 8u32) & 0xff) as u8,
        ((x >> 16u32) & 0xff) as u8,
        ((x >> 24u32) & 0xff) as u8,
    ]
}

/// The `u16` whose little-endian bytes are `b0, b1`.
pub open spec fn u16_of(b0: u8, b1: u8) -> u16 {
    (b0 as u16) | ((b1 as u16) << 8u16)
}

/// The `u32` whose little-endian bytes are `b0 .. b3`.
pub open spec fn u32_of(b0: u8, b1: u8, b2: u8, b3: u8) -> u32 {
    (b0 as u32) | ((b1 as u32) << 8u32) | ((b2 as u32) << 16u32) | ((b3 as u32) << 24u32)
}

/// The `u16` stored little-endian at `pos` in `s`.
pub open spec fn u16_at(s: Seq<u8>, pos: int) -> u16 {
    u16_of(s[pos], s[pos + 1])
}

/// The `u32` stored little-endian at `pos` in `s`.
pub open spec fn u32_at(s: Seq<u8>, pos: int) -> u32 {
    u32_of(s[pos], s[pos + 1], s[pos + 2], s[pos + 3])
}

/// The least multiple of `m` that is at least `x`.
pub open spec fn next_multiple(x: int, m: int) -> int
    recommends
        m > 0,
{
    if x % m == 0 {
        x
    } else {
        x + (m - x % m)
    }
}

pub proof fn lemma_u16_roundtrip(x: u16)
    ensures
        u16_of(le_bytes_u16(x)[0], le_bytes_u16(x)[1]) == x,
{
    let b0 = (x & 0xff) as u8;
    let b1 = ((x >> 8u16) & 0xff) as u8;
    assert((b0 as u16) | ((b1 as u16) << 8u16) == x) by (bit_vector)
        requires
            b0 == (x & 0xff) as u8,
            b1 == ((x >> 8u16) & 0xff) as u8,
    ;
}

pub proof fn lemma_u32_roundtrip(x: u32)
    ensures
        u32_of(le_bytes_u32(x)[0], le_bytes_u32(x)[1], le_bytes_u32(x)[2], le_bytes_u32(x)[3])
            == x,
{
    let b0 = (x & 0xff) as u8;
    let b1 = ((x >> 8u32) & 0xff) as u8;
    let b2 = ((x >> 16u32) & 0xff) as u8;
    let b3 = ((x >> 24u32) & 0xff) as u8;
    assert((b0 as u32) | ((b1 as u32) << 8u32) | ((b2 as u32) << 16u32) | ((b3 as u32) << 24u32)
        == x) by (bit_vector)
        requires
            b0 == (x & 0xff) as u8,
            b1 == ((x >> 8u32) & 0xff) as u8,
            b2 == ((x >> 16u32) & 0xff) as u8,
            b3 == ((x >> 24u32) & 0xff) as u8,
    ;
}

/// Appends the little-endian bytes of `x` to `v`.
pub fn push_u16_le(v: &mut Vec<u8>, x: u16)
    ensures
        final(v)@ == old(v)@ + le_bytes_u16(x),
{
    v.push((x & 0xff) as u8);
    v.push(((x >> 8u16) & 0xff) as u8);
    assert(final(v)@ =~= old(v)@ + le_bytes_u16(x));
}

/// Appends the little-endian bytes of `x` to `v`.
pub fn push_u32_le(v: &mut Vec<u8>, x: u32)
    ensures
        final(v)@ == old(v)@ + le_bytes_u32(x),
{
    v.push((x & 0xff) as u8);
    v.push(((x >> 8u32) & 0xff) as u8);
    v.push(((x >> 16u32) & 0xff) as u8);
    v.push(((x >> 24u32) & 0xff) as u8);
    assert(final(v)@ =~= old(v)@ + le_bytes_u32(x));
}

/// Reads the `u16` stored little-endian at `pos`, or `None` past the end.
pub fn read_u16_le(data: &[u8], pos: usize) -> (r: Option<u16>)
    ensures
        r is Some <==> pos + 2 <= data@.len(),
        r matches Some(x) ==> x == u16_at(data@, pos as int),
{
    if pos > data.len() || data.len() - pos < 2 {
        None
    } else {
        Some((data[pos] as u16) | ((data[pos + 1] as u16) << 8u16))
    }
}

/// Reads the `u32` stored little-endian at `pos`, or `None` past the end.
pub fn read_u32_le(data: &[u8], pos: usize) -> (r: Option<u32>)
    ensures
        r is Some <==> pos + 4 <= data@.len(),
        r matches Some(x) ==> x == u32_at(data@, pos as int),
{
    if pos > data.len() || data.len() - pos < 4 {
        None
    } else {
        Some(
            (data[pos] as u32) | ((data[pos + 1] as u32) << 8u32) | ((data[pos + 2] as u32)
                << 16u32) | ((data[pos + 3] as u32) << 24u32),
        )
    }
}

/// Appends all of `src` to `v`.
pub fn extend_bytes(v: &mut Vec<u8>, src: &[u8])
    ensures
        final(v)@ == old(v)@ + src@,
{
    let mut i: usize = 0;
    while i < src.len()
        invariant
            i <= src@.len(),
            v@ == old(v)@ + src@.subrange(0, i as int),
        decreases src@.len() - i,
    {
        v.push(src[i]);
        i = i + 1;
        assert(v@ =~= old(v)@ + src@.subrange(0, i as int));
    }
    assert(src@.subrange(0, src@.len() as int) =~= src@);
}

/// Appends `n` copies of `b` to `v`.
pub fn push_repeat(v: &mut Vec<u8>, b: u8, n: usize)
    ensures
        final(v)@ == old(v)@ + Seq::new(n as nat, |_i: int| b),
{
    let mut i: usize = 0;
    while i < n
        invariant
            i <= n,
            v@ == old(v)@ + Seq::new(i as nat, |_i: int| b),
        decreases n - i,
    {
        v.push(b);
        i = i + 1;
        assert(v@ =~= old(v)@ + Seq::new(i as nat, |_i: int| b));
    }
}

/// The least multiple of `m` that is at least `x`, when it fits in a `u32`.
pub fn next_multiple_u32(x: u32, m: u32) -> (r: Option<u32>)
    requires
        m > 0,
    ensures
        r is Some <==> next_multiple(x as int, m as int) <= u32::MAX,
        r matches Some(y) ==> y == next_multiple(x as int, m as int),
{
    let rem = x % m;
    if rem == 0 {
        Some(x)
    } else if x > u32::MAX - (m - rem) {
        None
    } else {
        Some(x + (m - rem))
    }
}

/// The least multiple of `m` that is at least `x`, when it fits in a `usize`.
pub fn next_multiple_usize(x: usize, m: usize) -> (r: Option<usize>)
    requires
        m > 0,
    ensures
        r is Some <==> next_multiple(x as int, m as int) <= usize::MAX,
        r matches Some(y) ==> y == next_multiple(x as int, m as int),
{
    let rem = x % m;
    if rem == 0 {
        Some(x)
    } else if x > usize::MAX - (m - rem) {
        None
    } else {
        Some(x + (m - rem))
    }
}

} // verus!
