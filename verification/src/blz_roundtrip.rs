//! What decompressing a file that BLZ compression made gives back.
use vstd::prelude::*;
use crate::blz::{
    BlzError, BlzRun, blz_token, blz_run, blz_final, blz_blocks, lemma_step_pos, back_match, best_ref, copy_down,
    ref_byte0, ref_byte1, lemma_back_match_bound, blz_step, blz_tokens, blz_block, BlzDecoded,
};
use crate::lz10::flag_top;
use crate::blz::{blz_compressed, blz_panics, blz_decode, blz_footer, truncated, first_below, blz_region_size, blz_header_size, blz_extend_size};
use crate::bytes::next_multiple;

verus! {

/// Shifting by nothing leaves a byte as it is.
proof fn lemma_shift_zero()
    by (bit_vector)
    ensures
        forall|b: u8| #[trigger] (b >> 0u8) == b,
        forall|b: u8| #[trigger] (b << 0u8) == b,
{
}

/// The compressor's state after one token from `s`.
#[verifier::opaque]
pub open spec fn token_of(x: Seq<u8>, m: int, s: BlzRun) -> BlzRun {
    blz_token(x, m, s)
}

/// The compressor's state after `k` tokens from `s`.
pub open spec fn run_k(x: Seq<u8>, m: int, s: BlzRun, k: nat) -> BlzRun
    decreases k,
{
    if k == 0 {
        s
    } else {
        token_of(x, m, run_k(x, m, s, (k - 1) as nat))
    }
}

/// The number of tokens the compressor writes from `s`.
pub open spec fn steps(x: Seq<u8>, m: int, s: BlzRun) -> nat
    decreases (if s.0 > m {
        s.0 - m
    } else {
        0
    }),
{
    if s.0 <= m {
        0
    } else {
        proof {
            lemma_step_pos(x, m, s);
        }
        1 + steps(x, m, blz_token(x, m, s))
    }
}

proof fn lemma_run_k_shift(x: Seq<u8>, m: int, s: BlzRun, k: nat)
    ensures
        run_k(x, m, blz_token(x, m, s), k) == run_k(x, m, s, k + 1),
    decreases k,
{
    reveal(token_of);
    if k > 0 {
        lemma_run_k_shift(x, m, s, (k - 1) as nat);
        assert(run_k(x, m, s, k + 1) == blz_token(x, m, run_k(x, m, s, k)));
    } else {
        assert(run_k(x, m, s, 0) == s);
        assert(run_k(x, m, s, 1) == blz_token(x, m, run_k(x, m, s, 0)));
    }
}

/// Running the compressor is taking its tokens one by one; before the last
/// one the position is past `m`.
proof fn lemma_run_steps(x: Seq<u8>, m: int, s: BlzRun)
    ensures
        blz_run(x, m, s) == run_k(x, m, s, steps(x, m, s)),
        forall|k: nat| k < steps(x, m, s) ==> #[trigger] run_k(x, m, s, k).0 > m,
        run_k(x, m, s, steps(x, m, s)).0 <= m,
    decreases (if s.0 > m {
        s.0 - m
    } else {
        0
    }),
{
    reveal(token_of);
    if s.0 > m {
        lemma_step_pos(x, m, s);
        let t = blz_token(x, m, s);
        lemma_run_steps(x, m, t);
        lemma_run_k_shift(x, m, s, steps(x, m, t));
        assert forall|k: nat| k < steps(x, m, s) implies #[trigger] run_k(x, m, s, k).0 > m by {
            if k > 0 {
                lemma_run_k_shift(x, m, s, (k - 1) as nat);
                assert(run_k(x, m, t, (k - 1) as nat).0 > m);
            }
        }
    }
}

/// The compressor's state before its first token.
pub open spec fn run_start(x: Seq<u8>) -> BlzRun {
    (x.len() as int, Seq::empty(), 0u8, 0, Seq::empty(), x.len() as int, Seq::empty())
}

/// The size of the file if compression stopped at `s`.
pub open spec fn total_of(s: BlzRun) -> int {
    s.0 + s.1.len() + 1 + s.4.len()
}

/// The compressed bytes written up to `s`.
pub open spec fn used_of(s: BlzRun) -> int {
    if s.3 == 0 {
        0
    } else {
        (s.1.len() + 1int + s.4.len()) as int
    }
}

/// The compressor's state after `k` tokens of compressing `x` above `m`.
pub open spec fn state_at(x: Seq<u8>, m: int, k: nat) -> BlzRun {
    run_k(x, m, run_start(x), k)
}

/// What holds of the state after `k` tokens, looking back at the earlier ones:
/// the position and the current block's count and flags are in range, the
/// bytes written only grow, the best size is at most every size seen, and each
/// record is the position and size after some token, smaller than every size
/// before it and than the input.
#[verifier::opaque]
pub open spec fn fwd(x: Seq<u8>, m: int, k: nat) -> bool {
    let s = state_at(x, m, k);
    &&& m <= s.0 <= x.len()
    &&& (k == 0 ==> s == run_start(x))
    &&& (k >= 1 ==> 1 <= s.3 <= 8)
    &&& (1 <= s.3 < 8 ==> s.2 >> (s.3 as u8) == 0u8)
    &&& s.5 <= x.len()
    &&& (forall|j: nat| 1 <= j <= k ==> s.5 <= #[trigger] total_of(state_at(x, m, j)))
    &&& (forall|j: nat| j <= k ==> #[trigger] used_of(state_at(x, m, j)) <= used_of(s))
    &&& (forall|i: int| 0 <= i < s.6.len() ==> {
        &&& s.6[i].1 < x.len()
        &&& exists|j: nat| #![trigger state_at(x, m, j)] 1 <= j <= k && s.6[i] == (state_at(x, m, j).0, total_of(state_at(x, m, j)))
            && forall|j2: nat| 1 <= j2 < j ==> total_of(#[trigger] state_at(x, m, j2)) > s.6[i].1
    })
}

proof fn lemma_fwd(x: Seq<u8>, m: int, k: nat)
    requires
        m < x.len(),
        k <= steps(x, m, run_start(x)),
    ensures
        fwd(x, m, k),
    decreases k,
{
    reveal(token_of);
    reveal(fwd);
    lemma_run_steps(x, m, run_start(x));
    if k > 0 {
        let j0 = (k - 1) as nat;
        lemma_fwd(x, m, j0);
        let s = state_at(x, m, j0);
        let t = state_at(x, m, k);
        assert(s.0 > m);
        assert(t == blz_token(x, m, s));
        lemma_step_pos(x, m, s);
        let full = s.3 == 8;
        let flags = if full { 0u8 } else { s.2 };
        let count = if full { 0 } else { s.3 };
        assert(0 <= count < 8);
        assert(t.3 == count + 1);
        if count == 0 {
            assert(flags == 0u8);
            lemma_shift_zero();
        }
        assert(flags >> (count as u8) == 0u8);
        assert(t.2 == (flags << 1u8) | 1u8 || t.2 == flags << 1u8);
        if t.3 < 8 {
            let c = count as u8;
            let c1 = t.3 as u8;
            assert(c1 == c + 1);
            assert(((flags << 1u8) | 1u8) >> c1 == 0u8 && (flags << 1u8) >> c1 == 0u8) by (bit_vector)
                requires
                    flags >> c == 0u8,
                    c < 7,
                    c1 == c + 1;
        }
        assert(used_of(t) >= used_of(s));
        assert forall|j: nat| j <= k implies #[trigger] used_of(state_at(x, m, j)) <= used_of(t) by {
            if j < k {
                assert(used_of(state_at(x, m, j)) <= used_of(s));
            }
        }
        assert forall|j: nat| 1 <= j <= k implies t.5 <= #[trigger] total_of(state_at(x, m, j)) by {
            if j < k {
                assert(s.5 <= total_of(state_at(x, m, j)));
            }
        }
        assert forall|i: int| 0 <= i < t.6.len() implies {
            &&& t.6[i].1 < x.len()
            &&& exists|j: nat| #![trigger state_at(x, m, j)] 1 <= j <= k && t.6[i] == (state_at(x, m, j).0, total_of(state_at(x, m, j)))
                && forall|j2: nat| 1 <= j2 < j ==> total_of(#[trigger] state_at(x, m, j2)) > t.6[i].1
        } by {
            if i < s.6.len() {
                assert(t.6[i] == s.6[i]);
                let j = choose|j: nat| #![trigger state_at(x, m, j)] 1 <= j <= j0 && s.6[i] == (state_at(x, m, j).0, total_of(state_at(x, m, j)))
                    && forall|j2: nat| 1 <= j2 < j ==> total_of(#[trigger] state_at(x, m, j2)) > s.6[i].1;
                assert(1 <= j <= k && t.6[i] == (state_at(x, m, j).0, total_of(state_at(x, m, j))));
            } else {
                assert(t.6[i] == (t.0, total_of(t)));
                assert forall|j2: nat| 1 <= j2 < k implies total_of(#[trigger] state_at(x, m, j2)) > t.6[i].1 by {
                    assert(s.5 <= total_of(state_at(x, m, j2)));
                }
            }
        }
    }
}

/// The simple facts of `fwd`: the position, count and flags in range.
proof fn lemma_fwd_basic(x: Seq<u8>, m: int, k: nat)
    requires
        m < x.len(),
        k <= steps(x, m, run_start(x)),
    ensures
        ({
            let s = state_at(x, m, k);
            &&& m <= s.0 <= x.len()
            &&& (k == 0 ==> s == run_start(x))
            &&& (k >= 1 ==> 1 <= s.3 <= 8)
            &&& (1 <= s.3 < 8 ==> s.2 >> (s.3 as u8) == 0u8)
        }),
{
    lemma_fwd(x, m, k);
    reveal(fwd);
}

/// The bytes written only grow.
proof fn lemma_used_grows(x: Seq<u8>, m: int, j: nat, k: nat)
    requires
        m < x.len(),
        j <= k <= steps(x, m, run_start(x)),
    ensures
        used_of(state_at(x, m, j)) <= used_of(state_at(x, m, k)),
{
    lemma_fwd(x, m, k);
    reveal(fwd);
}

/// The bytes written up to `s` stand in the final blocks: the finished blocks,
/// then the flags byte of the current block, whose top bits are the flags so
/// far, then its tokens.
pub open spec fn laid(blocks: Seq<u8>, s: BlzRun) -> bool {
    &&& s.1.len() + 1 + s.4.len() <= blocks.len()
    &&& blocks.subrange(0, s.1.len() as int) == s.1
    &&& blocks.subrange(s.1.len() + 1int, s.1.len() + 1int + s.4.len()) == s.4
    &&& blocks[s.1.len() as int] >> ((8 - s.3) as u8) == s.2
}

proof fn lemma_laid(x: Seq<u8>, m: int, k: nat)
    requires
        m < x.len(),
        1 <= k <= steps(x, m, run_start(x)),
    ensures
        laid(blz_blocks(state_at(x, m, steps(x, m, run_start(x)))), state_at(x, m, k)),
    decreases steps(x, m, run_start(x)) - k,
{
    reveal(token_of);
    reveal(fwd);
    let n_steps = steps(x, m, run_start(x));
    let f = state_at(x, m, n_steps);
    let blocks = blz_blocks(f);
    lemma_fwd(x, m, k);
    let s = state_at(x, m, k);
    if k == n_steps {
        let c = (8 - s.3) as u8;
        let fl = s.2;
        assert(((fl << c) >> c) == fl) by (bit_vector)
            requires
                c == 0 || fl >> ((8 - c) as u8) == 0u8,
                c < 8;
        assert(blocks[s.1.len() as int] == fl << c);
        assert(blocks.subrange(0, s.1.len() as int) =~= s.1);
        assert(blocks.subrange(s.1.len() + 1int, s.1.len() + 1int + s.4.len()) =~= s.4);
        assert(s.1.len() + 1 + s.4.len() <= blocks.len());
        assert(blocks[s.1.len() as int] >> ((8 - s.3) as u8) == s.2);
        assert(laid(blocks, s));
    } else {
        lemma_laid(x, m, k + 1);
        lemma_run_steps(x, m, run_start(x));
        let t = state_at(x, m, k + 1);
        assert(t == blz_token(x, m, s));
        if s.3 == 8 {
            assert(t.1 == s.1.push(s.2) + s.4);
            assert(blocks.subrange(0, t.1.len() as int) == t.1);
            assert(t.1.subrange(0, s.1.len() as int) =~= s.1);
            assert(t.1[s.1.len() as int] == s.2);
            assert(t.1.subrange(s.1.len() + 1int, s.1.len() + 1int + s.4.len()) =~= s.4);
            assert(blocks.subrange(0, s.1.len() as int) =~= blocks.subrange(0, t.1.len() as int).subrange(0, s.1.len() as int));
            assert(blocks.subrange(0, t.1.len() as int)[s.1.len() as int] == s.2);
            assert(blocks.subrange(s.1.len() + 1int, s.1.len() + 1int + s.4.len()) =~= blocks.subrange(0, t.1.len() as int).subrange(s.1.len() + 1int, s.1.len() + 1int + s.4.len()));
            let b = s.2;
            lemma_shift_zero();
            assert(s.1.len() + 1 + s.4.len() <= blocks.len());
            assert(blocks[s.1.len() as int] >> ((8 - s.3) as u8) == s.2);
            assert(laid(blocks, s));
        } else {
            assert(t.1 == s.1);
            assert(t.3 == s.3 + 1);
            assert(s.4.len() <= t.4.len());
            assert(t.4.subrange(0, s.4.len() as int) == s.4);
            assert(blocks.subrange(s.1.len() + 1int, s.1.len() + 1int + s.4.len()) =~= blocks.subrange(s.1.len() + 1int, s.1.len() + 1int + t.4.len()).subrange(0, s.4.len() as int));
            let f0 = blocks[s.1.len() as int];
            let s2 = s.2;
            let t2 = t.2;
            let c = s.3 as u8;
            assert(((8 - t.3) as u8) == ((7 - c) as u8));
            assert(((8 - s.3) as u8) == ((8 - c) as u8));
            assert(f0 >> ((7 - c) as u8) == t2);
            assert(t2 == (s2 << 1u8) | 1u8 || t2 == s2 << 1u8);
            assert(f0 >> ((8 - c) as u8) == s2) by (bit_vector)
                requires
                    f0 >> ((7 - c) as u8) == t2,
                    t2 == (s2 << 1u8) | 1u8 || t2 == s2 << 1u8,
                    s2 >> c == 0u8,
                    1 <= c < 8;
            assert(s.1.len() + 1 + s.4.len() <= blocks.len());
            assert(blocks.subrange(0, s.1.len() as int) == s.1);
            assert(laid(blocks, s));
        }
    }
}

/// The byte `q + 1` before `pos` equals the one `d` bytes further on.
pub open spec fn same_back(x: Seq<u8>, pos: int, d: int, q: int) -> bool {
    x[pos - 1 - q] == x[pos + d - 1 - q]
}

/// The bytes that a match of `back_match` counts are equal.
proof fn lemma_back_match_eq(x: Seq<u8>, pos: int, d: int, tl: int, i: int)
    requires
        0 <= i <= tl,
    ensures
        forall|q: int| i <= q < back_match(x, pos, d, tl, i) ==> #[trigger] same_back(x, pos, d, q),
    decreases tl - i,
{
    if i < tl && x[pos - 1 - i] == x[pos + d - 1 - i] {
        lemma_back_match_eq(x, pos, d, tl, i + 1);
    }
}

/// The reference that the search chooses, when longer than what it started
/// with, is at a displacement it tried, no longer than that displacement, and
/// its bytes match.
proof fn lemma_best_ref_props(x: Seq<u8>, pos: int, tl: int, md: int, disp: int, bl: int, bd: int)
    requires
        0 <= tl,
        1 <= disp,
    ensures
        ({
            let (l, d) = best_ref(x, pos, tl, md, disp, bl, bd);
            (l == bl && d == bd) || (bl < l <= tl && disp <= d <= md && l <= d && forall|q: int|
                0 <= q < l ==> #[trigger] same_back(x, pos, d, q))
        }),
    decreases (if disp <= md {
        md + 1 - disp
    } else {
        0
    }),
{
    if disp <= md {
        lemma_back_match_bound(x, pos, disp, tl, 0);
        lemma_back_match_eq(x, pos, disp, tl, 0);
        let mm = back_match(x, pos, disp, tl, 0);
        let l = if mm < disp {
            mm
        } else {
            disp
        };
        if l > bl {
            if l != tl {
                lemma_best_ref_props(x, pos, tl, md, disp + 1, l, disp);
            }
        } else {
            lemma_best_ref_props(x, pos, tl, md, disp + 1, bl, bd);
        }
    }
}

/// Copying `n` bytes from `disp` bytes ahead, with `disp` at least `n`, puts
/// the bytes from there in place and leaves the others.
proof fn lemma_copy_down(buf: Seq<u8>, dst: int, disp: int, n: nat)
    requires
        0 <= dst,
        n <= disp,
        dst + disp + n <= buf.len(),
    ensures
        copy_down(buf, dst, disp, n).len() == buf.len(),
        forall|q: int| 0 <= q < buf.len() && !(dst <= q < dst + n) ==> #[trigger] copy_down(buf, dst, disp, n)[q] == buf[q],
        forall|q: int| dst <= q < dst + n ==> #[trigger] copy_down(buf, dst, disp, n)[q] == buf[q + disp],
    decreases n,
{
    if n > 0 {
        let b1 = buf.update(dst + n - 1, buf[dst + disp + n - 1]);
        lemma_copy_down(b1, dst, disp, (n - 1) as nat);
        assert forall|q: int| dst <= q < dst + n implies #[trigger] copy_down(buf, dst, disp, n)[q] == buf[q + disp] by {
            if q < dst + n - 1 {
                assert(b1[q + disp] == buf[q + disp]);
            }
        }
    }
}

/// The two bytes of a reference give back its length and displacement.
proof fn lemma_ref_bytes(bl: int, bd: int)
    requires
        3 <= bl <= 18,
        3 <= bd <= 0x1002,
    ensures
        ref_byte0(bl, bd) / 16 + 3 == bl,
        (ref_byte0(bl, bd) % 16) * 256 + ref_byte1(bd) + 3 == bd,
{
    let hi = (bd - 3) / 256;
    assert(0 <= hi <= 15);
    assert((bl - 3) * 16 + hi <= 255);
    assert(ref_byte0(bl, bd) == (bl - 3) * 16 + hi);
    assert(ref_byte1(bd) == (bd - 3) % 256);
}

proof fn lemma_positions_fall(x: Seq<u8>, m: int, j1: nat, j2: nat)
    requires
        m < x.len(),
        j1 < j2 <= steps(x, m, run_start(x)),
    ensures
        state_at(x, m, j1).0 > state_at(x, m, j2).0,
    decreases j2 - j1,
{
    reveal(token_of);
    lemma_run_steps(x, m, run_start(x));
    let s = state_at(x, m, (j2 - 1) as nat);
    lemma_step_pos(x, m, s);
    assert(state_at(x, m, j2) == blz_token(x, m, s));
    if j1 < j2 - 1 {
        lemma_positions_fall(x, m, j1, (j2 - 1) as nat);
    }
}

/// A decompression of a file compressed from `x` keeping `bp` bytes: the
/// compressor stopped after `kend` tokens, the kept blocks are `kept`, and the
/// buffer `buf0` holds `x`'s first `bp` bytes, then `kept` reversed. Every size
/// the compressor saw up to there is at least the stored one.
pub open spec fn setting(x: Seq<u8>, m: int, bp: int, kend: nat, kept: Seq<u8>, buf0: Seq<u8>) -> bool {
    let n = x.len() as int;
    let kk = kept.len() as int;
    let blocks = blz_blocks(state_at(x, m, steps(x, m, run_start(x))));
    &&& 0 <= m < n
    &&& 1 <= kend <= steps(x, m, run_start(x))
    &&& state_at(x, m, kend).0 == bp
    &&& kk == used_of(state_at(x, m, kend))
    &&& kk <= blocks.len()
    &&& kept == blocks.take(kk)
    &&& buf0.len() == n
    &&& buf0.take(bp) == x.take(bp)
    &&& (forall|i: int| 0 <= i < kk ==> #[trigger] buf0[bp + i] == kept[kk - 1 - i])
    &&& n >= bp + kk
    &&& (forall|j: nat| 1 <= j <= kend ==> #[trigger] total_of(state_at(x, m, j)) >= bp + kk)
}

/// The buffer after the first `j` tokens are decoded: the bytes not yet read
/// are as they were, and `x` is there from the position the compressor had
/// reached.
pub open spec fn at_token(x: Seq<u8>, m: int, bp: int, kk: int, buf0: Seq<u8>, j: nat, buf: Seq<u8>) -> bool {
    let s = state_at(x, m, j);
    &&& buf.len() == x.len()
    &&& buf.subrange(0, bp + kk - used_of(s)) == buf0.subrange(0, bp + kk - used_of(s))
    &&& buf.subrange(s.0, x.len() as int) == x.subrange(s.0, x.len() as int)
}

/// Whether the token after `s` starts a new block.
pub open spec fn fresh_block(s: BlzRun) -> bool {
    s.3 == 0 || s.3 == 8
}

/// How many tokens of its block come before the token after `s`.
pub open spec fn tokens_before(s: BlzRun) -> nat {
    if fresh_block(s) {
        0
    } else {
        s.3 as nat
    }
}

/// The token bytes of its block before the token after `s`.
pub open spec fn mini_before(s: BlzRun) -> Seq<u8> {
    if fresh_block(s) {
        Seq::empty()
    } else {
        s.4
    }
}

/// The length and displacement of the reference the compressor looks for at
/// `s`; a length of two means none.
pub open spec fn ref_at(x: Seq<u8>, m: int, s: BlzRun) -> (int, int) {
    let pos = s.0;
    let tl = if pos - m < 18 {
        pos - m
    } else {
        18
    };
    let md = if x.len() - pos < 0x1002 {
        x.len() - pos
    } else {
        0x1002
    };
    best_ref(x, pos, tl, md, 3, 2, 0)
}

/// What one token does to the compressor's state.
proof fn lemma_token_facts(x: Seq<u8>, m: int, s: BlzRun)
    requires
        m < s.0 <= x.len(),
        0 <= s.3 <= 8,
        s.3 == 0 ==> s.1.len() == 0 && s.4.len() == 0 && s.2 == 0,
    ensures
        ({
            let t = token_of(x, m, s);
            let (bl, bd) = ref_at(x, m, s);
            let f0 = if fresh_block(s) { 0u8 } else { s.2 };
            &&& t.1 == if s.3 == 8 { s.1.push(s.2) + s.4 } else { s.1 }
            &&& t.1.len() == if fresh_block(s) { used_of(s) } else { s.1.len() as int }
            &&& t.3 == tokens_before(s) + 1
            &&& bl > 2 ==> {
                &&& t.0 == s.0 - bl
                &&& t.2 == (f0 << 1u8) | 1u8
                &&& t.4 == mini_before(s).push(ref_byte0(bl, bd)).push(ref_byte1(bd))
                &&& 3 <= bl <= 18 && bl <= s.0 - m && 3 <= bd <= 0x1002 && s.0 + bd <= x.len() && bl <= bd
                &&& forall|q: int| 0 <= q < bl ==> #[trigger] same_back(x, s.0, bd, q)
            }
            &&& bl <= 2 ==> {
                &&& t.0 == s.0 - 1
                &&& t.2 == f0 << 1u8
                &&& t.4 == mini_before(s).push(x[s.0 - 1])
            }
        }),
{
    reveal(token_of);
    let pos = s.0;
    let n = x.len() as int;
    let tl = if pos - m < 18 { pos - m } else { 18 };
    let md = if n - pos < 0x1002 { n - pos } else { 0x1002 };
    lemma_best_ref_props(x, pos, tl, md, 3, 2, 0);
}

/// Decoding the token after the `j`-th: the decoder, past the flags byte,
/// writes that token's bytes of `x` below the position and reads on.
/// Decoding a reference token: its two bytes, read from below the unread
/// part, give its length and displacement, and the bytes it copies are those
/// of `x`.
proof fn lemma_ref_token(
    x: Seq<u8>,
    buf: Seq<u8>,
    buf0: Seq<u8>,
    bp: int,
    ci0: int,
    ci1: int,
    pos: int,
    bl: int,
    bd: int,
    fl1: u8,
    kt: nat,
) -> (buf2: Seq<u8>)
    requires
        buf.len() == x.len(),
        buf0.len() == x.len(),
        0 <= bp,
        2 <= ci1 <= ci0,
        bp + ci0 <= x.len(),
        buf.subrange(0, bp + ci0) == buf0.subrange(0, bp + ci0),
        pos <= x.len(),
        buf.subrange(pos, x.len() as int) == x.subrange(pos, x.len() as int),
        kt < 8,
        flag_top(fl1),
        buf[bp + ci1 - 2] == ref_byte1(bd),
        buf[bp + ci1 - 1] == ref_byte0(bl, bd),
        3 <= bl <= 18,
        3 <= bd <= 0x1002,
        pos + bd <= x.len(),
        bl <= bd,
        pos - bl >= bp + ci1 - 2,
        forall|q: int| 0 <= q < bl ==> #[trigger] same_back(x, pos, bd, q),
    ensures
        blz_tokens(buf, bp, ci1, fl1, kt, pos - bp) == blz_step(buf2, bp, ci1 - 2, fl1 << 1u8, kt + 1, pos - bl - bp),
        buf2.len() == x.len(),
        buf2.subrange(0, bp + ci1 - 2) == buf0.subrange(0, bp + ci1 - 2),
        buf2.subrange(pos - bl, x.len() as int) == x.subrange(pos - bl, x.len() as int),
{
    let n = x.len() as int;
    let t0 = pos - bl;
    lemma_ref_bytes(bl, bd);
    lemma_copy_down(buf, t0, bd, bl as nat);
    let buf2 = copy_down(buf, t0, bd, bl as nat);
    assert(blz_tokens(buf, bp, ci1, fl1, kt, pos - bp) == blz_step(buf2, bp, ci1 - 2, fl1 << 1u8, kt + 1, pos - bl - bp));
    assert(buf2.subrange(0, bp + ci1 - 2) =~= buf0.subrange(0, bp + ci1 - 2)) by {
        assert forall|q: int| 0 <= q < bp + ci1 - 2 implies #[trigger] buf2.subrange(0, bp + ci1 - 2)[q] == buf0.subrange(0, bp + ci1 - 2)[q] by {
            assert(buf2[q] == buf[q]);
            assert(buf.subrange(0, bp + ci0)[q] == buf0.subrange(0, bp + ci0)[q]);
        }
    }
    assert(buf2.subrange(t0, n) =~= x.subrange(t0, n)) by {
        assert forall|i: int| 0 <= i < n - t0 implies #[trigger] buf2.subrange(t0, n)[i] == x.subrange(t0, n)[i] by {
            let q = i + t0;
            if q < pos {
                assert(buf.subrange(pos, n)[q + bd - pos] == x.subrange(pos, n)[q + bd - pos]);
                assert(same_back(x, pos, bd, pos - 1 - q));
            } else {
                assert(buf.subrange(pos, n)[q - pos] == x.subrange(pos, n)[q - pos]);
            }
        }
    }
    buf2
}

/// Decoding a literal token: its byte, read from below the unread part, is
/// the byte of `x` before the position.
proof fn lemma_literal_token(
    x: Seq<u8>,
    buf: Seq<u8>,
    buf0: Seq<u8>,
    bp: int,
    ci0: int,
    ci1: int,
    pos: int,
    fl1: u8,
    kt: nat,
) -> (buf2: Seq<u8>)
    requires
        buf.len() == x.len(),
        buf0.len() == x.len(),
        0 <= bp,
        1 <= ci1 <= ci0,
        bp + ci0 <= x.len(),
        buf.subrange(0, bp + ci0) == buf0.subrange(0, bp + ci0),
        bp < pos <= x.len(),
        buf.subrange(pos, x.len() as int) == x.subrange(pos, x.len() as int),
        kt < 8,
        !flag_top(fl1),
        buf[bp + ci1 - 1] == x[pos - 1],
        pos - 1 >= bp + ci1 - 1,
    ensures
        blz_tokens(buf, bp, ci1, fl1, kt, pos - bp) == blz_step(buf2, bp, ci1 - 1, fl1 << 1u8, kt + 1, pos - 1 - bp),
        buf2.len() == x.len(),
        buf2.subrange(0, bp + ci1 - 1) == buf0.subrange(0, bp + ci1 - 1),
        buf2.subrange(pos - 1, x.len() as int) == x.subrange(pos - 1, x.len() as int),
{
    let n = x.len() as int;
    let buf2 = buf.update(pos - 1, buf[bp + ci1 - 1]);
    assert(blz_tokens(buf, bp, ci1, fl1, kt, pos - bp) == blz_step(buf2, bp, ci1 - 1, fl1 << 1u8, kt + 1, pos - 1 - bp));
    assert(buf2.subrange(0, bp + ci1 - 1) =~= buf0.subrange(0, bp + ci1 - 1)) by {
        assert forall|q: int| 0 <= q < bp + ci1 - 1 implies #[trigger] buf2.subrange(0, bp + ci1 - 1)[q] == buf0.subrange(0, bp + ci1 - 1)[q] by {
            assert(buf.subrange(0, bp + ci0)[q] == buf0.subrange(0, bp + ci0)[q]);
        }
    }
    assert(buf2.subrange(pos - 1, n) =~= x.subrange(pos - 1, n)) by {
        assert forall|i: int| 0 <= i < n - (pos - 1) implies #[trigger] buf2.subrange(pos - 1, n)[i] == x.subrange(pos - 1, n)[i] by {
            let q = i + (pos - 1);
            if q >= pos {
                assert(buf.subrange(pos, n)[q - pos] == x.subrange(pos, n)[q - pos]);
            }
        }
    }
    buf2
}

/// The bytes of the token after the `j`-th lie below the unread part of the
/// buffer, in reverse.
proof fn lemma_read_token(
    x: Seq<u8>,
    m: int,
    bp: int,
    kend: nat,
    kept: Seq<u8>,
    buf0: Seq<u8>,
    j: nat,
    buf: Seq<u8>,
)
    requires
        setting(x, m, bp, kend, kept, buf0),
        j < kend,
        at_token(x, m, bp, kept.len() as int, buf0, j, buf),
    ensures
        ({
            let s = state_at(x, m, j);
            let t = state_at(x, m, j + 1);
            let kk = kept.len() as int;
            &&& used_of(t) <= kk
            &&& used_of(s) <= t.1.len() + 1 + mini_before(s).len()
            &&& forall|q: int| mini_before(s).len() <= q < t.4.len() ==> #[trigger] buf[bp + kk - 1 - (t.1.len() + 1 + q)] == t.4[q]
        }),
{
    let kk = kept.len() as int;
    let nt = steps(x, m, run_start(x));
    let blocks = blz_blocks(state_at(x, m, nt));
    let s = state_at(x, m, j);
    let t = state_at(x, m, j + 1);
    lemma_fwd_basic(x, m, kend);
    lemma_fwd_basic(x, m, j);
    lemma_laid(x, m, j + 1);
    lemma_positions_fall(x, m, j, kend);
    assert(t == token_of(x, m, s));
    lemma_token_facts(x, m, s);
    lemma_used_grows(x, m, j + 1, kend);
    let prior = mini_before(s);
    let ci0 = kk - used_of(s);
    assert(used_of(t) == t.1.len() + 1 + t.4.len());
    assert(used_of(s) <= t.1.len() + 1 + prior.len()) by {
        if !fresh_block(s) {
            assert(t.1 == s.1);
        }
    }
    assert forall|q: int| prior.len() <= q < t.4.len() implies #[trigger] buf[bp + kk - 1 - (t.1.len() + 1 + q)] == t.4[q] by {
        let c = t.1.len() + 1 + q;
        assert(buf.subrange(0, bp + ci0)[bp + kk - 1 - c] == buf0.subrange(0, bp + ci0)[bp + kk - 1 - c]);
        assert(buf0[bp + (kk - 1 - c)] == kept[kk - 1 - (kk - 1 - c)]);
        assert(kept[c] == blocks[c]);
        assert(blocks.subrange(t.1.len() + 1int, t.1.len() + 1int + t.4.len())[q] == t.4[q]);
    }
}

/// Decoding the token after the `j`-th: the decoder, past the flags byte,
/// writes that token's bytes of `x` below the position and reads on.
proof fn lemma_token_step(
    x: Seq<u8>,
    m: int,
    bp: int,
    kend: nat,
    kept: Seq<u8>,
    buf0: Seq<u8>,
    j: nat,
    buf: Seq<u8>,
) -> (buf2: Seq<u8>)
    requires
        setting(x, m, bp, kend, kept, buf0),
        j < kend,
        at_token(x, m, bp, kept.len() as int, buf0, j, buf),
    ensures
        ({
            let s = state_at(x, m, j);
            let t = state_at(x, m, j + 1);
            let kk = kept.len() as int;
            let fb = blz_blocks(state_at(x, m, steps(x, m, run_start(x))))[t.1.len() as int];
            let kt = tokens_before(s);
            let ci1 = kk - (t.1.len() + 1 + mini_before(s).len());
            &&& t.3 == kt + 1
            &&& blz_tokens(buf, bp, ci1, fb << (kt as u8), kt, s.0 - bp) == blz_step(
                buf2,
                bp,
                kk - used_of(t),
                (fb << (kt as u8)) << 1u8,
                t.3 as nat,
                t.0 - bp,
            )
            &&& at_token(x, m, bp, kk, buf0, j + 1, buf2)
        }),
{
    let n = x.len() as int;
    let kk = kept.len() as int;
    let nt = steps(x, m, run_start(x));
    let blocks = blz_blocks(state_at(x, m, nt));
    let s = state_at(x, m, j);
    let t = state_at(x, m, j + 1);
    lemma_fwd_basic(x, m, kend);
    lemma_fwd_basic(x, m, j);
    lemma_fwd_basic(x, m, j + 1);
    lemma_laid(x, m, j + 1);
    lemma_positions_fall(x, m, j, kend);
    assert(t == token_of(x, m, s));
    lemma_token_facts(x, m, s);
    if j + 1 < kend {
        lemma_positions_fall(x, m, j + 1, kend);
    }
    lemma_read_token(x, m, bp, kend, kept, buf0, j, buf);
    assert(t.0 >= bp);
    assert(total_of(t) >= bp + kk);
    let kt = tokens_before(s);
    let prior = mini_before(s);
    let ci0 = kk - used_of(s);
    let ci1 = kk - (t.1.len() + 1 + prior.len());
    let fb = blocks[t.1.len() as int];
    let fl1 = fb << (kt as u8);
    let pos = s.0;
    let (bl, bd) = ref_at(x, m, s);
    let f0 = if fresh_block(s) { 0u8 } else { s.2 };
    let t2 = t.2;
    let isref = bl > 2;
    assert(fb >> ((7 - kt) as u8) == t2) by {
        assert(((8 - t.3) as u8) == ((7 - kt) as u8));
    }
    let k8 = kt as u8;
    assert(flag_top(fl1) == isref) by {
        assert(((fb << k8) & 0x80u8 != 0u8) == isref) by (bit_vector)
            requires
                fb >> ((7 - k8) as u8) == t2,
                k8 < 8,
                isref ==> t2 == (f0 << 1u8) | 1u8,
                !isref ==> t2 == f0 << 1u8;
    }
    assert(used_of(t) == t.1.len() + 1 + t.4.len());
    if isref {
        let p1 = t.4.len() - 1;
        assert(buf[bp + kk - 1 - (t.1.len() + 1 + p1)] == t.4[p1]);
        assert(buf[bp + kk - 1 - (t.1.len() + 1 + (p1 - 1))] == t.4[p1 - 1]);
        let buf2 = lemma_ref_token(x, buf, buf0, bp, ci0, ci1, pos, bl, bd, fl1, kt);
        buf2
    } else {
        let p1 = t.4.len() - 1;
        assert(buf[bp + kk - 1 - (t.1.len() + 1 + p1)] == t.4[p1]);
        let buf2 = lemma_literal_token(x, buf, buf0, bp, ci0, ci1, pos, fl1, kt);
        buf2
    }
}

/// The count of tokens of the current block as the decoder sees it: a block
/// of eight, or none yet, means a new flags byte comes next.
pub open spec fn dec_count(s: BlzRun) -> nat {
    if s.3 == 0 {
        8
    } else {
        s.3 as nat
    }
}

/// Decoding on from the `j`-th token gives `x`.
proof fn lemma_decode_from(
    x: Seq<u8>,
    m: int,
    bp: int,
    kend: nat,
    kept: Seq<u8>,
    buf0: Seq<u8>,
    j: nat,
    buf: Seq<u8>,
    fl: u8,
)
    requires
        setting(x, m, bp, kend, kept, buf0),
        j <= kend,
        at_token(x, m, bp, kept.len() as int, buf0, j, buf),
        ({
            let s = state_at(x, m, j);
            1 <= s.3 < 8 ==> fl == blz_blocks(state_at(x, m, steps(x, m, run_start(x))))[s.1.len() as int]
                << (s.3 as u8)
        }),
    ensures
        ({
            let s = state_at(x, m, j);
            blz_step(buf, bp, kept.len() - used_of(s), fl, dec_count(s), s.0 - bp) == BlzDecoded::Done(x)
        }),
    decreases kend - j,
{
    let n = x.len() as int;
    let kk = kept.len() as int;
    let nt = steps(x, m, run_start(x));
    let blocks = blz_blocks(state_at(x, m, nt));
    let s = state_at(x, m, j);
    lemma_fwd_basic(x, m, kend);
    lemma_fwd_basic(x, m, j);
    lemma_used_grows(x, m, j, kend);
    let ci0 = kk - used_of(s);
    let di = s.0 - bp;
    if j == kend {
        assert(di == 0);
        assert(buf =~= x) by {
            assert forall|q: int| 0 <= q < n implies buf[q] == x[q] by {
                if q < bp {
                    assert(buf.subrange(0, bp + ci0)[q] == buf0.subrange(0, bp + ci0)[q]);
                    assert(buf0.take(bp)[q] == x.take(bp)[q]);
                } else {
                    assert(buf.subrange(bp, n)[q - bp] == x.subrange(bp, n)[q - bp]);
                }
            }
        }
    } else {
        let t = state_at(x, m, j + 1);
        lemma_fwd_basic(x, m, j + 1);
        lemma_positions_fall(x, m, j, kend);
        assert(s.0 > m);
        assert(t == token_of(x, m, s));
        lemma_token_facts(x, m, s);
        lemma_used_grows(x, m, j + 1, kend);
        assert(di > 0);
        let kt = tokens_before(s);
        let prior = mini_before(s);
        let ci1 = kk - (t.1.len() + 1 + prior.len());
        let fb = blocks[t.1.len() as int];
        let fl1 = fb << (kt as u8);
        assert(used_of(t) == t.1.len() + 1 + t.4.len());
        assert(t.4.len() > prior.len());
        if fresh_block(s) {
            assert(ci1 == ci0 - 1);
            assert(ci0 >= 2);
            assert(buf[bp + ci0 - 1] == buf0[bp + ci0 - 1]) by {
                assert(buf.subrange(0, bp + ci0)[bp + ci0 - 1] == buf0.subrange(0, bp + ci0)[bp + ci0 - 1]);
            }
            assert(buf0[bp + (ci0 - 1)] == kept[kk - 1 - (ci0 - 1)]);
            assert(kept[used_of(s)] == blocks[used_of(s)]);
            lemma_shift_zero();
            assert(kt == 0);
            assert(dec_count(s) == 8);
            assert(blz_step(buf, bp, ci0, fl, dec_count(s), di) == blz_tokens(buf, bp, ci0, fl, 8, di));
            assert(blz_tokens(buf, bp, ci0, fl, 8, di) == blz_block(buf, bp, ci0, di));
            assert(blz_block(buf, bp, ci0, di) == blz_tokens(buf, bp, ci0 - 1, buf[bp + ci0 - 1], 0, di));
        } else {
            assert(t.1 == s.1);
            assert(prior == s.4);
            assert(ci1 == ci0);
            assert(dec_count(s) == kt);
            assert(blz_step(buf, bp, ci0, fl, dec_count(s), di) == blz_tokens(buf, bp, ci1, fl1, kt, di));
        }
        assert(blz_step(buf, bp, ci0, fl, dec_count(s), di) == blz_tokens(buf, bp, ci1, fl1, kt, di));
        let buf2 = lemma_token_step(x, m, bp, kend, kept, buf0, j, buf);
        let fl2 = fl1 << 1u8;
        if t.3 < 8 {
            let k8 = kt as u8;
            let k9 = t.3 as u8;
            assert(k9 == k8 + 1);
            assert(((fb << k8) << 1u8) == fb << k9) by (bit_vector)
                requires
                    k9 == k8 + 1,
                    k9 < 8;
        }
        assert(dec_count(t) == t.3);
        lemma_decode_from(x, m, bp, kend, kept, buf0, j + 1, buf2, fl2);
    }
}

/// The record that `first_below` finds is one of the records.
proof fn lemma_first_below_in(recs: Seq<(int, int)>, total: int)
    requires
        first_below(recs, total) is Some,
    ensures
        exists|i: int| 0 <= i < recs.len() && recs[i] == first_below(recs, total)->0,
        (first_below(recs, total)->0).1 < total,
    decreases recs.len(),
{
    if recs[0].1 >= total {
        lemma_first_below_in(recs.drop_first(), total);
        let i = choose|i: int| 0 <= i < recs.drop_first().len() && recs.drop_first()[i] == first_below(recs.drop_first(), total)->0;
        assert(recs[i + 1] == recs.drop_first()[i]);
    } else {
        assert(recs[0] == first_below(recs, total)->0);
    }
}

/// The footer's fields read back as written.
proof fn lemma_footer_fields(region: int, header: int, extend: int)
    requires
        0 <= region <= 0xFF_FFFF,
        0 <= header <= 0xFF,
        0 <= extend <= 0xFFFF_FFFF,
    ensures
        ({
            let f = blz_footer(region, header, extend);
            &&& f.len() == 8
            &&& f[0] as int + f[1] as int * 256 + f[2] as int * 65536 == region
            &&& f[3] as int == header
            &&& f[4] as int + f[5] as int * 256 + f[6] as int * 65536 + f[7] as int * 16777216 == extend
        }),
{
    assert((region % 256) + ((region / 256) % 256) * 256 + ((region / 65536) % 256) * 65536 == region) by (nonlinear_arith)
        requires
            0 <= region <= 0xFF_FFFF;
    assert((extend % 256) + ((extend / 256) % 256) * 256 + ((extend / 65536) % 256) * 65536 + ((extend / 16777216)
        % 256) * 16777216 == extend) by (nonlinear_arith)
        requires
            0 <= extend <= 0xFFFF_FFFF;
}

/// When compressing everything is the smallest, every size seen is at least
/// that of the whole.
proof fn lemma_best_below_all(x: Seq<u8>, m: int)
    requires
        m < x.len(),
    ensures
        ({
            let r = state_at(x, m, steps(x, m, run_start(x)));
            &&& r.5 <= x.len()
            &&& forall|j: nat| 1 <= j <= steps(x, m, run_start(x)) ==> r.5 <= #[trigger] total_of(state_at(x, m, j))
        }),
{
    lemma_fwd(x, m, steps(x, m, run_start(x)));
    reveal(fwd);
}

/// The record where compression stops, when it stops early: the state after
/// some token, whose size is below every size before it and the input's.
proof fn lemma_stop_state(x: Seq<u8>, m: int, total: int) -> (j: nat)
    requires
        m < x.len(),
        first_below(state_at(x, m, steps(x, m, run_start(x))).6, total) is Some,
    ensures
        1 <= j <= steps(x, m, run_start(x)),
        ({
            let st = first_below(state_at(x, m, steps(x, m, run_start(x))).6, total)->0;
            &&& st == (state_at(x, m, j).0, total_of(state_at(x, m, j)))
            &&& st.1 < total
            &&& st.1 < x.len()
            &&& forall|j2: nat| 1 <= j2 < j ==> total_of(#[trigger] state_at(x, m, j2)) > st.1
        }),
{
    let nt = steps(x, m, run_start(x));
    let r = state_at(x, m, nt);
    lemma_fwd(x, m, nt);
    reveal(fwd);
    lemma_first_below_in(r.6, total);
    let i = choose|i: int| 0 <= i < r.6.len() && r.6[i] == first_below(r.6, total)->0;
    let j = choose|j: nat| #![trigger state_at(x, m, j)] 1 <= j <= nt && r.6[i] == (state_at(x, m, j).0, total_of(state_at(x, m, j)))
        && forall|j2: nat| 1 <= j2 < j ==> total_of(#[trigger] state_at(x, m, j2)) > r.6[i].1;
    j
}

/// The file made of `x`'s first `bp` bytes and the blocks `kept`, as
/// compression writes it: the blocks reversed, padding to four bytes, and
/// the footer; `None` when that is not smaller than `x`.
pub open spec fn packed(x: Seq<u8>, bp: int, kept: Seq<u8>) -> Result<Option<Seq<u8>>, BlzError> {
    let bt = bp + kept.len();
    let aligned = next_multiple(bt, 4);
    if aligned + 8 >= x.len() {
        Ok(None)
    } else {
        let pad = aligned - bt;
        let region = kept.len() + pad + 8;
        let extend = x.len() - (bp + kept.len() + pad + 8);
        if region > 0xFF_FFFF {
            Err(BlzError::RegionTooLarge)
        } else if extend > 0xFFFF_FFFF {
            Err(BlzError::ExtendTooLarge)
        } else {
            Ok(
                Some(
                    x.take(bp) + kept.reverse() + Seq::new(pad as nat, |_i: int| 0xFFu8) + blz_footer(
                        region,
                        pad + 8,
                        extend,
                    ),
                ),
            )
        }
    }
}

/// Where compression stops and what it keeps: after token `kend`, at
/// position `bp`, keeping the blocks written up to there, and every size the
/// compressor saw up to there is at least the one kept.
proof fn lemma_stop_choice(x: Seq<u8>, m: int) -> (res: (int, nat))
    requires
        0 <= m < x.len(),
        !blz_panics(x, m),
    ensures
        ({
            let (bp, kend) = res;
            let nt = steps(x, m, run_start(x));
            let blocks = blz_blocks(state_at(x, m, nt));
            let kk = used_of(state_at(x, m, kend));
            &&& 1 <= kend <= nt
            &&& state_at(x, m, kend).0 == bp
            &&& kk <= blocks.len()
            &&& x.len() >= bp + kk
            &&& (forall|j: nat| 1 <= j <= kend ==> #[trigger] total_of(state_at(x, m, j)) >= bp + kk)
            &&& blz_compressed(x, m) == packed(x, bp, blocks.take(kk))
        }),
{
    let n = x.len() as int;
    let nt = steps(x, m, run_start(x));
    lemma_run_steps(x, m, run_start(x));
    assert(blz_final(x, m) == state_at(x, m, nt));
    assert(nt >= 1);
    let r = state_at(x, m, nt);
    lemma_fwd_basic(x, m, nt);
    lemma_laid(x, m, nt);
    assert(r.0 == m);
    let blocks = blz_blocks(r);
    let total = m + blocks.len();
    assert(used_of(r) == blocks.len());
    if total > r.5 {
        let j = lemma_stop_state(x, m, total);
        let st = first_below(r.6, total)->0;
        lemma_fwd_basic(x, m, j);
        lemma_laid(x, m, j);
        assert(truncated(blocks, st.1 - st.0) =~= blocks.take(used_of(state_at(x, m, j))));
        (st.0, j)
    } else {
        lemma_best_below_all(x, m);
        assert(blocks =~= blocks.take(blocks.len() as int));
        (m, nt)
    }
}

/// Decompressing what BLZ compression gives yields the input again; the
/// compressed file grown by its extend size is as long as the input, and the
/// compressed file is a whole number of 32-bit words.
pub proof fn lemma_blz_roundtrip(x: Seq<u8>, m: int)
    requires
        0 <= m,
        !blz_panics(x, m),
        blz_compressed(x, m) matches Ok(Some(_)),
    ensures
        blz_decode(blz_compressed(x, m)->Ok_0->Some_0) == BlzDecoded::Done(x),
        blz_compressed(x, m)->Ok_0->Some_0.len() + blz_extend_size(blz_compressed(x, m)->Ok_0->Some_0) == x.len(),
        blz_compressed(x, m)->Ok_0->Some_0.len() % 4 == 0,
{
    let n = x.len() as int;
    assert(n > m);
    let (bp, kend) = lemma_stop_choice(x, m);
    let nt = steps(x, m, run_start(x));
    let blocks = blz_blocks(state_at(x, m, nt));
    let kk = used_of(state_at(x, m, kend));
    let kept = blocks.take(kk);
    lemma_packed_decodes(x, m, bp, kend, kept);
}

/// Decompressing the file that `packed` makes, at a point where compression
/// may stop, gives `x`.
proof fn lemma_packed_decodes(x: Seq<u8>, m: int, bp: int, kend: nat, kept: Seq<u8>)
    requires
        0 <= m < x.len(),
        1 <= kend <= steps(x, m, run_start(x)),
        state_at(x, m, kend).0 == bp,
        kept.len() == used_of(state_at(x, m, kend)),
        kept.len() <= blz_blocks(state_at(x, m, steps(x, m, run_start(x)))).len(),
        kept == blz_blocks(state_at(x, m, steps(x, m, run_start(x)))).take(kept.len() as int),
        x.len() >= bp + kept.len(),
        forall|j: nat| 1 <= j <= kend ==> #[trigger] total_of(state_at(x, m, j)) >= bp + kept.len(),
        packed(x, bp, kept) matches Ok(Some(_)),
    ensures
        blz_decode(packed(x, bp, kept)->Ok_0->Some_0) == BlzDecoded::Done(x),
        packed(x, bp, kept)->Ok_0->Some_0.len() + blz_extend_size(packed(x, bp, kept)->Ok_0->Some_0) == x.len(),
        packed(x, bp, kept)->Ok_0->Some_0.len() % 4 == 0,
{
    let n = x.len() as int;
    let kk = kept.len() as int;
    lemma_fwd_basic(x, m, kend);
    let bt = bp + kk;
    let aligned = next_multiple(bt, 4);
    let pad = aligned - bt;
    let region = kk + pad + 8;
    let extend = n - (bp + kk + pad + 8);
    let foot = blz_footer(region, pad + 8, extend);
    let c = x.take(bp) + kept.reverse() + Seq::new(pad as nat, |_i: int| 0xFFu8) + foot;
    assert(packed(x, bp, kept)->Ok_0->Some_0 == c);
    assert(0 <= pad < 4);
    lemma_footer_fields(region, pad + 8, extend);
    let l = c.len() as int;
    assert(l == bp + kk + pad + 8);
    assert(c[l - 8] == foot[0] && c[l - 7] == foot[1] && c[l - 6] == foot[2] && c[l - 5] == foot[3]);
    assert(c[l - 4] == foot[4] && c[l - 3] == foot[5] && c[l - 2] == foot[6] && c[l - 1] == foot[7]);
    assert(blz_region_size(c) == region);
    assert(blz_header_size(c) == pad + 8);
    assert(blz_extend_size(c) == extend);
    let buf0 = c + Seq::new(extend as nat, |_i: int| 0u8);
    assert(buf0.len() == n);
    assert(buf0.take(bp) =~= x.take(bp));
    assert forall|i: int| 0 <= i < kk implies #[trigger] buf0[bp + i] == kept[kk - 1 - i] by {
        assert(buf0[bp + i] == c[bp + i]);
        assert(c[bp + i] == kept.reverse()[i]);
    }
    assert(setting(x, m, bp, kend, kept, buf0));
    assert(at_token(x, m, bp, kk, buf0, 0, buf0)) by {
        assert(state_at(x, m, 0) == run_start(x));
        assert(buf0.subrange(n, n) =~= x.subrange(n, n));
        assert(buf0.subrange(0, bp + kk) =~= buf0.subrange(0, bp + kk));
    }
    lemma_decode_from(x, m, bp, kend, kept, buf0, 0, buf0, 0u8);
    assert(dec_count(state_at(x, m, 0)) == 8);
    assert(blz_step(buf0, bp, kk, 0u8, 8, n - bp) == blz_tokens(buf0, bp, kk, 0u8, 8, n - bp));
    assert(blz_decode(c) == blz_block(buf0, bp, kk, n - bp));
}

} // verus!
