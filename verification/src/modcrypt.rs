//! AES-128 in counter mode, which encrypts (and decrypts) the DSi binaries of
//! a rom.
use vstd::prelude::*;
use aes::cipher::{BlockCipherEncrypt, KeyInit};

verus! {

/// What AES-128 makes of one block under `key`, the key and both blocks read as
/// big-endian numbers.
pub uninterp spec fn aes128_block(key: u128, block: u128) -> u128;

/// `Aes128::encrypt_blocks` of the aes crate on the blocks `blocks` under
/// `key`, each block passed and returned as the big-endian bytes of its
/// number. Each block is encrypted on its own: the result is the named
/// encryption of each input block.
#[verifier::external_body]
fn aes128_encrypt_blocks(key: u128, blocks: &Vec<u128>) -> (r: Vec<u128>)
    ensures
        r@ == blocks@.map_values(|b: u128| aes128_block(key, b)),
{
    let cipher = aes::Aes128::new(&aes::cipher::Array::from(key.to_be_bytes()));
    let mut bs: Vec<aes::Block> = blocks.iter().map(|b| aes::cipher::Array::from(b.to_be_bytes())).collect();
    cipher.encrypt_blocks(&mut bs);
    bs.iter().map(|b| u128::from_be_bytes((*b).into())).collect()
}

/// Byte `j` of `x` in little-endian order.
pub open spec fn le_byte(x: u128, j: int) -> u8 {
    ((x >> (8 * j) as u128) & 0xFFu128) as u8
}

/// `data` in counter mode: byte `i` XORed with byte `i % 16` (little-endian)
/// of the encrypted counter `iv + i / 16`.
pub open spec fn ctr_spec(data: Seq<u8>, key: u128, iv: u128) -> Seq<u8> {
    Seq::new(data.len(), |i: int| data[i] ^ le_byte(aes128_block(key, (iv + i / 16) as u128), i % 16))
}

/// Encrypts or decrypts `data` with AES-128 in counter mode from counter `iv`.
pub fn aes_ctr(data: &mut Vec<u8>, key: u128, iv: u128)
    requires
        old(data)@.len() % 16 == 0,
        iv + old(data)@.len() / 16 <= u128::MAX,
    ensures
        final(data)@ == ctr_spec(old(data)@, key, iv),
{
    let n = data.len() / 16;
    let mut counters: Vec<u128> = Vec::new();
    let mut k: usize = 0;
    while k < n
        invariant
            k <= n,
            n == old(data)@.len() / 16,
            iv + n <= u128::MAX,
            counters@.len() == k,
            forall|j: int| 0 <= j < k ==> counters@[j] == iv + j,
        decreases n - k,
    {
        counters.push(iv + k as u128);
        k = k + 1;
    }
    let pads = aes128_encrypt_blocks(key, &counters);
    let ghost d0 = data@;
    let mut i: usize = 0;
    while i < data.len()
        invariant
            i <= data@.len(),
            data@.len() == d0.len(),
            d0 == old(data)@,
            d0.len() == 16 * n,
            pads@.len() == n,
            forall|j: int| 0 <= j < n ==> pads@[j] == aes128_block(key, (iv + j) as u128),
            forall|j: int| 0 <= j < i ==> data@[j] == ctr_spec(d0, key, iv)[j],
            forall|j: int| i <= j < d0.len() ==> data@[j] == d0[j],
        decreases data@.len() - i,
    {
        let pad = pads[i / 16];
        let sh: u128 = 8 * ((i % 16) as u128);
        let b = ((pad >> sh) & 0xFF) as u8;
        let v = data[i] ^ b;
        data.set(i, v);
        i = i + 1;
    }
    assert(data@ =~= ctr_spec(d0, key, iv));
}


/// Counter mode undoes itself: applying it twice with the same key and
/// counter gives the data back.
pub proof fn lemma_ctr_involution(data: Seq<u8>, key: u128, iv: u128)
    ensures
        ctr_spec(ctr_spec(data, key, iv), key, iv) == data,
{
    let once = ctr_spec(data, key, iv);
    assert forall|i: int| 0 <= i < data.len() implies #[trigger] ctr_spec(once, key, iv)[i] == data[i] by {
        let p = le_byte(aes128_block(key, (iv + i / 16) as u128), i % 16);
        let x = data[i];
        assert((x ^ p) ^ p == x) by (bit_vector);
    }
    assert(ctr_spec(once, key, iv) =~= data);
}

} // verus!
