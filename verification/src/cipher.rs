//! The ratcheting stream cipher.
//!
//! A 64-byte state is seeded with the key. Before each block of 16 bytes the
//! state is run through the permutation 16 times; each byte of the buffer is
//! then crossed with one state byte, which is erased at once. When the buffer
//! ends, one more permutation gives the next key.

use vstd::prelude::*;
use crate::hash::{do_hash, mixed, mixed_times, lemma_mixed_len, lemma_mixed_times_len, STATE_LEN};

verus! {

/// Bytes in a key.
pub const KEY_LEN: usize = 32;

/// Bytes of keystream that one refill yields.
pub const BLOCK_LEN: usize = 16;

/// Permutations in one refill.
pub const REFILL_RUNS: usize = 16;

/// The state a key starts from: its first 32 bytes, then 32 zero bytes.
pub open spec fn seeded(key: Seq<u8>) -> Seq<u8>
    recommends
        key.len() >= KEY_LEN,
{
    key.subrange(0, KEY_LEN as int) + Seq::new(KEY_LEN as nat, |i: int| 0u8)
}

/// The state once `n` bytes have been crossed and their state bytes erased.
pub open spec fn state_after(key: Seq<u8>, n: nat) -> Seq<u8>
    decreases n,
{
    if n == 0 {
        seeded(key)
    } else {
        let i = (n - 1) as nat;
        let before = state_after(key, i);
        let ready = if i % 16 == 0 {
            mixed_times(before, REFILL_RUNS as nat)
        } else {
            before
        };
        ready.update((i % 16) as int, 0u8)
    }
}

/// The state from which byte `i` is taken: refilled if `i` opens a block.
pub open spec fn state_at(key: Seq<u8>, i: nat) -> Seq<u8> {
    let before = state_after(key, i);
    if i % 16 == 0 {
        mixed_times(before, REFILL_RUNS as nat)
    } else {
        before
    }
}

/// Byte `i` of the keystream that `key` gives.
pub open spec fn keystream_byte(key: Seq<u8>, i: nat) -> u8 {
    state_at(key, i)[(i % 16) as int]
}

/// `msg` crossed with the keystream of `key`, byte by byte.
pub open spec fn sealed(msg: Seq<u8>, key: Seq<u8>) -> Seq<u8> {
    Seq::new(msg.len(), |i: int| msg[i] ^ keystream_byte(key, i as nat))
}

/// The key that follows `key` once `n` bytes have been crossed: the first 32
/// bytes of one more permutation of the state; bytes past the 32nd are kept.
pub open spec fn ratcheted(key: Seq<u8>, n: nat) -> Seq<u8> {
    mixed(state_after(key, n)).subrange(0, KEY_LEN as int) + key.subrange(
        KEY_LEN as int,
        key.len() as int,
    )
}

/// Every state of a run has 64 bytes.
pub proof fn lemma_state_len(key: Seq<u8>, n: nat)
    requires
        key.len() >= KEY_LEN,
    ensures
        state_after(key, n).len() == STATE_LEN,
        state_at(key, n).len() == STATE_LEN,
    decreases n,
{
    if n > 0 {
        lemma_state_len(key, (n - 1) as nat);
    }
    lemma_mixed_times_len(state_after(key, n), REFILL_RUNS as nat);
}

/// Crossing a byte twice with the same keystream byte gives it back.
proof fn lemma_cross_twice(m: u8, k: u8)
    ensures
        (m ^ k) ^ k == m,
{
    assert((m ^ k) ^ k == m) by (bit_vector);
}

/// Two peers that hold the same key stay in step: what one seals the other
/// opens, and both move on to the same next key.
pub proof fn lemma_replay_opens(msg: Seq<u8>, key: Seq<u8>)
    ensures
        sealed(sealed(msg, key), key) == msg,
        ratcheted(key, sealed(msg, key).len()) == ratcheted(key, msg.len()),
{
    let once = sealed(msg, key);
    assert forall|i: int| 0 <= i < msg.len() implies sealed(once, key)[i] == msg[i] by {
        lemma_cross_twice(msg[i], keystream_byte(key, i as nat));
    }
    assert(sealed(once, key) =~= msg);
}

/// The keystream does not depend on what is sealed: two messages of one
/// length, sealed under one key, differ exactly where the messages differ.
pub proof fn lemma_sealed_difference(a: Seq<u8>, b: Seq<u8>, key: Seq<u8>, i: int)
    requires
        a.len() == b.len(),
        0 <= i < a.len(),
    ensures
        sealed(a, key)[i] ^ sealed(b, key)[i] == a[i] ^ b[i],
{
    let k = keystream_byte(key, i as nat);
    let x = a[i];
    let y = b[i];
    assert((x ^ k) ^ (y ^ k) == x ^ y) by (bit_vector);
}

/// Crosses `inp` with the keystream of `key` in place and moves `key` on.
///
/// Sealing and opening are the same operation. With a key under 32 bytes
/// nothing is done: buffer and key stay as they are.
pub fn do_enc(inp: &mut [u8], key: &mut [u8])
    ensures
        old(key)@.len() < KEY_LEN ==> final(inp)@ == old(inp)@ && final(key)@ == old(key)@,
        old(key)@.len() >= KEY_LEN ==> final(inp)@ == sealed(old(inp)@, old(key)@) && final(key)@
            == ratcheted(old(key)@, old(inp)@.len()),
{
    if key.len() < KEY_LEN {
        return ;
    }
    let mut hdat = [0u8;64];
    let mut k: usize = 0;
    while k < KEY_LEN
        invariant
            k <= KEY_LEN <= key.len(),
            key@ == old(key)@,
            hdat@.len() == STATE_LEN,
            forall|j: int| 0 <= j < k ==> hdat@[j] == key@[j],
            forall|j: int| k <= j < STATE_LEN ==> hdat@[j] == 0u8,
        decreases KEY_LEN - k,
    {
        hdat[k] = key[k];
        k += 1;
    }
    assert(hdat@ =~= seeded(old(key)@));
    let mut idx: usize = BLOCK_LEN;
    let mut i: usize = 0;
    while i < inp.len()
        invariant
            i <= inp.len(),
            inp@.len() == old(inp)@.len(),
            old(key)@.len() >= KEY_LEN,
            hdat@ == state_after(old(key)@, i as nat),
            idx == (if i == 0 { 16int } else { (i - 1) % 16 + 1 }),
            forall|j: int| 0 <= j < i ==> inp@[j] == old(inp)@[j] ^ keystream_byte(old(key)@, j as nat),
            forall|j: int| i <= j < inp@.len() ==> inp@[j] == old(inp)@[j],
        decreases inp.len() - i,
    {
        proof {
            lemma_state_len(old(key)@, i as nat);
        }
        if idx == BLOCK_LEN {
            let ghost before = hdat@;
            let mut r: usize = 0;
            while r < REFILL_RUNS
                invariant
                    r <= REFILL_RUNS,
                    hdat@ == mixed_times(before, r as nat),
                decreases REFILL_RUNS - r,
            {
                do_hash(&mut hdat);
                r += 1;
            }
            idx = 0;
        }
        inp[i] = inp[i] ^ hdat[idx];
        hdat[idx] = 0;
        idx = idx + 1;
        i += 1;
    }
    proof {
        lemma_state_len(old(key)@, i as nat);
        lemma_mixed_len(hdat@);
        assert(inp@ =~= sealed(old(inp)@, old(key)@));
    }
    do_hash(&mut hdat);
    let mut k: usize = 0;
    while k < KEY_LEN
        invariant
            k <= KEY_LEN <= key.len(),
            key@.len() == old(key)@.len(),
            hdat@.len() == STATE_LEN,
            forall|j: int| 0 <= j < k ==> key@[j] == hdat@[j],
            forall|j: int| k <= j < key@.len() ==> key@[j] == old(key)@[j],
        decreases KEY_LEN - k,
    {
        key[k] = hdat[k];
        k += 1;
    }
    proof {
        assert(key@ =~= ratcheted(old(key)@, old(inp)@.len()));
    }
}

} // verus!
