//! The key schedule: rekeying from material that the peer supplies.

use vstd::prelude::*;
use crate::cipher::KEY_LEN;
use crate::hash::{do_hash, mixed, lemma_mixed_len, STATE_LEN};

verus! {

/// The fixed secret that every rekeying mixes in.
pub const MASTER_KEY: [u8; 16] = [
    127, 112, 186, 75, 129, 242, 238, 20, 108, 196, 141, 236, 200, 6, 57, 255,
];

/// The mask on the master key in the first pass.
pub const FIRST_MASK: u8 = 0x41;

/// The mask on the master key in the second pass.
pub const SECOND_MASK: u8 = 0x5e;

/// The master key with every byte crossed with `mask`.
pub open spec fn masked_master(mask: u8) -> Seq<u8> {
    Seq::new(16, |i: int| MASTER_KEY@[i] ^ mask)
}

/// The state that the first pass starts from: `k1`, the master key under the
/// first mask, and 16 zero bytes.
pub open spec fn first_pass_input(k1: Seq<u8>) -> Seq<u8>
    recommends
        k1.len() >= KEY_LEN,
{
    k1.subrange(0, KEY_LEN as int) + masked_master(FIRST_MASK) + Seq::new(16, |i: int| 0u8)
}

/// The 64 bytes that two passes make of `k1`: one permutation, the last lane
/// replaced by the master key under the second mask, one more permutation.
pub open spec fn rekey_digest(k1: Seq<u8>) -> Seq<u8>
    recommends
        k1.len() >= KEY_LEN,
{
    mixed(mixed(first_pass_input(k1)).subrange(0, 48) + masked_master(SECOND_MASK))
}

/// The key that rekeying makes of `cur`: each of the first 32 bytes is kept
/// where `k2` has a bit set, then crossed with the digest of `k1`. Bytes past
/// the 32nd are kept.
pub open spec fn rekeyed(cur: Seq<u8>, k1: Seq<u8>, k2: Seq<u8>) -> Seq<u8>
    recommends
        cur.len() >= KEY_LEN,
        k1.len() >= KEY_LEN,
        k2.len() >= KEY_LEN,
{
    Seq::new(
        cur.len(),
        |i: int|
            if i < KEY_LEN {
                (cur[i] & k2[i]) ^ rekey_digest(k1)[i]
            } else {
                cur[i]
            },
    )
}

/// The digest of any `k1` has 64 bytes.
pub proof fn lemma_rekey_digest_len(k1: Seq<u8>)
    requires
        k1.len() >= KEY_LEN,
    ensures
        rekey_digest(k1).len() == STATE_LEN,
{
    lemma_mixed_len(first_pass_input(k1));
    lemma_mixed_len(mixed(first_pass_input(k1)).subrange(0, 48) + masked_master(SECOND_MASK));
}

/// Where `k2` has all bits set, the old key byte is kept whole and crossed
/// with the digest.
pub proof fn lemma_full_mask_crosses(cur: Seq<u8>, k1: Seq<u8>, k2: Seq<u8>, i: int)
    requires
        cur.len() >= KEY_LEN,
        0 <= i < KEY_LEN,
        k2[i] == 0xff,
    ensures
        rekeyed(cur, k1, k2)[i] == cur[i] ^ rekey_digest(k1)[i],
{
    let c = cur[i];
    assert(c & 0xff == c) by (bit_vector);
}

/// Where `k2` has no bit set, the old key byte is dropped: the new one is the
/// digest's.
pub proof fn lemma_empty_mask_takes_digest(cur: Seq<u8>, k1: Seq<u8>, k2: Seq<u8>, i: int)
    requires
        cur.len() >= KEY_LEN,
        0 <= i < KEY_LEN,
        k2[i] == 0,
    ensures
        rekeyed(cur, k1, k2)[i] == rekey_digest(k1)[i],
{
    let c = cur[i];
    let d = rekey_digest(k1)[i];
    assert((c & 0) ^ d == d) by (bit_vector);
}

/// Rekeying a key of zero bytes with `k2` all set gives the digest's first 32
/// bytes.
pub proof fn lemma_full_mask_on_zero_key(cur: Seq<u8>, k1: Seq<u8>, k2: Seq<u8>)
    requires
        cur.len() >= KEY_LEN,
        k1.len() >= KEY_LEN,
        k2.len() >= KEY_LEN,
        forall|i: int| 0 <= i < KEY_LEN ==> k2[i] == 0xff,
        forall|i: int| 0 <= i < KEY_LEN ==> cur[i] == 0,
    ensures
        rekeyed(cur, k1, k2).subrange(0, KEY_LEN as int) == rekey_digest(k1).subrange(
            0,
            KEY_LEN as int,
        ),
{
    lemma_rekey_digest_len(k1);
    assert forall|i: int| 0 <= i < KEY_LEN implies rekeyed(cur, k1, k2)[i] == rekey_digest(
        k1,
    )[i] by {
        lemma_full_mask_crosses(cur, k1, k2, i);
        let d = rekey_digest(k1)[i];
        assert(0u8 ^ d == d) by (bit_vector);
    }
    assert(rekeyed(cur, k1, k2).subrange(0, KEY_LEN as int) =~= rekey_digest(k1).subrange(
        0,
        KEY_LEN as int,
    ));
}

/// Replaces the key in `kout` by one made of it, of `k1` and `k2`, and of the
/// master key. Each of the three needs at least 32 bytes; the first 32 count.
pub fn reset_key(k1: &[u8], k2: &[u8], kout: &mut [u8])
    requires
        k1@.len() >= KEY_LEN,
        k2@.len() >= KEY_LEN,
        old(kout)@.len() >= KEY_LEN,
    ensures
        final(kout)@ == rekeyed(old(kout)@, k1@, k2@),
{
    let mk = MASTER_KEY;
    let mut hdat = [0u8;64];
    let mut i: usize = 0;
    while i < KEY_LEN
        invariant
            i <= KEY_LEN <= k1.len(),
            hdat@.len() == STATE_LEN,
            forall|j: int| 0 <= j < i ==> hdat@[j] == k1@[j],
            forall|j: int| i <= j < STATE_LEN ==> hdat@[j] == 0u8,
        decreases KEY_LEN - i,
    {
        hdat[i] = k1[i];
        i += 1;
    }
    let mut i: usize = 0;
    while i < 16
        invariant
            i <= 16,
            mk == MASTER_KEY,
            KEY_LEN <= k1.len(),
            hdat@.len() == STATE_LEN,
            forall|j: int| 0 <= j < KEY_LEN ==> hdat@[j] == k1@[j],
            forall|j: int| 32 <= j < 32 + i ==> hdat@[j] == MASTER_KEY@[j - 32] ^ FIRST_MASK,
            forall|j: int| 32 + i <= j < STATE_LEN ==> hdat@[j] == 0u8,
        decreases 16 - i,
    {
        hdat[i + 32] = mk[i] ^ FIRST_MASK;
        i += 1;
    }
    assert(hdat@ =~= first_pass_input(k1@));
    do_hash(&mut hdat);
    proof {
        lemma_mixed_len(first_pass_input(k1@));
    }
    let ghost passed = hdat@;
    let mut i: usize = 0;
    while i < 16
        invariant
            i <= 16,
            mk == MASTER_KEY,
            hdat@.len() == STATE_LEN == passed.len(),
            forall|j: int| 0 <= j < 48 ==> hdat@[j] == passed[j],
            forall|j: int| 48 <= j < 48 + i ==> hdat@[j] == MASTER_KEY@[j - 48] ^ SECOND_MASK,
        decreases 16 - i,
    {
        hdat[i + 48] = mk[i] ^ SECOND_MASK;
        i += 1;
    }
    assert(hdat@ =~= passed.subrange(0, 48) + masked_master(SECOND_MASK));
    do_hash(&mut hdat);
    proof {
        lemma_rekey_digest_len(k1@);
    }
    let mut i: usize = 0;
    while i < KEY_LEN
        invariant
            i <= KEY_LEN,
            KEY_LEN <= k2.len(),
            KEY_LEN <= kout.len(),
            kout@.len() == old(kout)@.len(),
            hdat@ == rekey_digest(k1@),
            hdat@.len() == STATE_LEN,
            forall|j: int|
                0 <= j < i ==> kout@[j] == (old(kout)@[j] & k2@[j]) ^ rekey_digest(k1@)[j],
            forall|j: int| i <= j < kout@.len() ==> kout@[j] == old(kout)@[j],
        decreases KEY_LEN - i,
    {
        kout[i] = (kout[i] & k2[i]) ^ hdat[i];
        i += 1;
    }
    assert(kout@ =~= rekeyed(old(kout)@, k1@, k2@));
}

/// The handle on the thread's random generator, as rand gives it. Nothing is
/// known of what it holds.
#[verifier::external_type_specification]
#[verifier::external_body]
pub struct ExThreadRng(rand::rngs::ThreadRng);

/// `rand::thread_rng`: the handle on this thread's generator, which the system
/// seeds on first use. Nothing is claimed of it. Where the system gives no
/// seed, rand stops the thread; no argument decides that, so nothing here can
/// rule it out.
#[verifier::external_body]
fn thread_generator() -> (rng: rand::rngs::ThreadRng) {
    rand::thread_rng()
}

/// `Rng::gen` of rand, at `u8`: the generator's next byte. Nothing is claimed
/// of it: any byte may come.
#[verifier::external_body]
fn next_byte(rng: &mut rand::rngs::ThreadRng) -> (b: u8) {
    rand::Rng::gen(rng)
}

/// Draws the key that a process starts with: 32 bytes from the thread's
/// random generator. Which bytes is not determined.
pub fn seed_key() -> (key: Vec<u8>)
    ensures
        key@.len() == KEY_LEN,
{
    let mut rng = thread_generator();
    let mut key: Vec<u8> = Vec::new();
    let mut i: usize = 0;
    while i < KEY_LEN
        invariant
            i <= KEY_LEN,
            key@.len() == i,
        decreases KEY_LEN - i,
    {
        let b = next_byte(&mut rng);
        key.push(b);
        i += 1;
    }
    key
}

} // verus!
