//! The 64-byte mixing permutation.
//!
//! The state is read as four 128-bit little-endian lanes. Sixty-four rounds
//! rotate the lanes and fold them into a new leading lane; the result is
//! written back in the same layout.

use vstd::prelude::*;

verus! {

/// Bytes in the permutation's state.
pub const STATE_LEN: usize = 64;

/// Bytes in one lane.
pub const LANE_LEN: usize = 16;

/// Rounds in one run of the permutation.
pub const ROUNDS: usize = 64;

/// 256 to the power `n`.
pub open spec fn radix(n: nat) -> nat
    decreases n,
{
    if n == 0 {
        1
    } else {
        256 * radix((n - 1) as nat)
    }
}

/// The number that `s` spells, least significant byte first.
pub open spec fn le_value(s: Seq<u8>) -> nat
    decreases s.len(),
{
    if s.len() == 0 {
        0
    } else {
        s[0] as nat + 256 * le_value(s.drop_first())
    }
}

/// The `n` low bytes of `x`, least significant first.
pub open spec fn le_bytes(x: nat, n: nat) -> Seq<u8>
    decreases n,
{
    if n == 0 {
        Seq::empty()
    } else {
        seq![(x % 256) as u8] + le_bytes(x / 256, (n - 1) as nat)
    }
}

/// `radix` grows with its argument.
pub proof fn lemma_radix_monotonic(m: nat, n: nat)
    requires
        m <= n,
    ensures
        0 < radix(m) <= radix(n),
    decreases n,
{
    if m < n {
        lemma_radix_monotonic(m, (n - 1) as nat);
    } else if n > 0 {
        lemma_radix_monotonic((m - 1) as nat, (n - 1) as nat);
    }
}

/// Sixteen bytes span exactly the 128-bit range.
pub proof fn lemma_radix_lane()
    ensures
        radix(16) == 0x1_0000_0000_0000_0000_0000_0000_0000_0000,
{
    reveal_with_fuel(radix, 17);
}

/// A byte string's value is below the radix of its length.
pub proof fn lemma_le_value_bound(s: Seq<u8>)
    ensures
        le_value(s) < radix(s.len()),
    decreases s.len(),
{
    if s.len() > 0 {
        lemma_le_value_bound(s.drop_first());
    }
}

/// `le_bytes(x, n)` has `n` bytes.
pub proof fn lemma_le_bytes_len(x: nat, n: nat)
    ensures
        le_bytes(x, n).len() == n,
    decreases n,
{
    if n > 0 {
        lemma_le_bytes_len(x / 256, (n - 1) as nat);
    }
}

/// Reads the lane that starts at `at`.
fn load_lane(hdat: &[u8], at: usize) -> (x: u128)
    requires
        at + LANE_LEN <= hdat@.len(),
    ensures
        x == le_value(hdat@.subrange(at as int, at + LANE_LEN)),
{
    let mut x: u128 = 0;
    let mut i: usize = LANE_LEN;
    while i > 0
        invariant
            i <= LANE_LEN,
            at + LANE_LEN <= hdat.len(),
            x == le_value(hdat@.subrange(at + i, at + LANE_LEN)),
        decreases i,
    {
        i -= 1;
        proof {
            let hi = hdat@.subrange(at + i + 1, at + LANE_LEN);
            let all = hdat@.subrange(at + i, at + LANE_LEN);
            assert(all.drop_first() =~= hi);
            lemma_le_value_bound(all);
            lemma_radix_monotonic(all.len(), 16);
            lemma_radix_lane();
        }
        x = x * 256 + hdat[at + i] as u128;
    }
    x
}

/// Writes `x` as the lane that starts at `at`.
fn store_lane(hdat: &mut [u8], at: usize, x: u128)
    requires
        at + LANE_LEN <= old(hdat)@.len(),
    ensures
        final(hdat)@ == old(hdat)@.subrange(0, at as int) + le_bytes(x as nat, LANE_LEN as nat)
            + old(hdat)@.subrange(at + LANE_LEN, old(hdat)@.len() as int),
{
    let mut rest: u128 = x;
    let mut i: usize = 0;
    while i < LANE_LEN
        invariant
            i <= LANE_LEN,
            at + LANE_LEN <= hdat.len(),
            hdat@.len() == old(hdat)@.len(),
            hdat@.subrange(0, at as int) == old(hdat)@.subrange(0, at as int),
            hdat@.subrange(at + LANE_LEN, hdat@.len() as int) == old(hdat)@.subrange(
                at + LANE_LEN,
                hdat@.len() as int,
            ),
            le_bytes(x as nat, LANE_LEN as nat) == hdat@.subrange(at as int, at + i) + le_bytes(
                rest as nat,
                (LANE_LEN - i) as nat,
            ),
        decreases LANE_LEN - i,
    {
        let ghost before = hdat@;
        hdat[at + i] = (rest % 256) as u8;
        rest = rest / 256;
        i += 1;
        proof {
            assert(hdat@.subrange(0, at as int) =~= before.subrange(0, at as int));
            assert(hdat@.subrange(at + LANE_LEN, hdat@.len() as int) =~= before.subrange(
                at + LANE_LEN,
                hdat@.len() as int,
            ));
            assert(hdat@.subrange(at as int, at + i) =~= before.subrange(at as int, at + i - 1)
                + seq![hdat@[at + i - 1]]);
        }
    }
    proof {
        lemma_le_bytes_len(x as nat, LANE_LEN as nat);
        assert(hdat@ =~= old(hdat)@.subrange(0, at as int) + le_bytes(x as nat, LANE_LEN as nat)
            + old(hdat)@.subrange(at + LANE_LEN, old(hdat)@.len() as int));
    }
}

/// The four lanes of a state, in slot order.
pub struct Lanes {
    pub a: u128,
    pub b: u128,
    pub c: u128,
    pub d: u128,
}

/// The lanes that the first 64 bytes of `s` spell.
pub open spec fn lanes_of(s: Seq<u8>) -> Lanes
    recommends
        s.len() >= STATE_LEN,
{
    Lanes {
        a: le_value(s.subrange(0, 16)) as u128,
        b: le_value(s.subrange(16, 32)) as u128,
        c: le_value(s.subrange(32, 48)) as u128,
        d: le_value(s.subrange(48, 64)) as u128,
    }
}

/// The 64 bytes that spell `l`.
pub open spec fn bytes_of(l: Lanes) -> Seq<u8> {
    le_bytes(l.a as nat, 16) + le_bytes(l.b as nat, 16) + le_bytes(l.c as nat, 16) + le_bytes(
        l.d as nat,
        16,
    )
}

/// The lane that one round puts in front: half of `a`, plus a third of `b`
/// masked by `d`, the sum crossed with `c`.
pub open spec fn fold(l: Lanes) -> u128 {
    ((l.a / 2 + ((l.b / 3) & l.d)) as u128) ^ l.c
}

/// One round: the folded lane enters at the front, the others move back one
/// slot, and the last is dropped.
pub open spec fn round(l: Lanes) -> Lanes {
    Lanes { a: fold(l), b: l.a, c: l.b, d: l.c }
}

/// `n` rounds, one after the other.
pub open spec fn rounds(l: Lanes, n: nat) -> Lanes
    decreases n,
{
    if n == 0 {
        l
    } else {
        round(rounds(l, (n - 1) as nat))
    }
}

/// What the permutation makes of `s`: its first 64 bytes after 64 rounds,
/// whatever follows them kept. A string under 64 bytes is left as it is.
pub open spec fn mixed(s: Seq<u8>) -> Seq<u8> {
    if s.len() < STATE_LEN {
        s
    } else {
        bytes_of(rounds(lanes_of(s), ROUNDS as nat)) + s.subrange(STATE_LEN as int, s.len() as int)
    }
}

/// The permutation applied `n` times in a chain.
pub open spec fn mixed_times(s: Seq<u8>, n: nat) -> Seq<u8>
    decreases n,
{
    if n == 0 {
        s
    } else {
        mixed(mixed_times(s, (n - 1) as nat))
    }
}

/// The sum inside a round never leaves the 128-bit range.
pub proof fn lemma_fold_in_range(a: u128, b: u128, d: u128)
    ensures
        a / 2 + ((b / 3) & d) <= u128::MAX,
{
    assert(((b / 3) & d) <= b / 3) by (bit_vector);
}

/// The permutation keeps the length of its input.
pub proof fn lemma_mixed_len(s: Seq<u8>)
    ensures
        mixed(s).len() == s.len(),
{
    if s.len() >= STATE_LEN {
        let l = rounds(lanes_of(s), ROUNDS as nat);
        lemma_le_bytes_len(l.a as nat, 16);
        lemma_le_bytes_len(l.b as nat, 16);
        lemma_le_bytes_len(l.c as nat, 16);
        lemma_le_bytes_len(l.d as nat, 16);
    }
}

/// A chain of permutations keeps the length of its input.
pub proof fn lemma_mixed_times_len(s: Seq<u8>, n: nat)
    ensures
        mixed_times(s, n).len() == s.len(),
    decreases n,
{
    if n > 0 {
        lemma_mixed_times_len(s, (n - 1) as nat);
        lemma_mixed_len(mixed_times(s, (n - 1) as nat));
    }
}

/// The permutation is a function of the state alone: two buffers that agree
/// on their first 64 bytes agree on them afterwards.
pub proof fn lemma_mixed_determined(s: Seq<u8>, t: Seq<u8>)
    requires
        s.len() >= STATE_LEN,
        t.len() >= STATE_LEN,
        s.subrange(0, STATE_LEN as int) == t.subrange(0, STATE_LEN as int),
    ensures
        mixed(s).subrange(0, STATE_LEN as int) == mixed(t).subrange(0, STATE_LEN as int),
{
    let s0 = s.subrange(0, STATE_LEN as int);
    let t0 = t.subrange(0, STATE_LEN as int);
    assert(s.subrange(0, 16) =~= s0.subrange(0, 16));
    assert(s.subrange(16, 32) =~= s0.subrange(16, 32));
    assert(s.subrange(32, 48) =~= s0.subrange(32, 48));
    assert(s.subrange(48, 64) =~= s0.subrange(48, 64));
    assert(t.subrange(0, 16) =~= t0.subrange(0, 16));
    assert(t.subrange(16, 32) =~= t0.subrange(16, 32));
    assert(t.subrange(32, 48) =~= t0.subrange(32, 48));
    assert(t.subrange(48, 64) =~= t0.subrange(48, 64));
    assert(lanes_of(s) == lanes_of(t));
    let l = rounds(lanes_of(s), ROUNDS as nat);
    lemma_le_bytes_len(l.a as nat, 16);
    lemma_le_bytes_len(l.b as nat, 16);
    lemma_le_bytes_len(l.c as nat, 16);
    lemma_le_bytes_len(l.d as nat, 16);
    assert(mixed(s).subrange(0, STATE_LEN as int) =~= bytes_of(l));
    assert(mixed(t).subrange(0, STATE_LEN as int) =~= bytes_of(l));
}

/// Runs the permutation on the first 64 bytes of `hdat`, in place.
///
/// The result is a function of the input bytes alone, so equal inputs give
/// equal outputs. A buffer under 64 bytes is left untouched.
pub fn do_hash(hdat: &mut [u8])
    ensures
        final(hdat)@ == mixed(old(hdat)@),
{
    if hdat.len() < STATE_LEN {
        return ;
    }
    let mut a: u128 = load_lane(hdat, 0);
    let mut b: u128 = load_lane(hdat, 16);
    let mut c: u128 = load_lane(hdat, 32);
    let mut d: u128 = load_lane(hdat, 48);
    let ghost start = Lanes { a, b, c, d };
    let mut n: usize = 0;
    while n < ROUNDS
        invariant
            n <= ROUNDS,
            (Lanes { a, b, c, d }) == rounds(start, n as nat),
        decreases ROUNDS - n,
    {
        proof {
            lemma_fold_in_range(a, b, d);
        }
        let e: u128 = (a / 2 + (b / 3 & d)) ^ c;
        d = c;
        c = b;
        b = a;
        a = e;
        n += 1;
    }
    proof {
        lemma_le_bytes_len(a as nat, 16);
        lemma_le_bytes_len(b as nat, 16);
        lemma_le_bytes_len(c as nat, 16);
        lemma_le_bytes_len(d as nat, 16);
    }
    store_lane(hdat, 0, a);
    store_lane(hdat, 16, b);
    store_lane(hdat, 32, c);
    store_lane(hdat, 48, d);
    proof {
        assert(hdat@ =~= mixed(old(hdat)@));
    }
}

} // verus!
