//! The register core of the cardinality sketch.
//!
//! A 64-bit hash of each item is split in two: the low `P` bits pick one of
//! the `M = 2^P` registers, and the remaining `64 - P` bits yield a rank,
//! one more than the number of leading zero bits of that remainder counted
//! within its `64 - P`-bit width. Each register keeps the largest rank it
//! has seen. Everything about the register state is verified here; the
//! floating-point evaluation of the estimate is left to the caller, fed by
//! the exact integer summaries `zero_count` and `scaled_harmonic_sum`.

use core::hash::Hash;
use core::hash::Hasher;
use std::collections::hash_map::DefaultHasher;
use vstd::prelude::*;
use vstd::arithmetic::mul::lemma_mul_inequality;
use vstd::arithmetic::power2::lemma2_to64;
use vstd::arithmetic::power2::lemma2_to64_rest;
use vstd::arithmetic::power2::lemma_pow2_adds;
use vstd::arithmetic::power2::lemma_pow2_strictly_increases;
use vstd::arithmetic::power2::lemma_pow2_unfold;
use vstd::arithmetic::power2::pow2;
use vstd::std_specs::bits::axiom_u64_leading_zeros;
use vstd::std_specs::bits::u64_leading_zeros;

verus! {

/// Number of hash bits used to pick a register (the precision).
pub const P: u64 = 14;

/// Number of registers, `2^P`.
pub const M: usize = 16384;

/// The largest rank a hash can produce: a remainder of exactly zero has all
/// of its `64 - P` bits leading zeros, giving rank `(64 - P) + 1`.
pub const MAX_RANK: u8 = 51;

/// The register an item with this hash is routed to: the low `P` bits.
pub open spec fn bucket_of(hash: u64) -> int {
    (hash % (M as u64)) as int
}

/// The rank an item with this hash contributes: one more than the number of
/// leading zero bits of `hash >> P`, counted within the remaining `64 - P`
/// bits. Counting within 64 bits always sees exactly `P` extra zeros at the
/// top, so the width adjustment and the `+ 1` fold into `1 - P`.
pub open spec fn rank_of(hash: u64) -> int {
    u64_leading_zeros(hash >> P) + 1 - P
}

/// The register state after one item with the given hash is added: the
/// routed register rises to the rank if it was below it, all others keep
/// their value.
pub open spec fn add_one(regs: Seq<u8>, hash: u64) -> Seq<u8> {
    let i = bucket_of(hash);
    if regs[i] < rank_of(hash) {
        regs.update(i, rank_of(hash) as u8)
    } else {
        regs
    }
}

/// The number of registers still at zero, the quantity the estimator's
/// small-range (linear counting) correction is built on.
pub open spec fn count_zeros(regs: Seq<u8>) -> nat
    decreases regs.len(),
{
    if regs.len() == 0 {
        0
    } else {
        count_zeros(regs.drop_last()) + if regs.last() == 0 {
            1nat
        } else {
            0nat
        }
    }
}

/// What one register contributes to the estimator's harmonic indicator
/// `sum of 2^-register`, scaled by `2^MAX_RANK` so that it is an exact
/// integer.
pub open spec fn weight(v: u8) -> nat
    recommends
        v <= MAX_RANK,
{
    pow2((MAX_RANK - v) as nat)
}

/// The scaled harmonic indicator of a register state: the sum of
/// `2^(MAX_RANK - register)` over all registers. Dividing by `2^MAX_RANK`
/// recovers `sum of 2^-register`, the denominator of the raw estimate.
pub open spec fn weight_sum(regs: Seq<u8>) -> nat
    decreases regs.len(),
{
    if regs.len() == 0 {
        0
    } else {
        weight_sum(regs.drop_last()) + weight(regs.last())
    }
}

/// The register state after the hashes are added in order.
pub open spec fn add_seq(regs: Seq<u8>, hashes: Seq<u64>) -> Seq<u8>
    decreases hashes.len(),
{
    if hashes.len() == 0 {
        regs
    } else {
        add_seq(add_one(regs, hashes[0]), hashes.drop_first())
    }
}

/// Relies on `core::hash::Hash::hash`: feeds the item's representation to
/// the hasher. Which bytes a given item writes is up to its `Hash`
/// implementation, so nothing is claimed of the hasher's new state; the
/// sketch's contracts hold whatever 64-bit value the hasher later yields.
#[verifier::external_body]
fn hash_into<T: Hash + ?Sized>(item: &T, hasher: &mut DefaultHasher) {
    item.hash(hasher)
}

/// Any value below `2^(64 - k)` has at least `k` leading zero bits.
proof fn lemma_clz_lower_bound(i: u64, k: nat)
    requires
        k <= 64,
        i < pow2((64 - k) as nat),
    ensures
        u64_leading_zeros(i) >= k,
    decreases i,
{
    reveal(u64_leading_zeros);
    if i == 0 {
    } else {
        if k == 64 {
            assert(pow2(0) == 1) by {
                lemma2_to64();
            }
            assert(false);
        }
        lemma_pow2_unfold((64 - k) as nat);
        assert(i / 2 < pow2((64 - (k + 1)) as nat));
        lemma_clz_lower_bound(i / 2, k + 1);
    }
}

/// The rank of any hash lies between 1 and `MAX_RANK`: the shifted hash
/// fits in `64 - P` bits, so its 64-bit leading-zero count is at least `P`.
pub proof fn lemma_rank_bounds(hash: u64)
    ensures
        1 <= rank_of(hash) <= MAX_RANK,
        P <= u64_leading_zeros(hash >> P) <= 64,
{
    let pattern: u64 = hash >> P;
    axiom_u64_leading_zeros(pattern);
    assert(hash >> 14u64 < 0x4000000000000u64) by (bit_vector);
    assert(pow2(50) == 0x4000000000000) by {
        lemma2_to64_rest();
    }
    lemma_clz_lower_bound(pattern, 14);
}

/// The boundary of the leading-zero count: a hash whose remaining bits are
/// exactly zero is still ranked, and gets the largest rank `(64 - P) + 1`.
pub proof fn lemma_boundary_rank(hash: u64)
    requires
        hash >> P == 0,
    ensures
        rank_of(hash) == MAX_RANK,
{
    axiom_u64_leading_zeros(hash >> P);
}

/// A sketch for estimating the number of distinct items added so far,
/// in `M` bytes of state.
pub struct HyperLogLog {
    registers: Vec<u8>,
}

impl View for HyperLogLog {
    type V = Seq<u8>;

    closed spec fn view(&self) -> Seq<u8> {
        self.registers@
    }
}

impl HyperLogLog {
    /// The sketch holds one register per possible index and no register
    /// ever exceeds the largest possible rank.
    pub open spec fn wf(self) -> bool {
        &&& self@.len() == M
        &&& forall|i: int| 0 <= i < self@.len() ==> self@[i] <= MAX_RANK
    }

    /// Creates an empty sketch: every register is zero.
    pub fn new() -> (sketch: Self)
        ensures
            sketch.wf(),
            sketch@.len() == M,
            forall|i: int| 0 <= i < M ==> sketch@[i] == 0,
    {
        let mut registers: Vec<u8> = Vec::new();
        let mut i: usize = 0;
        while i < M
            invariant
                i <= M,
                registers@.len() == i,
                forall|j: int| 0 <= j < i ==> registers@[j] == 0,
            decreases M - i,
        {
            registers.push(0);
            i = i + 1;
        }
        HyperLogLog { registers }
    }

    /// Folds a precomputed 64-bit hash into the sketch: the register picked
    /// by the low `P` bits rises to the rank drawn from the remaining bits
    /// if it was below it. No register ever decreases.
    pub fn add_hash(&mut self, hash: u64)
        requires
            old(self).wf(),
        ensures
            final(self).wf(),
            final(self)@ == add_one(old(self)@, hash),
            forall|i: int|
                0 <= i < old(self)@.len() ==> old(self)@[i] <= final(self)@[i],
    {
        proof {
            lemma_rank_bounds(hash);
        }
        let index: usize = (hash & ((M as u64) - 1)) as usize;
        assert(hash & 0x3fffu64 == hash % 0x4000u64) by (bit_vector);
        let pattern: u64 = hash >> P;
        let lz: u32 = pattern.leading_zeros();
        let rank: u8 = (lz - 13) as u8;
        assert(rank == rank_of(hash));
        let cur: u8 = self.registers[index];
        if cur < rank {
            self.registers[index] = rank;
        }
        proof {
            assert(self@ =~= add_one(old(self)@, hash));
        }
    }

    /// Adds one item: hashes it to 64 bits with `DefaultHasher` and folds
    /// the hash in. Which register rises depends on the item's `Hash`
    /// implementation, so the contract promises only that the new state is
    /// one `add_one` step from the old one; every register is
    /// non-decreasing whatever the hash came out to be.
    pub fn add<T: Hash>(&mut self, item: &T)
        requires
            old(self).wf(),
        ensures
            final(self).wf(),
            exists|h: u64| final(self)@ == add_one(old(self)@, h),
            forall|i: int|
                0 <= i < old(self)@.len() ==> old(self)@[i] <= final(self)@[i],
    {
        let mut hasher = DefaultHasher::new();
        hash_into(item, &mut hasher);
        let hash: u64 = hasher.finish();
        self.add_hash(hash);
        proof {
            assert(self@ == add_one(old(self)@, hash));
        }
    }

    /// Reads one register.
    pub fn register(&self, i: usize) -> (r: u8)
        requires
            self.wf(),
            i < M,
        ensures
            r == self@[i as int],
    {
        self.registers[i]
    }

    /// Counts the registers still at zero. A fresh sketch reports `M`, and
    /// the count never rises as items are added.
    pub fn zero_count(&self) -> (n: usize)
        requires
            self.wf(),
        ensures
            n == count_zeros(self@),
    {
        let mut n: usize = 0;
        let mut i: usize = 0;
        while i < self.registers.len()
            invariant
                self.wf(),
                i <= self@.len(),
                n <= i,
                n == count_zeros(self@.take(i as int)),
            decreases self@.len() - i,
        {
            proof {
                assert(self@.take(i + 1).drop_last() =~= self@.take(i as int));
                assert(self@.take(i + 1).last() == self@[i as int]);
            }
            if self.registers[i] == 0 {
                n = n + 1;
            }
            i = i + 1;
        }
        proof {
            assert(self@.take(self@.len() as int) =~= self@);
        }
        n
    }

    /// Computes the scaled harmonic indicator `weight_sum` of the current
    /// register state, exactly: each register contributes
    /// `2^(MAX_RANK - register)`, so the result divided by `2^MAX_RANK` is
    /// the `sum of 2^-register` the raw estimate divides by. The sum is at
    /// most `M * 2^MAX_RANK = 2^65`, which a `u128` holds without loss.
    pub fn scaled_harmonic_sum(&self) -> (s: u128)
        requires
            self.wf(),
        ensures
            s == weight_sum(self@),
    {
        let mut s: u128 = 0;
        let mut i: usize = 0;
        while i < self.registers.len()
            invariant
                self.wf(),
                i <= self@.len(),
                s == weight_sum(self@.take(i as int)),
                s <= i * pow2(MAX_RANK as nat),
            decreases self@.len() - i,
        {
            let r: u8 = self.registers[i];
            let term: u64 = pow2_exec((MAX_RANK - r) as u64);
            proof {
                if r > 0 {
                    lemma_pow2_strictly_increases((MAX_RANK - r) as nat, MAX_RANK as nat);
                }
                assert(self@.take(i + 1).drop_last() =~= self@.take(i as int));
                assert(self@.take(i + 1).last() == self@[i as int]);
                assert((i + 1) * pow2(MAX_RANK as nat) == i * pow2(MAX_RANK as nat) + pow2(
                    MAX_RANK as nat,
                )) by (nonlinear_arith);
                lemma_mul_inequality(i + 1, M as int, pow2(MAX_RANK as nat) as int);
                lemma_pow2_adds(14, MAX_RANK as nat);
                lemma2_to64();
                lemma2_to64_rest();
            }
            s = s + term as u128;
            i = i + 1;
        }
        proof {
            assert(self@.take(self@.len() as int) =~= self@);
        }
        s
    }
}

/// Monotonicity, one step: folding a hash leaves every register at least
/// as large as before, and the length unchanged.
pub proof fn lemma_add_one_monotonic(regs: Seq<u8>, hash: u64)
    requires
        regs.len() == M,
    ensures
        add_one(regs, hash).len() == regs.len(),
        forall|i: int| 0 <= i < regs.len() ==> regs[i] <= add_one(regs, hash)[i],
{
}

/// Monotonicity: across any sequence of folded hashes, every register is
/// non-decreasing; with `lemma_add_one_monotonic` this holds after each
/// single step as well.
pub proof fn lemma_add_seq_monotonic(regs: Seq<u8>, hashes: Seq<u64>)
    requires
        regs.len() == M,
    ensures
        add_seq(regs, hashes).len() == regs.len(),
        forall|i: int| 0 <= i < regs.len() ==> regs[i] <= add_seq(regs, hashes)[i],
    decreases hashes.len(),
{
    if hashes.len() > 0 {
        lemma_add_one_monotonic(regs, hashes[0]);
        lemma_add_seq_monotonic(add_one(regs, hashes[0]), hashes.drop_first());
    }
}

/// Folding two hashes in either order leaves the same register state.
pub proof fn lemma_add_one_commutes(regs: Seq<u8>, h1: u64, h2: u64)
    requires
        regs.len() == M,
    ensures
        add_one(add_one(regs, h1), h2) == add_one(add_one(regs, h2), h1),
{
    assert(add_one(add_one(regs, h1), h2) =~= add_one(add_one(regs, h2), h1));
}

/// Folding the hash at position `j` first, then the rest in order, ends in
/// the same state as folding the whole sequence in order.
proof fn lemma_add_seq_pull(regs: Seq<u8>, hashes: Seq<u64>, j: int)
    requires
        regs.len() == M,
        0 <= j < hashes.len(),
    ensures
        add_seq(regs, hashes) == add_seq(add_one(regs, hashes[j]), hashes.remove(j)),
    decreases j,
{
    if j == 0 {
        assert(hashes.remove(0) =~= hashes.drop_first());
    } else {
        let h0: u64 = hashes[0];
        let rest = hashes.drop_first();
        lemma_add_seq_pull(add_one(regs, h0), rest, j - 1);
        assert(rest[j - 1] == hashes[j]);
        lemma_add_one_commutes(regs, h0, hashes[j]);
        assert(hashes.remove(j)[0] == h0);
        assert(hashes.remove(j).drop_first() =~= rest.remove(j - 1));
    }
}

/// Order independence: folding the same multiset of hashes, in whatever
/// order, leaves the same register state — and with it everything computed
/// from that state, `count_zeros` and `weight_sum` included.
pub proof fn lemma_add_seq_permutation(regs: Seq<u8>, hs1: Seq<u64>, hs2: Seq<u64>)
    requires
        regs.len() == M,
        hs1.to_multiset() == hs2.to_multiset(),
    ensures
        add_seq(regs, hs1) == add_seq(regs, hs2),
    decreases hs1.len(),
{
    broadcast use vstd::seq_lib::group_to_multiset_ensures;

    if hs1.len() == 0 {
        assert(hs1.to_multiset().len() == hs1.len());
        assert(hs2.to_multiset().len() == hs2.len());
        assert(hs2.len() == 0);
    } else {
        let h: u64 = hs1[0];
        assert(hs1.contains(h));
        assert(hs2.to_multiset().count(h) > 0);
        assert(hs2.contains(h));
        let j: int = choose|j: int| 0 <= j < hs2.len() && hs2[j] == h;
        lemma_add_seq_pull(regs, hs2, j);
        assert(hs1.drop_first() =~= hs1.remove(0));
        lemma_add_seq_permutation(add_one(regs, h), hs1.drop_first(), hs2.remove(j));
    }
}

/// Duplicate insensitivity, one step: folding a hash a second time changes
/// nothing.
pub proof fn lemma_add_one_idempotent(regs: Seq<u8>, hash: u64)
    requires
        regs.len() == M,
    ensures
        add_one(add_one(regs, hash), hash) == add_one(regs, hash),
{
    assert(add_one(add_one(regs, hash), hash) =~= add_one(regs, hash));
}

/// Duplicate insensitivity: folding the same hash `k` times leaves exactly
/// the state of folding it once.
pub proof fn lemma_add_repeated(regs: Seq<u8>, hash: u64, k: nat)
    requires
        regs.len() == M,
        k >= 1,
    ensures
        add_seq(regs, Seq::new(k, |i: int| hash)) == add_one(regs, hash),
    decreases k,
{
    let s = Seq::new(k, |i: int| hash);
    assert(s[0] == hash);
    assert(add_seq(regs, s) == add_seq(add_one(regs, hash), s.drop_first()));
    if k == 1 {
        assert(s.drop_first() =~= Seq::<u64>::empty());
        assert(add_seq(add_one(regs, hash), Seq::<u64>::empty()) == add_one(regs, hash));
    } else {
        assert(s.drop_first() =~= Seq::new((k - 1) as nat, |i: int| hash));
        lemma_add_repeated(add_one(regs, hash), hash, (k - 1) as nat);
        lemma_add_one_idempotent(regs, hash);
    }
}

/// The fresh state: while every register is zero, every register counts
/// as zero and each contributes the full weight `2^MAX_RANK`. The
/// linear-counting ratio of registers to zero registers is then exactly
/// one, the state whose estimate is zero.
pub proof fn lemma_fresh_state(regs: Seq<u8>)
    requires
        forall|i: int| 0 <= i < regs.len() ==> regs[i] == 0,
    ensures
        count_zeros(regs) == regs.len(),
        weight_sum(regs) == regs.len() * pow2(MAX_RANK as nat),
    decreases regs.len(),
{
    if regs.len() == 0 {
    } else {
        lemma_fresh_state(regs.drop_last());
        assert(regs.len() * pow2(MAX_RANK as nat) == (regs.len() - 1) * pow2(MAX_RANK as nat)
            + pow2(MAX_RANK as nat)) by (nonlinear_arith);
    }
}

/// Computes `2^e` by repeated doubling.
fn pow2_exec(e: u64) -> (r: u64)
    requires
        e <= 63,
    ensures
        r == pow2(e as nat),
{
    proof {
        lemma2_to64();
    }
    let mut r: u64 = 1;
    let mut j: u64 = 0;
    while j < e
        invariant
            j <= e,
            e <= 63,
            r == pow2(j as nat),
        decreases e - j,
    {
        proof {
            lemma_pow2_unfold((j + 1) as nat);
            if j + 1 < 63 {
                lemma_pow2_strictly_increases((j + 1) as nat, 63);
            }
            lemma2_to64_rest();
        }
        r = r * 2;
        j = j + 1;
    }
    r
}

} // verus!
