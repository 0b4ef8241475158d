//! The lattice behind smooth value noise: a seeded permutation of the 256
//! lattice slots, doubled for wrap-free lookup, and 256 random 23-bit
//! mantissas from which the lattice values are taken.

use rand::Rng;
use rand::SeedableRng;
use rand::seq::SliceRandom;
use rand_pcg::Mcg128Xsl64;
use vstd::prelude::*;

verus! {

/// The bytes that `rand::seq::SliceRandom::shuffle` leaves in `bytes` when
/// the generator is a `rand_pcg::Pcg64Mcg` freshly seeded by
/// `rand_core::SeedableRng::seed_from_u64(seed)`.
pub uninterp spec fn pcg_shuffled_bytes(seed: u64, bytes: Seq<u8>) -> Seq<u8>;

/// The words that `rand::Rng::random::<[u32; 256]>` draws, one after the
/// other, from a `Pcg64Mcg` seeded by `seed_from_u64(seed)` once it has
/// shuffled a slice of `shuffled_len` elements.
pub uninterp spec fn pcg_words_after_shuffle(seed: u64, shuffled_len: nat) -> Seq<u32>;

/// Seeds a `rand_pcg::Pcg64Mcg` with `rand_core::SeedableRng::seed_from_u64`,
/// shuffles `bytes` with `rand::seq::SliceRandom::shuffle`, then draws 256
/// words with `rand::Rng::random::<[u32; 256]>` (256 calls of `next_u32`, in
/// order). Claimed: the generator is deterministic, so the shuffled bytes
/// are a function of the seed and the bytes, and the words a function of the
/// seed and the shuffled length; the shuffle only swaps, so the bytes keep
/// their multiset; 256 words come back. Which order and which words is not
/// stated beyond those names.
#[verifier::external_body]
fn pcg_shuffle_and_draw(seed: u64, bytes: Vec<u8>) -> (r: (Vec<u8>, Vec<u32>))
    ensures
        r.0@ == pcg_shuffled_bytes(seed, bytes@),
        r.0@.to_multiset() == bytes@.to_multiset(),
        r.1@ == pcg_words_after_shuffle(seed, bytes@.len()),
        r.1@.len() == 256,
{
    let mut rng = Mcg128Xsl64::seed_from_u64(seed);
    let mut shuffled = bytes;
    shuffled.shuffle(&mut rng);
    let words: [u32; 256] = rng.random();
    (shuffled, words.to_vec())
}

/// The bytes `0, 1, ..., 255` in order.
pub open spec fn all_bytes() -> Seq<u8> {
    Seq::new(256, |i: int| i as u8)
}

/// The shuffled table of lattice slots for `seed`.
pub open spec fn seeded_perm(seed: u64) -> Seq<u8> {
    pcg_shuffled_bytes(seed, all_bytes())
}

/// The 256 random words drawn for `seed` after the shuffle.
pub open spec fn seeded_words(seed: u64) -> Seq<u32> {
    pcg_words_after_shuffle(seed, 256)
}

/// Number of lattice slots.
pub const LATTICE_SLOTS: usize = 256;

/// One more than the largest mantissa: `2^23`.
pub const MANTISSA_RANGE: u32 = 0x80_0000;

/// The lattice of value noise.
pub struct NoiseLattice {
    perm: Vec<u8>,
    mantissas: Vec<u32>,
}

impl NoiseLattice {
    /// The doubled permutation table.
    pub closed spec fn perm(&self) -> Seq<u8> {
        self.perm@
    }

    /// The 256 lattice mantissas.
    pub closed spec fn mantissa_seq(&self) -> Seq<u32> {
        self.mantissas@
    }

    /// The first half of the table is a permutation of all bytes, the second
    /// half repeats it, and every mantissa is below `2^23`.
    pub open spec fn wf(&self) -> bool {
        &&& self.perm().len() == 512
        &&& self.perm().subrange(0, 256).to_multiset() == all_bytes().to_multiset()
        &&& forall|i: int| 0 <= i < 256 ==> #[trigger] self.perm()[i + 256] == self.perm()[i]
        &&& self.mantissa_seq().len() == 256
        &&& forall|i: int| 0 <= i < 256 ==> #[trigger] self.mantissa_seq()[i] < MANTISSA_RANGE
    }

    /// The lattice drawn from `seed`: the bytes `0..=255` are shuffled with a
    /// `Pcg64Mcg` generator seeded from `seed`, and the same generator then
    /// yields 256 random words; the lattice is [`NoiseLattice::from_draws`]
    /// of the shuffled bytes and the words. The same seed always gives the
    /// same lattice.
    pub fn new(seed: u64) -> (lattice: Self)
        ensures
            lattice.wf(),
            lattice.perm() == seeded_perm(seed) + seeded_perm(seed),
            forall|i: int|
                0 <= i < 256 ==> #[trigger] lattice.mantissa_seq()[i] == seeded_words(seed)[i]
                    >> 9u32,
    {
        let mut bytes: Vec<u8> = Vec::new();
        let mut b: usize = 0;
        while b < 256
            invariant
                b <= 256,
                bytes@.len() == b,
                forall|j: int| 0 <= j < b ==> #[trigger] bytes@[j] == j as u8,
            decreases 256 - b,
        {
            bytes.push(b as u8);
            b += 1;
        }
        assert(bytes@ =~= all_bytes());
        let (shuffled, words) = pcg_shuffle_and_draw(seed, bytes);
        Self::from_draws(shuffled, words)
    }

    /// The lattice of a shuffled byte table and 256 random words: the table
    /// is repeated once to give the doubled permutation, and each word's
    /// upper 23 bits (`word >> 9`) give the mantissa of its slot.
    pub fn from_draws(shuffled: Vec<u8>, words: Vec<u32>) -> (lattice: Self)
        requires
            shuffled@.to_multiset() == all_bytes().to_multiset(),
            words@.len() == 256,
        ensures
            lattice.wf(),
            lattice.perm() == shuffled@ + shuffled@,
            forall|i: int| 0 <= i < 256 ==> #[trigger] lattice.mantissa_seq()[i] == words@[i] >> 9u32,
    {
        proof {
            shuffled@.to_multiset_ensures();
            all_bytes().to_multiset_ensures();
        }
        assert(shuffled@.len() == 256);
        let mut perm: Vec<u8> = Vec::new();
        let mut i: usize = 0;
        while i < 512
            invariant
                shuffled@.len() == 256,
                i <= 512,
                perm@.len() == i,
                forall|j: int| 0 <= j < i ==> #[trigger] perm@[j] == shuffled@[j % 256],
            decreases 512 - i,
        {
            perm.push(shuffled[i % 256]);
            i += 1;
        }
        assert(perm@.subrange(0, 256) =~= shuffled@);
        assert forall|j: int| 0 <= j < 256 implies #[trigger] perm@[j + 256] == perm@[j] by {
            assert((j + 256) % 256 == j);
            assert(j % 256 == j);
        }
        assert(perm@ =~= shuffled@ + shuffled@) by {
            assert forall|j: int| 0 <= j < 512 implies #[trigger] perm@[j] == (shuffled@ + shuffled@)[j] by {
                if j >= 256 {
                    assert(j % 256 == j - 256);
                } else {
                    assert(j % 256 == j);
                }
            }
        }
        let mut mantissas: Vec<u32> = Vec::new();
        let mut k: usize = 0;
        while k < 256
            invariant
                words@.len() == 256,
                k <= 256,
                mantissas@.len() == k,
                forall|j: int| 0 <= j < k ==> #[trigger] mantissas@[j] == words@[j] >> 9u32,
                forall|j: int| 0 <= j < k ==> #[trigger] mantissas@[j] < MANTISSA_RANGE,
            decreases 256 - k,
        {
            let bits = words[k];
            let m = bits >> 9u32;
            assert(bits >> 9u32 < 0x80_0000u32) by (bit_vector);
            mantissas.push(m);
            k += 1;
        }
        NoiseLattice { perm, mantissas }
    }

    /// Lattice slot of integer point `(ix, iz)`:
    /// `perm[perm[ix mod 256] + iz mod 256]`, with Euclidean remainders.
    pub fn slot(&self, ix: i32, iz: i32) -> (s: usize)
        requires
            self.wf(),
        ensures
            s < LATTICE_SLOTS,
            s == self.perm()[self.perm()[ix as int % 256] as int + iz as int % 256],
    {
        let xi = wrap_byte(ix);
        let zi = wrap_byte(iz);
        let p = self.perm[xi] as usize;
        self.perm[p + zi] as usize
    }

    /// Mantissa of lattice slot `s`.
    pub fn mantissa(&self, s: usize) -> (m: u32)
        requires
            self.wf(),
            s < LATTICE_SLOTS,
        ensures
            m == self.mantissa_seq()[s as int],
            m < MANTISSA_RANGE,
    {
        self.mantissas[s]
    }
}

/// `v` modulo 256, Euclidean (never negative).
fn wrap_byte(v: i32) -> (r: usize)
    ensures
        r == v as int % 256,
        r < 256,
{
    if v >= 0 {
        (v % 256) as usize
    } else {
        let a: u64 = (-(v as i64)) as u64;
        let m = a % 256;
        if m == 0 {
            0
        } else {
            (256 - m) as usize
        }
    }
}

/// Drawing the lattice twice from the same seed gives the same table and
/// the same mantissas: whatever two lattices meet the contract of
/// [`NoiseLattice::new`] for one seed agree slot by slot.
pub proof fn lemma_same_seed_same_lattice(a: NoiseLattice, b: NoiseLattice, seed: u64)
    requires
        a.perm() == seeded_perm(seed) + seeded_perm(seed),
        b.perm() == seeded_perm(seed) + seeded_perm(seed),
        a.mantissa_seq().len() == 256,
        b.mantissa_seq().len() == 256,
        forall|i: int| 0 <= i < 256 ==> #[trigger] a.mantissa_seq()[i] == seeded_words(seed)[i] >> 9u32,
        forall|i: int| 0 <= i < 256 ==> #[trigger] b.mantissa_seq()[i] == seeded_words(seed)[i] >> 9u32,
    ensures
        a.perm() == b.perm(),
        a.mantissa_seq() == b.mantissa_seq(),
{
    assert(a.mantissa_seq() =~= b.mantissa_seq());
}

} // verus!
