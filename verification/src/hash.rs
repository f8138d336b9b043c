//! Hashing of canonical cell keys into a fixed number of buckets.
//!
//! A cell's canonical key is combined into a single 64-bit value by a
//! [`HashStrategy`]; the bucket index is that value modulo
//! [`NUM_BUCKETS`].  Distinct cells may collide into one bucket, so every
//! lookup must still perform an exact match on the canonical key; the hash
//! only narrows the search.  Both strategies are deterministic functions of
//! the key (and, for the keyed one, of its two key words), which is what
//! lets the container prove that an added value is found again.

use crate::coordinates::Key;
use vstd::prelude::*;

verus! {

/// Number of hash buckets a container owns.
pub const NUM_BUCKETS: usize = 256;

/// Multiplier for the first key component (odd, as the mixing needs).
pub const M0: u64 = 1597334677;

/// Multiplier for the second key component.
pub const M1: u64 = 3812015801;

/// Multiplier for a third written word, kept for parity with the
/// three-word capacity of [`SimpleHash`].
pub const M2: u64 = 2489301273;

/// Default first key word of the keyed strategy.
pub const DEFAULT_K0: u64 = 0x9E37_79B9_7F4A_7C15;

/// Default second key word of the keyed strategy.
pub const DEFAULT_K1: u64 = 0xC2B2_AE3D_27D4_EB4F;

/// A signed component shifted into unsigned range: `v + 2^63`.
///
/// Order-preserving and injective, so distinct components stay distinct
/// before mixing.
pub open spec fn enc_spec(v: int) -> u64 {
    (v + 0x8000_0000_0000_0000) as u64
}

/// Shift a signed key component into unsigned range.
pub fn enc(v: i64) -> (r: u64)
    ensures
        r == enc_spec(v as int),
{
    if v >= 0 {
        (v as u64) + 0x8000_0000_0000_0000u64
    } else {
        (v - i64::MIN) as u64
    }
}

/// The multiplier applied to the `i`-th written word.
pub open spec fn m_const_spec(i: int) -> u64 {
    if i == 0 {
        M0
    } else if i == 1 {
        M1
    } else {
        M2
    }
}

/// A word xor-folded into a hash state after keyed multiplication.
pub open spec fn mix_spec(v: u64, m: u64) -> u64 {
    v.wrapping_mul(m)
}

/// The deterministic hasher: each written word is multiplied by a fixed
/// odd constant — a different constant per position, so the combination is
/// deliberately not symmetric — and xor-folded into the state.
pub struct SimpleHash {
    pub state: u64,
    pub count: usize,
}

impl SimpleHash {
    /// A fresh hasher with empty state.
    pub fn new() -> (h: SimpleHash)
        ensures
            h.state == 0u64,
            h.count == 0,
    {
        SimpleHash { state: 0, count: 0 }
    }

    /// Fold one signed word into the state.
    pub fn write_i64(&mut self, v: i64)
        requires
            old(self).count < 3,
        ensures
            final(self).state == (old(self).state ^ mix_spec(
                enc_spec(v as int),
                m_const_spec(old(self).count as int),
            )),
            final(self).count == old(self).count + 1,
    {
        let m = if self.count == 0 {
            M0
        } else if self.count == 1 {
            M1
        } else {
            M2
        };
        self.state = self.state ^ enc(v).wrapping_mul(m);
        self.count = self.count + 1;
    }

    /// The accumulated 64-bit hash.
    pub fn finish(&self) -> (r: u64)
        ensures
            r == self.state,
    {
        self.state
    }
}

/// How a container maps canonical keys to buckets: a keyed mix for
/// production use, or the plain [`SimpleHash`] fold for reproducible
/// distributions.  Either way the bucket of a key is a pure function of
/// this strategy value and the key.
#[derive(Clone, Copy, PartialEq, Eq, Structural, Debug)]
pub enum HashStrategy {
    /// Mix each encoded component with a key word before multiplying.
    Keyed { k0: u64, k1: u64 },
    /// The plain deterministic fold of [`SimpleHash`].
    Simple,
}

impl HashStrategy {
    /// The keyed strategy with its default key words.
    pub fn default_keyed() -> (s: HashStrategy)
        ensures
            s == (HashStrategy::Keyed { k0: DEFAULT_K0, k1: DEFAULT_K1 }),
    {
        HashStrategy::Keyed { k0: DEFAULT_K0, k1: DEFAULT_K1 }
    }

    /// The 64-bit hash of a canonical key under this strategy.
    pub open spec fn hash_spec(self, kx: int, ky: int) -> u64 {
        match self {
            HashStrategy::Keyed { k0, k1 } => mix_spec(enc_spec(kx) ^ k0, M0) ^ mix_spec(
                enc_spec(ky) ^ k1,
                M1,
            ),
            HashStrategy::Simple => mix_spec(enc_spec(kx), M0) ^ mix_spec(enc_spec(ky), M1),
        }
    }

    /// Hash a canonical key.
    pub fn hash_key(&self, k: Key) -> (h: u64)
        ensures
            h == self.hash_spec(k.x as int, k.y as int),
    {
        match self {
            HashStrategy::Keyed { k0, k1 } => {
                (enc(k.x) ^ *k0).wrapping_mul(M0) ^ (enc(k.y) ^ *k1).wrapping_mul(M1)
            },
            HashStrategy::Simple => {
                let mut h = SimpleHash::new();
                h.write_i64(k.x);
                h.write_i64(k.y);
                let r = h.finish();
                proof {
                    let a = mix_spec(enc_spec(k.x as int), M0);
                    assert(0u64 ^ a == a) by (bit_vector);
                }
                r
            },
        }
    }
}

/// The bucket a canonical key falls into: `hash mod NUM_BUCKETS`.
pub open spec fn bucket_of_spec(st: HashStrategy, kx: int, ky: int) -> int {
    (st.hash_spec(kx, ky) as int) % (NUM_BUCKETS as int)
}

/// Bucket bound: for every strategy and coordinate key the bucket index
/// is in `[0, NUM_BUCKETS)`.
pub proof fn lemma_bucket_in_range(st: HashStrategy, kx: int, ky: int)
    ensures
        0 <= bucket_of_spec(st, kx, ky) < NUM_BUCKETS,
{
}

/// Map a canonical key to its bucket.
pub fn bucket_of(st: &HashStrategy, k: Key) -> (b: usize)
    ensures
        b == bucket_of_spec(*st, k.x as int, k.y as int),
        b < NUM_BUCKETS,
{
    let h = st.hash_key(k);
    (h % 256) as usize
}

} // verus!
