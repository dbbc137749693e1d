use bit_vec::BitVec;
use vstd::prelude::*;

verus! {

/// Increment between the two hashes of a key.
pub const GOLDEN_RATIO: u64 = 0x9E37_79B9_7F4A_7C15;

// ---------------------------------------------------------------------
// Outside items
// ---------------------------------------------------------------------
/// `bit_vec::BitVec`: a growable vector of bits. Its contents are known
/// through [`bit_vec_bits`] only.
#[verifier::external_type_specification]
#[verifier::external_body]
#[verifier::reject_recursive_types(B)]
pub struct ExBitVec<B>(BitVec<B>);

/// The bits that a bit vector holds, first to last.
pub uninterp spec fn bit_vec_bits(b: BitVec) -> Seq<bool>;

/// The SeaHash digest of a byte string.
pub uninterp spec fn sea_hash(bytes: Seq<u8>) -> u64;

/// `bit_vec::BitVec::from_elem(nbits, false)`: a vector of `nbits` bits, all
/// clear.
#[verifier::external_body]
fn bits_cleared(nbits: usize) -> (b: BitVec)
    ensures
        bit_vec_bits(b) == Seq::new(nbits as nat, |i: int| false),
{
    BitVec::from_elem(nbits, false)
}

/// `bit_vec::BitVec::len`: the number of bits held.
#[verifier::external_body]
fn bits_len(b: &BitVec) -> (n: usize)
    ensures
        n == bit_vec_bits(*b).len(),
{
    b.len()
}

/// `bit_vec::BitVec::set(i, true)`: sets bit `i`, which must exist, and
/// leaves every other bit as it was.
#[verifier::external_body]
fn bits_set(b: &mut BitVec, i: usize)
    requires
        i < bit_vec_bits(*old(b)).len(),
    ensures
        bit_vec_bits(*final(b)) == bit_vec_bits(*old(b)).update(i as int, true),
{
    b.set(i, true);
}

/// `bit_vec::BitVec::get`: bit `i`, or `None` past the end.
#[verifier::external_body]
fn bits_get(b: &BitVec, i: usize) -> (r: Option<bool>)
    ensures
        r == (if i < bit_vec_bits(*b).len() {
            Some(bit_vec_bits(*b)[i as int])
        } else {
            None
        }),
{
    b.get(i)
}

/// `seahash::hash`: the digest of `key` under the crate's fixed seed.
#[verifier::external_body]
fn sea_hash_of(key: &[u8]) -> (h: u64)
    ensures
        h == sea_hash(key@),
{
    seahash::hash(key)
}

// ---------------------------------------------------------------------
// The filter
// ---------------------------------------------------------------------
/// Bit that probe number `i` of a key with first hash `h1` falls on, in a
/// filter of `m` bits: `(h1 + i * h2) mod m` with `h2 = h1 + GOLDEN_RATIO`,
/// sums and products wrapping at 64 bits.
pub open spec fn probe(h1: u64, i: u32, m: nat) -> int {
    (h1.wrapping_add((i as u64).wrapping_mul(h1.wrapping_add(GOLDEN_RATIO))) as int) % (m as int)
}

/// Whether one of the first `k` probes of `h1` falls on bit `j`.
pub open spec fn probed(h1: u64, k: u32, m: nat, j: int) -> bool {
    exists|i: u32| i < k && #[trigger] probe(h1, i, m) == j
}

/// Whether every one of the `k` probes of `h1` finds its bit set.
pub open spec fn all_set(bits: Seq<bool>, h1: u64, k: u32) -> bool {
    forall|i: u32| i < k ==> bits[#[trigger] probe(h1, i, bits.len())]
}

/// A probabilistic set of byte strings: no false negatives, no removal.
pub struct BloomFilter {
    bits: BitVec,
    num_hashes: u32,
}

impl BloomFilter {
    /// The bit array.
    pub closed spec fn bits(&self) -> Seq<bool> {
        bit_vec_bits(self.bits)
    }

    /// The number of probes per key.
    pub closed spec fn hashes(&self) -> u32 {
        self.num_hashes
    }

    /// A filter that probes needs at least one bit.
    pub open spec fn wf(&self) -> bool {
        self.hashes() > 0 ==> self.bits().len() > 0
    }

    /// Whether the filter would answer "possibly present" for `key`.
    pub open spec fn may_contain(&self, key: Seq<u8>) -> bool {
        all_set(self.bits(), sea_hash(key), self.hashes())
    }

    /// An empty filter of `num_bits` bits that probes `num_hashes` times per
    /// key.
    pub fn new(num_bits: usize, num_hashes: u32) -> (f: BloomFilter)
        requires
            num_hashes > 0 ==> num_bits > 0,
        ensures
            f.wf(),
            f.bits() == Seq::new(num_bits as nat, |i: int| false),
            f.hashes() == num_hashes,
    {
        BloomFilter { bits: bits_cleared(num_bits), num_hashes }
    }

    /// Size of the bit array.
    pub fn num_bits(&self) -> (n: usize)
        ensures
            n == self.bits().len(),
    {
        bits_len(&self.bits)
    }

    /// Probes per key.
    pub fn num_hashes(&self) -> (k: u32)
        ensures
            k == self.hashes(),
    {
        self.num_hashes
    }

    /// Adds `key`: sets the bit of each of its probes and no other.
    pub fn insert(&mut self, key: &[u8])
        requires
            old(self).wf(),
        ensures
            final(self).wf(),
            final(self).hashes() == old(self).hashes(),
            final(self).bits().len() == old(self).bits().len(),
            forall|j: int|
                0 <= j < old(self).bits().len() ==> (#[trigger] final(self).bits()[j] == (old(
                    self,
                ).bits()[j] || probed(
                    sea_hash(key@),
                    old(self).hashes(),
                    old(self).bits().len(),
                    j,
                ))),
            final(self).may_contain(key@),
    {
        let h1: u64 = sea_hash_of(key);
        let h2: u64 = h1.wrapping_add(GOLDEN_RATIO);
        let m: usize = bits_len(&self.bits);
        let k: u32 = self.num_hashes;
        let mut i: u32 = 0;
        while i < k
            invariant
                i <= k,
                k == self.num_hashes,
                k == old(self).num_hashes,
                k > 0 ==> m > 0,
                m == bit_vec_bits(self.bits).len(),
                m == bit_vec_bits(old(self).bits).len(),
                h1 == sea_hash(key@),
                h2 == h1.wrapping_add(GOLDEN_RATIO),
                forall|j: int|
                    0 <= j < m ==> (#[trigger] bit_vec_bits(self.bits)[j] == (bit_vec_bits(
                        old(self).bits,
                    )[j] || probed(h1, i, m as nat, j))),
            decreases k - i,
        {
            let idx: u64 = h1.wrapping_add((i as u64).wrapping_mul(h2)) % (m as u64);
            bits_set(&mut self.bits, idx as usize);
            proof {
                assert(idx == probe(h1, i, m as nat));
                assert forall|j: int| 0 <= j < m implies (#[trigger] bit_vec_bits(self.bits)[j] == (
                bit_vec_bits(old(self).bits)[j] || probed(h1, (i + 1) as u32, m as nat, j))) by {
                    if probed(h1, i, m as nat, j) {
                        let w = choose|w: u32| w < i && #[trigger] probe(h1, w, m as nat) == j;
                        assert(w < i + 1 && probe(h1, w, m as nat) == j);
                    }
                    if probed(h1, (i + 1) as u32, m as nat, j) {
                        let w = choose|w: u32| w < i + 1 && #[trigger] probe(h1, w, m as nat) == j;
                        if w < i {
                            assert(probed(h1, i, m as nat, j));
                        }
                    }
                }
            }
            i += 1;
        }
        proof {
            assert forall|w: u32| w < k implies bit_vec_bits(self.bits)[#[trigger] probe(
                h1,
                w,
                m as nat,
            )] by {
                let j = probe(h1, w, m as nat);
                assert(0 <= j < m);
                assert(probed(h1, k, m as nat, j));
            }
        }
    }

    /// `false` when `key` was certainly never added; `true` when every probe
    /// of `key` finds its bit set.
    pub fn contains(&self, key: &[u8]) -> (r: bool)
        requires
            self.wf(),
        ensures
            r == self.may_contain(key@),
    {
        let h1: u64 = sea_hash_of(key);
        let h2: u64 = h1.wrapping_add(GOLDEN_RATIO);
        let m: usize = bits_len(&self.bits);
        let k: u32 = self.num_hashes;
        let mut i: u32 = 0;
        while i < k
            invariant
                i <= k,
                k == self.num_hashes,
                k > 0 ==> m > 0,
                m == bit_vec_bits(self.bits).len(),
                h1 == sea_hash(key@),
                h2 == h1.wrapping_add(GOLDEN_RATIO),
                forall|w: u32| w < i ==> bit_vec_bits(self.bits)[#[trigger] probe(h1, w, m as nat)],
            decreases k - i,
        {
            let idx: u64 = h1.wrapping_add((i as u64).wrapping_mul(h2)) % (m as u64);
            assert(idx == probe(h1, i, m as nat));
            match bits_get(&self.bits, idx as usize) {
                Some(true) => {},
                _ => {
                    return false;
                },
            }
            i += 1;
        }
        true
    }
}

/// Adding a key never makes the filter forget another: whatever it may have
/// contained before, it still may.
pub proof fn law_insert_keeps_members(before: BloomFilter, after: BloomFilter, added: Seq<u8>, other: Seq<u8>)
    requires
        after.hashes() == before.hashes(),
        after.bits().len() == before.bits().len(),
        before.hashes() > 0 ==> before.bits().len() > 0,
        forall|j: int|
            0 <= j < before.bits().len() ==> (#[trigger] after.bits()[j] == (before.bits()[j]
                || probed(sea_hash(added), before.hashes(), before.bits().len(), j))),
        before.may_contain(other),
    ensures
        after.may_contain(other),
{
    let h = sea_hash(other);
    let m = before.bits().len();
    assert forall|i: u32| i < after.hashes() implies after.bits()[#[trigger] probe(h, i, m)] by {
        let j = probe(h, i, m);
        assert(0 <= j < m);
        assert(before.bits()[j]);
    }
}

} // verus!
