//! The single-bitmap filter: all `k` hash functions share one set of size `m`.
use roaring::RoaringTreemap;
use vstd::prelude::*;

use crate::hashing::{get_hash, slot, HashKey};
use crate::key_set::{lemma_keys_below, treemap_keys};
use crate::utils::{
    best_m, calculate_best_k, calculate_best_m, estimate_uniform, is_best_k, lemma_estimate_bounded,
    pow_estimate, valid_rate, BloomError, Rate,
};

verus! {

/// A filter whose `k` hash functions write into one shared set of size `m`.
pub struct StableBloomFilter {
    bitmap: RoaringTreemap,
    k: u32,
    m: u64,
    n: u64,
    f: Rate,
}

/// The keys that seeds `0..k` give `bytes` in a set of size `m`.
pub open spec fn probes(bytes: Seq<u8>, k: int, m: int) -> Set<u64> {
    Set::new(|x: u64| exists|i: int| 0 <= i < k && x == slot(bytes, i, m))
}

impl StableBloomFilter {
    /// The keys held in the shared set.
    pub closed spec fn keys(&self) -> Set<u64> {
        treemap_keys(self.bitmap)
    }

    /// The number of hash functions.
    pub closed spec fn hash_count(&self) -> nat {
        self.k as nat
    }

    /// The size of the shared set.
    pub closed spec fn bitmap_size(&self) -> nat {
        self.m as nat
    }

    /// The number of insertions so far.
    pub closed spec fn inserted(&self) -> nat {
        self.n as nat
    }

    /// The target false-positive rate.
    pub closed spec fn target(&self) -> Rate {
        self.f
    }

    pub closed spec fn wf(&self) -> bool {
        &&& self.k > 0
        &&& self.m > 0
        &&& self.f.parts > 0
        &&& treemap_keys(self.bitmap).finite()
        &&& forall|x: u64| treemap_keys(self.bitmap).contains(x) ==> x < self.m
    }

    /// Every key that `bytes` probes is set.
    pub open spec fn holds(&self, bytes: Seq<u8>) -> bool {
        probes(bytes, self.hash_count() as int, self.bitmap_size() as int).subset_of(self.keys())
    }

    /// `(|keys| / m)^k` in fixed point.
    pub open spec fn estimate(&self) -> int {
        pow_estimate(self.keys().len() as int, self.bitmap_size() as int, self.hash_count())
    }

    /// An empty filter with `k` hash functions over a set of size `m`.
    pub fn from_scratch(k: u32, m: u64, f: Rate) -> (r: Result<StableBloomFilter, BloomError>)
        ensures
            (k == 0 || m == 0 || f.parts == 0) <==> r is Err,
            r is Err ==> r == Err::<StableBloomFilter, BloomError>(BloomError::InvalidParameter),
            r matches Ok(b) ==> {
                &&& b.wf()
                &&& b.keys() == Set::<u64>::empty()
                &&& b.hash_count() == k
                &&& b.bitmap_size() == m
                &&& b.inserted() == 0
                &&& b.target() == f
            },
    {
        if k == 0 || m == 0 || f.parts == 0 {
            return Err(BloomError::InvalidParameter);
        }
        Ok(StableBloomFilter { bitmap: RoaringTreemap::new(), k, m, n: 0, f })
    }

    /// An empty filter sized for `capacity` values at rate `f`: `k` is the
    /// least hash count with `(1/2)^k <= f`, and the bitmap has the standard
    /// size `ceil(capacity * |ln f| / (ln 2)^2)`.
    pub fn new(capacity: u64, f: Rate) -> (r: Result<StableBloomFilter, BloomError>)
        ensures
            (capacity == 0 || !valid_rate(f)) <==> r == Err::<StableBloomFilter, BloomError>(
                BloomError::InvalidParameter,
            ),
            r == Err::<StableBloomFilter, BloomError>(BloomError::CapacityTooLarge) <==> (capacity > 0
                && valid_rate(f) && best_m(capacity as int, 1, f) > u64::MAX),
            r matches Ok(b) ==> {
                &&& b.wf()
                &&& b.keys() == Set::<u64>::empty()
                &&& b.inserted() == 0
                &&& b.target() == f
                &&& is_best_k(f, b.hash_count())
                &&& b.bitmap_size() == best_m(capacity as int, 1, f)
            },
    {
        if capacity == 0 || f.parts == 0 || f.bits_per_value == 0 {
            return Err(BloomError::InvalidParameter);
        }
        let k = match calculate_best_k(f) {
            Ok(k) => k,
            Err(e) => return Err(e),
        };
        let m = match calculate_best_m(capacity, 1, f) {
            Ok(m) => m,
            Err(e) => {
                return Err(e);
            },
        };
        StableBloomFilter::from_scratch(k, m, f)
    }

    /// Inserts `value`: sets the `k` keys it probes and counts one insertion.
    /// Returns `true` if one of those keys was not set before.
    pub fn add<T: HashKey + ?Sized>(&mut self, value: &T) -> (r: bool)
        requires
            old(self).wf(),
            old(self).inserted() < u64::MAX,
        ensures
            final(self).wf(),
            final(self).keys() == old(self).keys().union(
                probes(value.key_bytes(), old(self).hash_count() as int, old(self).bitmap_size() as int),
            ),
            r == !probes(
                value.key_bytes(),
                old(self).hash_count() as int,
                old(self).bitmap_size() as int,
            ).subset_of(old(self).keys()),
            final(self).inserted() == old(self).inserted() + 1,
            final(self).hash_count() == old(self).hash_count(),
            final(self).bitmap_size() == old(self).bitmap_size(),
            final(self).target() == old(self).target(),
            final(self).holds(value.key_bytes()),
            forall|b: Seq<u8>| old(self).holds(b) ==> final(self).holds(b),
            final(self).keys().len() >= old(self).keys().len(),
    {
        let ghost old_keys = treemap_keys(self.bitmap);
        let ghost b = value.key_bytes();
        let ghost m = self.m as int;
        self.n = self.n + 1;
        let mut any = false;
        let mut i: u32 = 0;
        while i < self.k
            invariant
                self.k == old(self).k,
                self.m == old(self).m,
                self.f == old(self).f,
                self.n == old(self).n + 1,
                self.wf(),
                m == self.m,
                b == value.key_bytes(),
                old_keys == treemap_keys(old(self).bitmap),
                i <= self.k,
                treemap_keys(self.bitmap) == old_keys.union(probes(b, i as int, m)),
                any == exists|j: int| 0 <= j < i && !old_keys.contains(slot(b, j, m)),
            decreases self.k - i,
        {
            let key = get_hash(value, i) % self.m;
            assert(key == slot(b, i as int, m));
            let ghost cur = treemap_keys(self.bitmap);
            let fresh = self.bitmap.insert(key);
            proof {
                assert(treemap_keys(self.bitmap) =~= old_keys.union(probes(b, i + 1, m)));
                if fresh && !any {
                    assert(!old_keys.contains(slot(b, i as int, m)));
                }
                if !fresh && !old_keys.contains(slot(b, i as int, m)) {
                    let j = choose|j: int| 0 <= j < i && key == slot(b, j, m);
                    assert(!old_keys.contains(slot(b, j, m)));
                }
            }
            any = any || fresh;
            i = i + 1;
        }
        proof {
            if !any {
                assert(probes(b, self.k as int, m).subset_of(old_keys));
            }
            vstd::set_lib::lemma_len_subset(old_keys, treemap_keys(self.bitmap));
        }
        any
    }

    /// `true` exactly when every key that `value` probes is set.
    pub fn contains<T: HashKey + ?Sized>(&self, value: &T) -> (r: bool)
        requires
            self.wf(),
        ensures
            r == self.holds(value.key_bytes()),
    {
        let ghost b = value.key_bytes();
        let mut i: u32 = 0;
        while i < self.k
            invariant
                self.wf(),
                i <= self.k,
                b == value.key_bytes(),
                probes(b, i as int, self.m as int).subset_of(treemap_keys(self.bitmap)),
            decreases self.k - i,
        {
            let key = get_hash(value, i) % self.m;
            assert(key == slot(b, i as int, self.m as int));
            if !self.bitmap.contains(key) {
                assert(probes(b, self.k as int, self.m as int).contains(key));
                return false;
            }
            i = i + 1;
        }
        true
    }

    /// The target false-positive rate.
    pub fn target_false_positive_rate(&self) -> (r: Rate)
        ensures
            r == self.target(),
    {
        self.f
    }

    /// `(|keys| / m)^k` in fixed point: `r / 2^64` is the chance that `k`
    /// random keys are all set.
    pub fn current_false_positive_rate(&self) -> (r: u128)
        requires
            self.wf(),
        ensures
            r == self.estimate(),
            r <= crate::utils::scale(),
    {
        proof {
            lemma_keys_below(treemap_keys(self.bitmap), self.m);
            lemma_estimate_bounded(treemap_keys(self.bitmap).len() as int, self.m as int, self.k as nat);
        }
        let len = self.bitmap.len();
        estimate_uniform(len, self.m, self.k)
    }

    /// `true` when no key is set.
    pub fn is_empty(&self) -> (r: bool)
        ensures
            r == (self.keys() == Set::<u64>::empty()),
    {
        self.bitmap.is_empty()
    }

    /// `true` when the estimate has reached the target rate.
    pub fn is_full(&self) -> (r: bool)
        requires
            self.wf(),
        ensures
            r == (self.estimate() >= self.target().parts),
    {
        self.current_false_positive_rate() >= self.f.parts as u128
    }

    /// The number of insertions so far.
    pub fn size(&self) -> (r: u64)
        ensures
            r == self.inserted(),
    {
        self.n
    }

    /// The number of keys set.
    pub fn len(&self) -> (r: u64)
        requires
            self.wf(),
        ensures
            r == self.keys().len(),
    {
        proof {
            lemma_keys_below(treemap_keys(self.bitmap), self.m);
        }
        self.bitmap.len()
    }
}

/// No false negatives for the filter's lifetime: if a value is found in one
/// state, it is found in every later state reached by inserts, since an insert
/// only adds keys. `add` ensures that the value it inserted is found right after.
pub proof fn law_no_false_negative(states: Seq<StableBloomFilter>, bytes: Seq<u8>)
    requires
        states.len() >= 1,
        states[0].holds(bytes),
        forall|i: int|
            0 <= i < states.len() - 1 ==> {
                &&& (#[trigger] states[i + 1]).hash_count() == states[i].hash_count()
                &&& states[i + 1].bitmap_size() == states[i].bitmap_size()
                &&& states[i].keys().subset_of(states[i + 1].keys())
            },
    ensures
        forall|i: int| 0 <= i < states.len() ==> (#[trigger] states[i]).holds(bytes),
    decreases states.len(),
{
    if states.len() > 1 {
        let p = states.drop_last();
        assert forall|i: int| 0 <= i < p.len() - 1 implies {
            &&& (#[trigger] p[i + 1]).hash_count() == p[i].hash_count()
            &&& p[i + 1].bitmap_size() == p[i].bitmap_size()
            &&& p[i].keys().subset_of(p[i + 1].keys())
        } by {
            assert(p[i + 1] == states[i + 1] && p[i] == states[i]);
        }
        law_no_false_negative(p, bytes);
        let n = states.len() - 1;
        assert(p[n - 1] == states[n - 1]);
        let i = n - 1;
        assert(states[i + 1].hash_count() == states[i].hash_count());
        assert(states[i].holds(bytes));
        assert forall|j: int| 0 <= j < states.len() implies (#[trigger] states[j]).holds(bytes) by {
            if j < n {
                assert(p[j] == states[j]);
            } else {
                assert(states[i + 1].holds(bytes));
            }
        }
    }
}

} // verus!
