//! The sliced filter: hash function `i` owns set `i`, each of size `m`.
use roaring::RoaringTreemap;
use vstd::prelude::*;

use crate::hashing::{get_hash, slot, HashKey};
use crate::key_set::{lemma_keys_below, treemap_keys};
use crate::utils::{
    best_m, calculate_best_k, calculate_best_m, is_best_k, scale, valid_rate, BloomError, Rate, SCALE,
};

verus! {

/// `Π |s[i]| / m` in fixed point, one floor-rounded factor per set.
pub open spec fn slices_estimate(s: Seq<Set<u64>>, m: int) -> int
    decreases s.len(),
{
    if s.len() == 0 {
        scale()
    } else {
        slices_estimate(s.drop_last(), m) * (s.last().len() as int) / m
    }
}

/// `Σ |s[i]|`.
pub open spec fn total_len(s: Seq<Set<u64>>) -> int
    decreases s.len(),
{
    if s.len() == 0 {
        0
    } else {
        total_len(s.drop_last()) + s.last().len()
    }
}

/// Sets that hold only keys below `m` keep the estimate within `[0, 1]`.
pub proof fn lemma_slices_estimate_bounded(s: Seq<Set<u64>>, m: u64)
    requires
        m > 0,
        forall|i: int| 0 <= i < s.len() ==> #[trigger] s[i].finite() && s[i].len() <= m,
    ensures
        0 <= slices_estimate(s, m as int) <= scale(),
    decreases s.len(),
{
    if s.len() > 0 {
        let p = s.drop_last();
        assert forall|i: int| 0 <= i < p.len() implies #[trigger] p[i].finite() && p[i].len() <= m by {
            assert(p[i] == s[i]);
        }
        lemma_slices_estimate_bounded(p, m);
        let a = slices_estimate(p, m as int);
        assert(s[s.len() - 1].finite() && s[s.len() - 1].len() <= m);
        let c = s.last().len() as int;
        assert(0 <= a * c <= a * m) by (nonlinear_arith)
            requires 0 <= a, 0 <= c <= m;
        vstd::arithmetic::div_mod::lemma_div_is_ordered(a * c, a * m, m as int);
        vstd::arithmetic::div_mod::lemma_div_pos_is_pos(a * c, m as int);
        vstd::arithmetic::div_mod::lemma_div_by_multiple(a, m as int);
    }
}

/// Growing every set never shrinks the total.
pub proof fn lemma_total_len_grows(s1: Seq<Set<u64>>, s2: Seq<Set<u64>>)
    requires
        s1.len() == s2.len(),
        forall|i: int| 0 <= i < s1.len() ==> #[trigger] s2[i].finite() && s1[i].subset_of(s2[i]),
    ensures
        total_len(s1) <= total_len(s2),
    decreases s1.len(),
{
    if s1.len() > 0 {
        let p1 = s1.drop_last();
        let p2 = s2.drop_last();
        assert forall|i: int| 0 <= i < p1.len() implies #[trigger] p2[i].finite() && p1[i].subset_of(p2[i]) by {
            assert(p1[i] == s1[i] && p2[i] == s2[i]);
            assert(s2[i].finite());
        }
        lemma_total_len_grows(p1, p2);
        assert(s2[s2.len() - 1].finite());
        vstd::set_lib::lemma_len_subset(s1.last(), s2.last());
    }
}

/// A filter with one set of size `m` per hash function.
pub struct VariantBloomFilter {
    slices: Vec<RoaringTreemap>,
    k: u32,
    m: u64,
    n: u64,
    f: Rate,
}

impl VariantBloomFilter {
    /// The keys held in each slice, by hash index.
    pub closed spec fn slice_keys(&self) -> Seq<Set<u64>> {
        self.slices@.map_values(|t: RoaringTreemap| treemap_keys(t))
    }

    /// The number of hash functions, which is the number of slices.
    pub closed spec fn hash_count(&self) -> nat {
        self.k as nat
    }

    /// The size of each slice.
    pub closed spec fn slice_size(&self) -> nat {
        self.m as nat
    }

    /// The number of insertions so far.
    pub closed spec fn inserted(&self) -> nat {
        self.n as nat
    }

    /// The target false-positive rate.
    pub closed spec fn target(&self) -> Rate {
        self.f
    }

    pub closed spec fn wf(&self) -> bool {
        &&& self.k > 0
        &&& self.m > 0
        &&& self.f.parts > 0
        &&& self.slices@.len() == self.k
        &&& forall|i: int|
            0 <= i < self.k ==> {
                &&& (#[trigger] treemap_keys(self.slices@[i])).finite()
                &&& forall|x: u64| treemap_keys(self.slices@[i]).contains(x) ==> x < self.m
            }
    }

    /// For each seed `i`, slice `i` holds the key that seed gives `bytes`.
    pub open spec fn holds(&self, bytes: Seq<u8>) -> bool {
        forall|i: int|
            0 <= i < self.hash_count() ==> #[trigger] self.slice_keys()[i].contains(
                slot(bytes, i, self.slice_size() as int),
            )
    }

    /// `Π |slice_i| / m` in fixed point.
    pub open spec fn estimate(&self) -> int {
        slices_estimate(self.slice_keys(), self.slice_size() as int)
    }

    /// `true` when the estimate has reached the target rate.
    pub open spec fn saturated(&self) -> bool {
        self.estimate() >= self.target().parts
    }

    /// The number of keys over all slices, counted per slice.
    pub open spec fn bit_count(&self) -> int {
        total_len(self.slice_keys())
    }

    proof fn lemma_slices_bounded(&self)
        requires
            self.wf(),
        ensures
            self.slice_keys().len() == self.k,
            forall|i: int|
                0 <= i < self.k ==> #[trigger] self.slice_keys()[i].finite() && self.slice_keys()[i].len()
                    <= self.m,
    {
        assert forall|i: int| 0 <= i < self.k implies #[trigger] self.slice_keys()[i].finite()
            && self.slice_keys()[i].len() <= self.m by {
            assert(self.slice_keys()[i] == treemap_keys(self.slices@[i]));
            lemma_keys_below(treemap_keys(self.slices@[i]), self.m);
        }
    }

    /// The estimate of a well-formed filter lies in `[0, 1]`.
    pub proof fn lemma_estimate_in_range(&self)
        requires
            self.wf(),
        ensures
            0 <= self.estimate() <= scale(),
    {
        self.lemma_slices_bounded();
        lemma_slices_estimate_bounded(self.slice_keys(), self.m);
    }

    /// An empty filter with `k` slices of size `m`.
    pub fn from_scratch(k: u32, m: u64, f: Rate) -> (r: Result<VariantBloomFilter, BloomError>)
        ensures
            (k == 0 || m == 0 || f.parts == 0) <==> r is Err,
            r is Err ==> r == Err::<VariantBloomFilter, BloomError>(BloomError::InvalidParameter),
            r matches Ok(b) ==> {
                &&& b.wf()
                &&& b.slice_keys() == Seq::new(k as nat, |i: int| Set::<u64>::empty())
                &&& b.hash_count() == k
                &&& b.slice_size() == m
                &&& b.inserted() == 0
                &&& b.target() == f
            },
    {
        if k == 0 || m == 0 || f.parts == 0 {
            return Err(BloomError::InvalidParameter);
        }
        let mut slices: Vec<RoaringTreemap> = Vec::new();
        let mut i: u32 = 0;
        while i < k
            invariant
                i <= k,
                slices@.len() == i,
                forall|j: int| 0 <= j < i ==> treemap_keys(#[trigger] slices@[j]) == Set::<u64>::empty(),
            decreases k - i,
        {
            slices.push(RoaringTreemap::new());
            i = i + 1;
        }
        let b = VariantBloomFilter { slices, k, m, n: 0, f };
        assert(b.slice_keys() =~= Seq::new(k as nat, |i: int| Set::<u64>::empty()));
        Ok(b)
    }

    /// An empty filter sized for `capacity` values at rate `f`: `k` is the
    /// least hash count with `(1/2)^k <= f`, and each slice has the standard
    /// size `ceil(capacity * |ln f| / (k * (ln 2)^2))`.
    pub fn new(capacity: u64, f: Rate) -> (r: Result<VariantBloomFilter, BloomError>)
        ensures
            (capacity == 0 || !valid_rate(f)) <==> r == Err::<VariantBloomFilter, BloomError>(
                BloomError::InvalidParameter,
            ),
            r == Err::<VariantBloomFilter, BloomError>(BloomError::CapacityTooLarge) <==> (capacity > 0
                && valid_rate(f) && forall|k: nat|
                is_best_k(f, k) ==> best_m(capacity as int, k as int, f) > u64::MAX),
            r matches Ok(b) ==> {
                &&& b.wf()
                &&& b.slice_keys() == Seq::new(b.hash_count(), |i: int| Set::<u64>::empty())
                &&& b.inserted() == 0
                &&& b.target() == f
                &&& is_best_k(f, b.hash_count())
                &&& b.slice_size() == best_m(capacity as int, b.hash_count() as int, f)
            },
    {
        if capacity == 0 || f.parts == 0 || f.bits_per_value == 0 {
            return Err(BloomError::InvalidParameter);
        }
        let k = match calculate_best_k(f) {
            Ok(k) => k,
            Err(e) => return Err(e),
        };
        proof {
            assert forall|j: nat| is_best_k(f, j) implies j == k as nat by {
                if j < k {
                    assert(!crate::utils::covers(f, j));
                } else if j > k {
                    assert(!crate::utils::covers(f, k as nat));
                }
            }
        }
        let m = match calculate_best_m(capacity, k, f) {
            Ok(m) => m,
            Err(e) => {
                return Err(e);
            },
        };
        VariantBloomFilter::from_scratch(k, m, f)
    }

    /// Inserts `value`: for each seed `i`, sets in slice `i` the key that seed
    /// gives, and counts one insertion. Returns `true` if one of those keys was
    /// not set before.
    pub fn add<T: HashKey + ?Sized>(&mut self, value: &T) -> (r: bool)
        requires
            old(self).wf(),
            old(self).inserted() < u64::MAX,
        ensures
            final(self).wf(),
            final(self).slice_keys() == Seq::new(
                old(self).hash_count(),
                |i: int|
                    old(self).slice_keys()[i].insert(
                        slot(value.key_bytes(), i, old(self).slice_size() as int),
                    ),
            ),
            r == exists|i: int|
                0 <= i < old(self).hash_count() && !(#[trigger] old(self).slice_keys()[i]).contains(
                    slot(value.key_bytes(), i, old(self).slice_size() as int),
                ),
            final(self).inserted() == old(self).inserted() + 1,
            final(self).hash_count() == old(self).hash_count(),
            final(self).slice_size() == old(self).slice_size(),
            final(self).target() == old(self).target(),
            final(self).holds(value.key_bytes()),
            forall|b: Seq<u8>| old(self).holds(b) ==> final(self).holds(b),
            forall|j: int|
                0 <= j < old(self).hash_count() ==> old(self).slice_keys()[j].subset_of(
                    #[trigger] final(self).slice_keys()[j],
                ),
            final(self).bit_count() >= old(self).bit_count(),
    {
        let ghost old_keys = self.slice_keys();
        let ghost b = value.key_bytes();
        let ghost m = self.m as int;
        let ghost target = Seq::new(
            self.k as nat,
            |i: int| old_keys[i].insert(slot(b, i, m)),
        );
        self.n = self.n + 1;
        let mut any = false;
        let mut i: u32 = 0;
        while i < self.k
            invariant
                self.k == old(self).k,
                self.m == old(self).m,
                self.f == old(self).f,
                self.n == old(self).n + 1,
                self.wf(),
                m == self.m,
                b == value.key_bytes(),
                old_keys == old(self).slice_keys(),
                old_keys.len() == self.k,
                target == Seq::new(self.k as nat, |i: int| old_keys[i].insert(slot(b, i, m))),
                i <= self.k,
                self.slice_keys().len() == self.k,
                forall|j: int| 0 <= j < i ==> #[trigger] self.slice_keys()[j] == target[j],
                forall|j: int| i <= j < self.k ==> #[trigger] self.slice_keys()[j] == old_keys[j],
                any == exists|j: int| 0 <= j < i && !(#[trigger] old_keys[j]).contains(slot(b, j, m)),
            decreases self.k - i,
        {
            let key = get_hash(value, i) % self.m;
            assert(key == slot(b, i as int, m));
            let ghost before = self.slices@;
            let ghost before_keys = self.slice_keys();
            assert(before_keys[i as int] == old_keys[i as int]);
            assert(before_keys[i as int] == treemap_keys(before[i as int]));
            let fresh = self.slices[i as usize].insert(key);
            proof {
                assert(self.slices@ == before.update(i as int, self.slices@[i as int]));
                assert forall|j: int| 0 <= j < self.k implies (#[trigger] treemap_keys(self.slices@[j])).finite()
                    && forall|x: u64| treemap_keys(self.slices@[j]).contains(x) ==> x < self.m by {
                    if j != i {
                        assert(self.slices@[j] == before[j]);
                    }
                }
                assert forall|j: int| 0 <= j < i + 1 implies #[trigger] self.slice_keys()[j] == target[j] by {
                    assert(self.slice_keys()[j] == treemap_keys(self.slices@[j]));
                    if j != i {
                        assert(self.slices@[j] == before[j]);
                        assert(before_keys[j] == treemap_keys(before[j]));
                        assert(before_keys[j] == target[j]);
                    } else {
                        assert(target[j] == old_keys[j].insert(slot(b, j, m)));
                    }
                }
                assert forall|j: int| i + 1 <= j < self.k implies #[trigger] self.slice_keys()[j] == old_keys[j] by {
                    assert(self.slice_keys()[j] == treemap_keys(self.slices@[j]));
                    assert(self.slices@[j] == before[j]);
                    assert(before_keys[j] == treemap_keys(before[j]));
                    assert(before_keys[j] == old_keys[j]);
                }
                if fresh {
                    assert(!old_keys[i as int].contains(slot(b, i as int, m)));
                }
                if !fresh && any {
                    let j = choose|j: int| 0 <= j < i && !(#[trigger] old_keys[j]).contains(slot(b, j, m));
                    assert(0 <= j < i + 1);
                }
            }
            any = any || fresh;
            i = i + 1;
        }
        proof {
            assert(self.slice_keys() =~= target);
            assert forall|x: Seq<u8>| old(self).holds(x) implies self.holds(x) by {
                assert forall|j: int| 0 <= j < self.k implies #[trigger] self.slice_keys()[j].contains(slot(x, j, m)) by {
                    assert(old(self).slice_keys()[j].contains(slot(x, j, old(self).slice_size() as int)));
                    assert(self.slice_keys()[j] == target[j]);
                }
            }
            assert(self.holds(b)) by {
                assert forall|j: int| 0 <= j < self.k implies #[trigger] self.slice_keys()[j].contains(slot(b, j, m)) by {
                    assert(target[j] == old_keys[j].insert(slot(b, j, m)));
                    assert(self.slice_keys()[j] == target[j]);
                }
            }
            self.lemma_slices_bounded();
            lemma_total_len_grows(old_keys, self.slice_keys());
        }
        any
    }

    /// `true` exactly when, for each seed `i`, slice `i` holds the key that
    /// seed gives `value`.
    pub fn contains<T: HashKey + ?Sized>(&self, value: &T) -> (r: bool)
        requires
            self.wf(),
        ensures
            r == self.holds(value.key_bytes()),
    {
        let ghost b = value.key_bytes();
        let mut i: u32 = 0;
        while i < self.k
            invariant
                self.wf(),
                i <= self.k,
                b == value.key_bytes(),
                forall|j: int| 0 <= j < i ==> #[trigger] self.slice_keys()[j].contains(slot(b, j, self.m as int)),
            decreases self.k - i,
        {
            let key = get_hash(value, i) % self.m;
            assert(key == slot(b, i as int, self.m as int));
            assert(self.slice_keys()[i as int] == treemap_keys(self.slices@[i as int]));
            if !self.slices[i as usize].contains(key) {
                assert(!self.slice_keys()[i as int].contains(slot(b, i as int, self.slice_size() as int)));
                return false;
            }
            i = i + 1;
        }
        true
    }

    /// The target false-positive rate.
    pub fn target_false_positive_rate(&self) -> (r: Rate)
        ensures
            r == self.target(),
    {
        self.f
    }

    /// `Π |slice_i| / m` in fixed point: `r / 2^64` is the chance that every
    /// slice holds a random key.
    pub fn current_false_positive_rate(&self) -> (r: u128)
        requires
            self.wf(),
        ensures
            r == self.estimate(),
            r <= scale(),
    {
        proof {
            self.lemma_slices_bounded();
        }
        let mut acc: u128 = SCALE;
        let mut i: usize = 0;
        while i < self.slices.len()
            invariant
                self.wf(),
                i <= self.k,
                self.slice_keys().len() == self.k,
                forall|j: int|
                    0 <= j < self.k ==> #[trigger] self.slice_keys()[j].finite() && self.slice_keys()[j].len()
                        <= self.m,
                acc == slices_estimate(self.slice_keys().take(i as int), self.m as int),
                acc <= scale(),
            decreases self.k - i,
        {
            let ghost s = self.slice_keys().take(i as int + 1);
            assert(s.drop_last() =~= self.slice_keys().take(i as int));
            assert(self.slice_keys()[i as int] == treemap_keys(self.slices@[i as int]));
            let len = self.slices[i].len();
            proof {
                assert(acc * len <= scale() * self.m) by (nonlinear_arith)
                    requires acc <= scale(), len <= self.m;
                assert(scale() * self.m < 0x1_0000_0000_0000_0000_0000_0000_0000_0000) by (nonlinear_arith)
                    requires self.m < scale(), scale() == 0x1_0000_0000_0000_0000;
                assert forall|j: int| 0 <= j < s.len() implies #[trigger] s[j].finite() && s[j].len() <= self.m by {
                    assert(s[j] == self.slice_keys()[j]);
                }
                lemma_slices_estimate_bounded(s, self.m);
            }
            acc = acc * (len as u128) / (self.m as u128);
            i = i + 1;
        }
        assert(self.slice_keys().take(self.k as int) =~= self.slice_keys());
        acc
    }

    /// `true` when no slice holds a key.
    pub fn is_empty(&self) -> (r: bool)
        requires
            self.wf(),
        ensures
            r == forall|i: int| 0 <= i < self.hash_count() ==> #[trigger] self.slice_keys()[i] == Set::<u64>::empty(),
    {
        let mut i: usize = 0;
        while i < self.slices.len()
            invariant
                self.wf(),
                i <= self.k,
                forall|j: int| 0 <= j < i ==> #[trigger] self.slice_keys()[j] == Set::<u64>::empty(),
            decreases self.k - i,
        {
            assert(self.slice_keys()[i as int] == treemap_keys(self.slices@[i as int]));
            if !self.slices[i].is_empty() {
                return false;
            }
            i = i + 1;
        }
        true
    }

    /// `true` when the estimate has reached the target rate.
    pub fn is_full(&self) -> (r: bool)
        requires
            self.wf(),
        ensures
            r == self.saturated(),
    {
        self.current_false_positive_rate() >= self.f.parts as u128
    }

    /// The number of slices, one per hash function.
    pub fn num_slices(&self) -> (r: u32)
        ensures
            r == self.hash_count(),
    {
        self.k
    }

    /// The number of insertions so far.
    pub fn size(&self) -> (r: u64)
        ensures
            r == self.inserted(),
    {
        self.n
    }

    /// The number of keys over all slices, counted per slice.
    pub fn len(&self) -> (r: u64)
        requires
            self.wf(),
            self.bit_count() <= u64::MAX,
        ensures
            r == self.bit_count(),
    {
        proof {
            self.lemma_slices_bounded();
        }
        let mut sum: u64 = 0;
        let mut i: usize = 0;
        while i < self.slices.len()
            invariant
                self.wf(),
                i <= self.k,
                self.slice_keys().len() == self.k,
                forall|j: int|
                    0 <= j < self.k ==> #[trigger] self.slice_keys()[j].finite() && self.slice_keys()[j].len()
                        <= self.m,
                sum == total_len(self.slice_keys().take(i as int)),
                total_len(self.slice_keys()) <= u64::MAX,
            decreases self.k - i,
        {
            let ghost s = self.slice_keys().take(i as int + 1);
            assert(s.drop_last() =~= self.slice_keys().take(i as int));
            assert(self.slice_keys()[i as int] == treemap_keys(self.slices@[i as int]));
            proof {
                lemma_total_len_prefix(self.slice_keys(), i as int + 1);
            }
            let len = self.slices[i].len();
            sum = sum + len;
            i = i + 1;
        }
        assert(self.slice_keys().take(self.k as int) =~= self.slice_keys());
        sum
    }
}

/// A total of set sizes is never negative.
pub proof fn lemma_total_len_nonneg(s: Seq<Set<u64>>)
    ensures
        total_len(s) >= 0,
    decreases s.len(),
{
    if s.len() > 0 {
        lemma_total_len_nonneg(s.drop_last());
    }
}

/// A prefix's total is at most the whole total.
proof fn lemma_total_len_prefix(s: Seq<Set<u64>>, n: int)
    requires
        0 <= n <= s.len(),
    ensures
        total_len(s.take(n)) <= total_len(s),
    decreases s.len(),
{
    if n < s.len() {
        assert(s.drop_last().take(n) =~= s.take(n));
        lemma_total_len_prefix(s.drop_last(), n);
    } else {
        assert(s.take(n) =~= s);
    }
}

/// No false negatives for the filter's lifetime: if a value is found in one
/// state, it is found in every later state reached by inserts, since an insert
/// only adds keys to each slice. `add` ensures that the value it inserted is
/// found right after.
pub proof fn law_no_false_negative(states: Seq<VariantBloomFilter>, bytes: Seq<u8>)
    requires
        states.len() >= 1,
        states[0].holds(bytes),
        forall|i: int|
            0 <= i < states.len() - 1 ==> {
                &&& (#[trigger] states[i + 1]).hash_count() == states[i].hash_count()
                &&& states[i + 1].slice_size() == states[i].slice_size()
                &&& forall|j: int|
                    0 <= j < states[i].hash_count() ==> states[i].slice_keys()[j].subset_of(
                        states[i + 1].slice_keys()[j],
                    )
            },
    ensures
        forall|i: int| 0 <= i < states.len() ==> (#[trigger] states[i]).holds(bytes),
    decreases states.len(),
{
    if states.len() > 1 {
        let p = states.drop_last();
        assert forall|i: int| 0 <= i < p.len() - 1 implies {
            &&& (#[trigger] p[i + 1]).hash_count() == p[i].hash_count()
            &&& p[i + 1].slice_size() == p[i].slice_size()
            &&& forall|j: int| 0 <= j < p[i].hash_count() ==> p[i].slice_keys()[j].subset_of(p[i + 1].slice_keys()[j])
        } by {
            assert(p[i + 1] == states[i + 1] && p[i] == states[i]);
        }
        law_no_false_negative(p, bytes);
        let n = states.len() - 1;
        let i = n - 1;
        let a = states[i];
        let b = states[i + 1];
        assert(p[n - 1] == a);
        assert(a.holds(bytes));
        assert(b.hash_count() == a.hash_count() && b.slice_size() == a.slice_size());
        assert forall|j: int| 0 <= j < b.hash_count() implies #[trigger] b.slice_keys()[j].contains(
            slot(bytes, j, b.slice_size() as int),
        ) by {
            assert(a.slice_keys()[j].contains(slot(bytes, j, a.slice_size() as int)));
            assert(a.slice_keys()[j].subset_of(b.slice_keys()[j]));
        }
        assert(b.holds(bytes));
        assert forall|j: int| 0 <= j < states.len() implies (#[trigger] states[j]).holds(bytes) by {
            if j < n {
                assert(p[j] == states[j]);
            }
        }
    }
}

} // verus!
