//! The growing filter: a sequence of sliced filters, each new one with more
//! hash functions and a tighter target rate.
use vstd::prelude::*;

use crate::hashing::HashKey;
use crate::utils::{best_m, calculate_best_k, calculate_best_m, is_best_k, scale, valid_rate, BloomError, Rate, SCALE};
use crate::hashing::slot;
use crate::variant_bloom_filter::{lemma_total_len_nonneg, VariantBloomFilter};

verus! {

/// 9/10 rounded down to fixed point: `floor(0.9 * 2^64)`.
pub const DECAY_PARTS: u64 = 16602069666338596454;

/// `|ln 0.9| / (ln 2)^2 = 0.21929...`, in units of `2^-32`, rounded up.
pub const DECAY_BITS: u64 = 941861027;

/// The decay that `ScalableBloomFilter::new` uses: 9/10.
pub open spec fn decay_nine_tenths() -> Rate {
    Rate { parts: DECAY_PARTS, bits_per_value: DECAY_BITS }
}

/// `k0 * s^i`.
pub open spec fn geometric(k0: int, s: int, i: nat) -> int
    decreases i,
{
    if i == 0 {
        k0
    } else {
        geometric(k0, s, (i - 1) as nat) * s
    }
}

/// `f * r^i` in fixed point, one floor-rounded factor at a time.
pub open spec fn rate_at(f: int, r: int, i: nat) -> int
    decreases i,
{
    if i == 0 {
        f
    } else {
        rate_at(f, r, (i - 1) as nat) * r / scale()
    }
}

/// `Π (1 - e_i)` in fixed point over the generations' estimates `e_i`.
pub open spec fn all_clear(gs: Seq<VariantBloomFilter>) -> int
    decreases gs.len(),
{
    if gs.len() == 0 {
        scale()
    } else {
        all_clear(gs.drop_last()) * (scale() - gs.last().estimate()) / scale()
    }
}

/// `Σ inserted()` over the generations.
pub open spec fn total_inserted(gs: Seq<VariantBloomFilter>) -> int
    decreases gs.len(),
{
    if gs.len() == 0 {
        0
    } else {
        total_inserted(gs.drop_last()) + gs.last().inserted()
    }
}

/// `Σ bit_count()` over the generations.
pub open spec fn total_bits(gs: Seq<VariantBloomFilter>) -> int
    decreases gs.len(),
{
    if gs.len() == 0 {
        0
    } else {
        total_bits(gs.drop_last()) + gs.last().bit_count()
    }
}

proof fn lemma_geometric_grows(k0: int, s: int, i: nat, j: nat)
    requires
        k0 >= 1,
        s >= 1,
        i <= j,
    ensures
        1 <= geometric(k0, s, i) <= geometric(k0, s, j),
    decreases j,
{
    if j > 0 {
        if i < j {
            lemma_geometric_grows(k0, s, i, (j - 1) as nat);
        }
        lemma_geometric_grows(k0, s, (j - 1) as nat, (j - 1) as nat);
        let g = geometric(k0, s, (j - 1) as nat);
        assert(g * s >= g) by (nonlinear_arith)
            requires g >= 1, s >= 1;
    }
}

proof fn lemma_rate_bounded(f: int, r: int, i: nat)
    requires
        0 <= f < scale(),
        0 <= r < scale(),
    ensures
        0 <= rate_at(f, r, i) <= f,
    decreases i,
{
    if i > 0 {
        lemma_rate_bounded(f, r, (i - 1) as nat);
        let a = rate_at(f, r, (i - 1) as nat);
        assert(0 <= a * r <= a * scale()) by (nonlinear_arith)
            requires 0 <= a, 0 <= r < scale();
        vstd::arithmetic::div_mod::lemma_div_is_ordered(a * r, a * scale(), scale());
        vstd::arithmetic::div_mod::lemma_div_pos_is_pos(a * r, scale());
        vstd::arithmetic::div_mod::lemma_div_by_multiple(a, scale());
    }
}

proof fn lemma_total_inserted_update(gs: Seq<VariantBloomFilter>, i: int, g: VariantBloomFilter)
    requires
        0 <= i < gs.len(),
    ensures
        total_inserted(gs.update(i, g)) == total_inserted(gs) - gs[i].inserted() + g.inserted(),
        total_inserted(gs) >= gs[i].inserted(),
    decreases gs.len(),
{
    let u = gs.update(i, g);
    if i < gs.len() - 1 {
        assert(u.drop_last() =~= gs.drop_last().update(i, g));
        lemma_total_inserted_update(gs.drop_last(), i, g);
    } else {
        assert(u.drop_last() =~= gs.drop_last());
    }
    lemma_total_inserted_nonneg(gs.drop_last());
}

proof fn lemma_total_inserted_nonneg(gs: Seq<VariantBloomFilter>)
    ensures
        total_inserted(gs) >= 0,
    decreases gs.len(),
{
    if gs.len() > 0 {
        lemma_total_inserted_nonneg(gs.drop_last());
    }
}

proof fn lemma_total_bits_update(gs: Seq<VariantBloomFilter>, i: int, g: VariantBloomFilter)
    requires
        0 <= i < gs.len(),
    ensures
        total_bits(gs.update(i, g)) == total_bits(gs) - gs[i].bit_count() + g.bit_count(),
    decreases gs.len(),
{
    let u = gs.update(i, g);
    if i < gs.len() - 1 {
        assert(u.drop_last() =~= gs.drop_last().update(i, g));
        lemma_total_bits_update(gs.drop_last(), i, g);
    } else {
        assert(u.drop_last() =~= gs.drop_last());
    }
}

proof fn lemma_total_inserted_prefix(gs: Seq<VariantBloomFilter>, n: int)
    requires
        0 <= n <= gs.len(),
    ensures
        total_inserted(gs.take(n)) <= total_inserted(gs),
    decreases gs.len(),
{
    if n < gs.len() {
        assert(gs.drop_last().take(n) =~= gs.take(n));
        lemma_total_inserted_prefix(gs.drop_last(), n);
    } else {
        assert(gs.take(n) =~= gs);
    }
}

proof fn lemma_total_bits_prefix(gs: Seq<VariantBloomFilter>, n: int)
    requires
        0 <= n <= gs.len(),
    ensures
        total_bits(gs.take(n)) <= total_bits(gs),
        total_bits(gs.take(n)) >= 0,
    decreases gs.len(),
{
    if n < gs.len() {
        assert(gs.drop_last().take(n) =~= gs.take(n));
        lemma_total_bits_prefix(gs.drop_last(), n);
        lemma_total_len_nonneg(gs.last().slice_keys());
    } else {
        assert(gs.take(n) =~= gs);
        if n > 0 {
            lemma_total_bits_prefix(gs.drop_last(), n - 1);
            assert(gs.drop_last().take(n - 1) =~= gs.drop_last());
            lemma_total_len_nonneg(gs.last().slice_keys());
        }
    }
}

/// The compound estimate is at least the estimate of every generation: a
/// lookup succeeds when any generation says yes.
pub proof fn lemma_all_clear_bound(gs: Seq<VariantBloomFilter>, j: int)
    requires
        0 <= j < gs.len(),
        forall|i: int| 0 <= i < gs.len() ==> 0 <= #[trigger] gs[i].estimate() <= scale(),
    ensures
        0 <= all_clear(gs) <= scale() - gs[j].estimate(),
    decreases gs.len(),
{
    let p = gs.drop_last();
    let e = gs[gs.len() - 1].estimate();
    assert(0 <= e <= scale());
    assert(forall|i: int| 0 <= i < p.len() ==> p[i] == gs[i]);
    let a = all_clear(p);
    if j < gs.len() - 1 {
        lemma_all_clear_bound(p, j);
        assert(p[j] == gs[j]);
    } else if p.len() > 0 {
        lemma_all_clear_bound(p, 0);
    }
    assert(0 <= a <= scale());
    let d = scale() - e;
    assert(0 <= a * d <= scale() * d) by (nonlinear_arith)
        requires 0 <= a <= scale(), 0 <= d;
    assert(0 <= a * d <= a * scale()) by (nonlinear_arith)
        requires 0 <= a, 0 <= d <= scale();
    vstd::arithmetic::div_mod::lemma_div_is_ordered(a * d, scale() * d, scale());
    vstd::arithmetic::div_mod::lemma_div_is_ordered(a * d, a * scale(), scale());
    vstd::arithmetic::div_mod::lemma_div_by_multiple(d, scale());
    vstd::arithmetic::div_mod::lemma_div_by_multiple(a, scale());
    vstd::arithmetic::div_mod::lemma_div_pos_is_pos(a * d, scale());
    assert(scale() * d == d * scale()) by (nonlinear_arith);
}

/// A filter that never saturates: when its newest generation is full, it
/// opens a larger one, and looks values up in all of them.
pub struct ScalableBloomFilter {
    vbfs: Vec<VariantBloomFilter>,
    k0: u32,
    m: u64,
    s: u8,
    r: Rate,
    f: Rate,
}

impl ScalableBloomFilter {
    /// The generations, oldest first.
    pub closed spec fn generations(&self) -> Seq<VariantBloomFilter> {
        self.vbfs@
    }

    /// The hash count of the first generation.
    pub closed spec fn first_hash_count(&self) -> nat {
        self.k0 as nat
    }

    /// The slice size shared by all generations.
    pub closed spec fn slice_size(&self) -> nat {
        self.m as nat
    }

    /// The factor by which each generation's hash count grows.
    pub closed spec fn growth(&self) -> nat {
        self.s as nat
    }

    /// The factor by which each generation's target rate shrinks.
    pub closed spec fn decay(&self) -> Rate {
        self.r
    }

    /// The overall target rate, which is also the first generation's.
    pub closed spec fn target(&self) -> Rate {
        self.f
    }

    pub closed spec fn wf(&self) -> bool {
        &&& self.k0 > 0
        &&& self.m > 0
        &&& self.s > 0
        &&& self.r.parts > 0
        &&& self.f.parts > 0
        &&& self.vbfs@.len() >= 1
        &&& forall|i: int| 0 <= i < self.vbfs@.len() ==> self.is_generation(i, #[trigger] self.vbfs@[i])
        &&& total_inserted(self.vbfs@) <= u64::MAX
    }

    /// `g` is a well-formed generation number `i` of this filter: `k0 * s^i`
    /// slices of the shared size `m`, and target `f * r^i`, whose two forms are
    /// `rate_at(f, r, i)` and `f.bits_per_value + i * r.bits_per_value`.
    pub open spec fn is_generation(&self, i: int, g: VariantBloomFilter) -> bool {
        &&& g.wf()
        &&& g.hash_count() == geometric(self.first_hash_count() as int, self.growth() as int, i as nat)
        &&& g.slice_size() == self.slice_size()
        &&& g.target().parts == rate_at(self.target().parts as int, self.decay().parts as int, i as nat)
        &&& g.target().bits_per_value == self.target().bits_per_value + i * self.decay().bits_per_value
    }

    /// Every generation of a well-formed filter has the parameters that its
    /// position gives it.
    pub proof fn lemma_generations(&self)
        requires
            self.wf(),
        ensures
            self.generations().len() >= 1,
            forall|i: int|
                0 <= i < self.generations().len() ==> self.is_generation(i, #[trigger] self.generations()[i]),
    {
    }

    /// The next generation can be built: its hash count fits in `u32`, its
    /// target rate is not rounded down to zero, and its bits per value fit in `u64`.
    pub open spec fn can_extend(&self) -> bool {
        let i = self.generations().len();
        &&& geometric(self.first_hash_count() as int, self.growth() as int, i) <= u32::MAX
        &&& rate_at(self.target().parts as int, self.decay().parts as int, i) > 0
        &&& self.target().bits_per_value + i * self.decay().bits_per_value <= u64::MAX
    }

    /// Some generation holds every key that `bytes` probes in it.
    pub open spec fn holds(&self, bytes: Seq<u8>) -> bool {
        exists|i: int| 0 <= i < self.generations().len() && (#[trigger] self.generations()[i]).holds(bytes)
    }

    /// `1 - Π (1 - e_i)` in fixed point over the generations' estimates.
    pub open spec fn estimate(&self) -> int {
        scale() - all_clear(self.generations())
    }

    /// The number of insertions over all generations.
    pub open spec fn inserted(&self) -> int {
        total_inserted(self.generations())
    }

    /// The number of keys over all generations and slices.
    pub open spec fn bit_count(&self) -> int {
        total_bits(self.generations())
    }

    /// An empty filter whose first generation has `k0` slices of size `m`
    /// and target `f`; generation `i` gets `k0 * s^i` slices and target `f * r^i`.
    pub fn from_scratch(k0: u32, m: u64, s: u8, r: Rate, f: Rate) -> (res: Result<ScalableBloomFilter, BloomError>)
        ensures
            (k0 == 0 || m == 0 || s == 0 || r.parts == 0 || f.parts == 0) <==> res is Err,
            res is Err ==> res == Err::<ScalableBloomFilter, BloomError>(BloomError::InvalidParameter),
            res matches Ok(b) ==> {
                &&& b.wf()
                &&& b.generations().len() == 1
                &&& b.is_generation(0, b.generations()[0])
                &&& b.generations()[0].slice_keys() == Seq::new(k0 as nat, |i: int| Set::<u64>::empty())
                &&& b.generations()[0].hash_count() == k0
                &&& b.generations()[0].slice_size() == m
                &&& b.generations()[0].target() == f
                &&& b.generations()[0].inserted() == 0
                &&& b.inserted() == 0
                &&& b.first_hash_count() == k0
                &&& b.slice_size() == m
                &&& b.growth() == s
                &&& b.decay() == r
                &&& b.target() == f
            },
    {
        if k0 == 0 || m == 0 || s == 0 || r.parts == 0 || f.parts == 0 {
            return Err(BloomError::InvalidParameter);
        }
        let first = match VariantBloomFilter::from_scratch(k0, m, f) {
            Ok(g) => g,
            Err(e) => return Err(e),
        };
        let mut vbfs: Vec<VariantBloomFilter> = Vec::new();
        vbfs.push(first);
        let b = ScalableBloomFilter { vbfs, k0, m, s, r, f };
        proof {
            assert(b.vbfs@[0] == first);
            assert(b.vbfs@.drop_last() =~= Seq::<VariantBloomFilter>::empty());
            reveal_with_fuel(total_inserted, 2);
            assert(total_inserted(b.vbfs@) == 0);
        }
        Ok(b)
    }

    /// An empty filter whose first generation is sized for `capacity` values
    /// at rate `f` as a sliced filter is, with growth 4 and decay 9/10.
    pub fn new(capacity: u64, f: Rate) -> (res: Result<ScalableBloomFilter, BloomError>)
        ensures
            (capacity == 0 || !valid_rate(f)) <==> res == Err::<ScalableBloomFilter, BloomError>(
                BloomError::InvalidParameter,
            ),
            res == Err::<ScalableBloomFilter, BloomError>(BloomError::CapacityTooLarge) <==> (capacity > 0
                && valid_rate(f) && forall|k: nat|
                is_best_k(f, k) ==> best_m(capacity as int, k as int, f) > u64::MAX),
            res matches Ok(b) ==> {
                &&& b.wf()
                &&& b.generations().len() == 1
                &&& b.is_generation(0, b.generations()[0])
                &&& b.generations()[0].slice_keys() == Seq::new(
                    b.first_hash_count(),
                    |i: int| Set::<u64>::empty(),
                )
                &&& b.generations()[0].hash_count() == b.first_hash_count()
                &&& b.generations()[0].slice_size() == b.slice_size()
                &&& b.generations()[0].target() == f
                &&& b.generations()[0].inserted() == 0
                &&& b.inserted() == 0
                &&& b.target() == f
                &&& b.growth() == 4
                &&& b.decay() == decay_nine_tenths()
                &&& is_best_k(f, b.first_hash_count())
                &&& b.slice_size() == best_m(capacity as int, b.first_hash_count() as int, f)
            },
    {
        if capacity == 0 || f.parts == 0 || f.bits_per_value == 0 {
            return Err(BloomError::InvalidParameter);
        }
        let k0 = match calculate_best_k(f) {
            Ok(k) => k,
            Err(e) => return Err(e),
        };
        proof {
            assert forall|j: nat| is_best_k(f, j) implies j == k0 as nat by {
                if j < k0 {
                    assert(!crate::utils::covers(f, j));
                } else if j > k0 {
                    assert(!crate::utils::covers(f, k0 as nat));
                }
            }
        }
        let m = match calculate_best_m(capacity, k0, f) {
            Ok(m) => m,
            Err(e) => {
                return Err(e);
            },
        };
        ScalableBloomFilter::from_scratch(k0, m, 4, Rate { parts: DECAY_PARTS, bits_per_value: DECAY_BITS }, f)
    }

    /// Opens a new generation with `k0 * s^i` slices and target `f * r^i`,
    /// where `i` is the number of generations so far.
    fn extend(&mut self)
        requires
            old(self).wf(),
            old(self).can_extend(),
        ensures
            final(self).wf(),
            final(self).generations() == old(self).generations().push(final(self).generations().last()),
            final(self).generations().last().slice_keys() == Seq::new(
                final(self).generations().last().hash_count(),
                |i: int| Set::<u64>::empty(),
            ),
            final(self).generations().last().inserted() == 0,
            final(self).first_hash_count() == old(self).first_hash_count(),
            final(self).slice_size() == old(self).slice_size(),
            final(self).growth() == old(self).growth(),
            final(self).decay() == old(self).decay(),
            final(self).target() == old(self).target(),
    {
        let n = self.vbfs.len();
        let ghost gi = n as nat;
        let mut ki: u32 = self.k0;
        let mut fi: u64 = self.f.parts;
        let mut j: usize = 0;
        proof {
            lemma_geometric_grows(self.k0 as int, self.s as int, 0, gi);
        }
        while j < n
            invariant
                self.wf(),
                n == self.vbfs@.len(),
                gi == n,
                j <= n,
                geometric(self.k0 as int, self.s as int, gi) <= u32::MAX,
                ki == geometric(self.k0 as int, self.s as int, j as nat),
                fi == rate_at(self.f.parts as int, self.r.parts as int, j as nat),
            decreases n - j,
        {
            proof {
                lemma_geometric_grows(self.k0 as int, self.s as int, (j + 1) as nat, gi);
                lemma_rate_bounded(self.f.parts as int, self.r.parts as int, j as nat);
                assert((fi as int) * (self.r.parts as int) < scale() * scale()) by (nonlinear_arith)
                    requires fi < scale(), self.r.parts < scale();
            }
            ki = ki * (self.s as u32);
            fi = ((fi as u128) * (self.r.parts as u128) / SCALE) as u64;
            j = j + 1;
        }
        proof {
            assert(0 <= (n as int) * (self.r.bits_per_value as int)) by (nonlinear_arith)
                requires n >= 0, self.r.bits_per_value >= 0;
        }
        let bi: u64 = ((self.f.bits_per_value as u128) + (n as u128) * (self.r.bits_per_value as u128)) as u64;
        let next = match VariantBloomFilter::from_scratch(ki, self.m, Rate { parts: fi, bits_per_value: bi }) {
            Ok(g) => g,
            Err(e) => {
                proof {
                    lemma_geometric_grows(self.k0 as int, self.s as int, 0, gi);
                }
                return;
            },
        };
        let ghost before = self.vbfs@;
        self.vbfs.push(next);
        proof {
            assert(self.vbfs@.drop_last() =~= before);
            assert(self.vbfs@.last() == next);
            assert forall|i: int| 0 <= i < self.vbfs@.len() implies self.is_generation(i, #[trigger] self.vbfs@[i]) by {
                if i < before.len() {
                    assert(self.vbfs@[i] == before[i]);
                }
            }
        }
    }

    /// `true` when the next generation can be built (see `can_extend`).
    pub fn next_generation_fits(&self) -> (r: bool)
        requires
            self.wf(),
        ensures
            r == self.can_extend(),
    {
        let n = self.vbfs.len();
        let ghost gi = n as nat;
        let mut ki: u64 = self.k0 as u64;
        let mut fi: u64 = self.f.parts;
        let mut j: usize = 0;
        proof {
            lemma_geometric_grows(self.k0 as int, self.s as int, 0, 0);
        }
        while j < n
            invariant
                self.wf(),
                n == self.vbfs@.len(),
                gi == n,
                j <= n,
                ki == geometric(self.k0 as int, self.s as int, j as nat),
                ki <= u32::MAX,
                fi == rate_at(self.f.parts as int, self.r.parts as int, j as nat),
            decreases n - j,
        {
            proof {
                lemma_geometric_grows(self.k0 as int, self.s as int, j as nat, (j + 1) as nat);
                lemma_geometric_grows(self.k0 as int, self.s as int, (j + 1) as nat, gi);
                lemma_rate_bounded(self.f.parts as int, self.r.parts as int, j as nat);
                assert((fi as int) * (self.r.parts as int) < scale() * scale()) by (nonlinear_arith)
                    requires fi < scale(), self.r.parts < scale();
                assert((ki as int) * (self.s as int) <= u32::MAX * 255) by (nonlinear_arith)
                    requires ki <= u32::MAX, self.s <= 255;
            }
            let next: u64 = ki * (self.s as u64);
            if next > u32::MAX as u64 {
                proof {
                    lemma_geometric_grows(self.k0 as int, self.s as int, (j + 1) as nat, gi);
                }
                return false;
            }
            ki = next;
            fi = ((fi as u128) * (self.r.parts as u128) / SCALE) as u64;
            j = j + 1;
        }
        proof {
            assert((n as int) * (self.r.bits_per_value as int) <= (u64::MAX as int) * (u64::MAX as int)) by (nonlinear_arith)
                requires n <= u64::MAX, self.r.bits_per_value <= u64::MAX;
        }
        let bits: u128 = (self.f.bits_per_value as u128) + (n as u128) * (self.r.bits_per_value as u128);
        fi > 0 && bits <= u64::MAX as u128
    }

    /// Inserts `value` into the newest generation, first opening a new one
    /// if the newest is full. Returns `true` if one of the keys set was not
    /// set before.
    pub fn add<T: HashKey + ?Sized>(&mut self, value: &T) -> (r: bool)
        requires
            old(self).wf(),
            old(self).generations().last().saturated() ==> old(self).can_extend(),
            old(self).inserted() < u64::MAX,
        ensures
            final(self).wf(),
            final(self).generations().len() == old(self).generations().len() + if old(
                self,
            ).generations().last().saturated() {
                1int
            } else {
                0int
            },
            old(self).generations().last().saturated() ==> {
                &&& final(self).is_generation(
                    old(self).generations().len() as int,
                    final(self).generations().last(),
                )
                &&& final(self).generations().last().slice_size() == old(self).slice_size()
                &&& final(self).generations().last().target().parts == rate_at(
                    old(self).target().parts as int,
                    old(self).decay().parts as int,
                    old(self).generations().len(),
                )
                &&& final(self).generations().last().hash_count() == old(self).generations().last().hash_count()
                    * old(self).growth()
                &&& final(self).generations().last().target().parts == old(
                    self,
                ).generations().last().target().parts * old(self).decay().parts / scale()
                &&& final(self).generations().last().inserted() == 1
                &&& r
            },
            !old(self).generations().last().saturated() ==> r == exists|i: int|
                0 <= i < old(self).generations().last().hash_count() && !(#[trigger] old(
                    self,
                ).generations().last().slice_keys()[i]).contains(
                    slot(value.key_bytes(), i, old(self).slice_size() as int),
                ),
            forall|i: int|
                0 <= i < final(self).generations().len() - 1 ==> #[trigger] final(self).generations()[i]
                    == old(self).generations()[i],
            final(self).generations().last().slice_keys() == Seq::new(
                final(self).generations().last().hash_count(),
                |i: int|
                    if old(self).generations().last().saturated() {
                        Set::<u64>::empty()
                    } else {
                        old(self).generations().last().slice_keys()[i]
                    }.insert(slot(value.key_bytes(), i, old(self).slice_size() as int)),
            ),
            !old(self).generations().last().saturated() ==> final(self).generations().last().inserted()
                == old(self).generations().last().inserted() + 1,
            final(self).holds(value.key_bytes()),
            forall|b: Seq<u8>| old(self).holds(b) ==> final(self).holds(b),
            final(self).inserted() == old(self).inserted() + 1,
            final(self).bit_count() >= old(self).bit_count(),
            final(self).first_hash_count() == old(self).first_hash_count(),
            final(self).slice_size() == old(self).slice_size(),
            final(self).growth() == old(self).growth(),
            final(self).decay() == old(self).decay(),
            final(self).target() == old(self).target(),
    {
        let ghost old_gens = self.vbfs@;
        let last = self.vbfs.len() - 1;
        assert(self.vbfs@[last as int].wf());
        let full = self.vbfs[last].is_full();
        if full {
            self.extend();
            proof {
                let g = self.vbfs@.last();
                assert(self.vbfs@.drop_last() =~= old_gens);
                assert(self.vbfs@[last as int + 1] == g);
                lemma_total_len_nonneg(g.slice_keys());
                assert(geometric(self.k0 as int, self.s as int, (last + 1) as nat) == geometric(self.k0 as int, self.s as int, last as nat) * self.s);
                assert(rate_at(self.f.parts as int, self.r.parts as int, (last + 1) as nat) == rate_at(self.f.parts as int, self.r.parts as int, last as nat) * self.r.parts / scale());
                assert(g.hash_count() == geometric(self.k0 as int, self.s as int, (last + 1) as nat));
                assert(old_gens[last as int].hash_count() == geometric(self.k0 as int, self.s as int, last as nat));
                assert(g.target().parts == rate_at(self.f.parts as int, self.r.parts as int, (last + 1) as nat));
                assert(old_gens[last as int].target().parts == rate_at(self.f.parts as int, self.r.parts as int, last as nat));
            }
        }
        let i = self.vbfs.len() - 1;
        let ghost mid = self.vbfs@;
        proof {
            assert(mid[i as int].wf());
            lemma_total_inserted_update(mid, i as int, mid[i as int]);
            assert(mid.update(i as int, mid[i as int]) =~= mid);
        }
        let r = self.vbfs[i].add(value);
        proof {
            let g = self.vbfs@[i as int];
            assert(self.vbfs@ == mid.update(i as int, g));
            lemma_total_inserted_update(mid, i as int, g);
            lemma_total_bits_update(mid, i as int, g);
            assert forall|j: int| 0 <= j < self.vbfs@.len() implies self.is_generation(j, #[trigger] self.vbfs@[j]) by {
                assert(mid[j].wf());
            }
            assert(self.holds(value.key_bytes())) by {
                assert(self.generations()[i as int].holds(value.key_bytes()));
            }
            assert forall|b: Seq<u8>| old(self).holds(b) implies self.holds(b) by {
                let j = choose|j: int| 0 <= j < old_gens.len() && (#[trigger] old_gens[j]).holds(b);
                assert(mid[j] == old_gens[j]);
                if j == i {
                    assert(self.generations()[j].holds(b));
                } else {
                    assert(self.generations()[j] == mid[j]);
                }
            }
            assert(self.vbfs@.last() == g);
            if !full {
                assert(mid =~= old_gens);
                assert(self.generations().last().slice_keys() =~= Seq::new(
                    self.generations().last().hash_count(),
                    |j: int| old_gens.last().slice_keys()[j].insert(slot(value.key_bytes(), j, self.m as int)),
                ));
            } else {
                assert(self.generations().last().slice_keys() =~= Seq::new(
                    self.generations().last().hash_count(),
                    |j: int| Set::<u64>::empty().insert(slot(value.key_bytes(), j, self.m as int)),
                ));
                assert(mid[i as int] == mid.last());
                lemma_geometric_grows(self.k0 as int, self.s as int, 0, i as nat);
                assert(mid[i as int].hash_count() >= 1);
                assert(mid[i as int].slice_keys()[0] == Set::<u64>::empty());
                assert(!mid[i as int].slice_keys()[0].contains(slot(value.key_bytes(), 0, mid[i as int].slice_size() as int)));
            }
        }
        r
    }

    /// `true` exactly when some generation holds every key that `value` probes in it.
    pub fn contains<T: HashKey + ?Sized>(&self, value: &T) -> (r: bool)
        requires
            self.wf(),
        ensures
            r == self.holds(value.key_bytes()),
    {
        let mut i: usize = 0;
        while i < self.vbfs.len()
            invariant
                self.wf(),
                i <= self.vbfs@.len(),
                forall|j: int| 0 <= j < i ==> !(#[trigger] self.vbfs@[j]).holds(value.key_bytes()),
            decreases self.vbfs@.len() - i,
        {
            assert(self.vbfs@[i as int].wf());
            if self.vbfs[i].contains(value) {
                assert(self.generations()[i as int].holds(value.key_bytes()));
                return true;
            }
            i = i + 1;
        }
        proof {
            assert forall|j: int| 0 <= j < self.generations().len() implies !(#[trigger] self.generations()[j]).holds(value.key_bytes()) by {
                assert(!self.vbfs@[j].holds(value.key_bytes()));
            }
        }
        false
    }

    /// The overall target false-positive rate.
    pub fn target_false_positive_rate(&self) -> (r: Rate)
        ensures
            r == self.target(),
    {
        self.f
    }

    /// `1 - Π (1 - e_i)` in fixed point over the generations' estimates
    /// `e_i`: the chance that some generation accepts a random value. It is
    /// never below any single generation's estimate.
    pub fn current_false_positive_rate(&self) -> (r: u128)
        requires
            self.wf(),
        ensures
            r == self.estimate(),
            r <= scale(),
            forall|j: int| 0 <= j < self.generations().len() ==> r >= (#[trigger] self.generations()[j]).estimate(),
    {
        let mut q: u128 = SCALE;
        let mut i: usize = 0;
        proof {
            assert forall|j: int| 0 <= j < self.vbfs@.len() implies 0 <= #[trigger] self.vbfs@[j].estimate() <= scale() by {
                assert(self.vbfs@[j].wf());
                self.vbfs@[j].lemma_estimate_in_range();
            }
        }
        while i < self.vbfs.len()
            invariant
                self.wf(),
                i <= self.vbfs@.len(),
                forall|j: int| 0 <= j < self.vbfs@.len() ==> 0 <= #[trigger] self.vbfs@[j].estimate() <= scale(),
                q == all_clear(self.vbfs@.take(i as int)),
                q <= scale(),
            decreases self.vbfs@.len() - i,
        {
            let ghost t = self.vbfs@.take(i as int + 1);
            assert(t.drop_last() =~= self.vbfs@.take(i as int));
            assert(self.vbfs@[i as int].wf());
            let e = self.vbfs[i].current_false_positive_rate();
            proof {
                assert(e > 0 ==> q * (scale() - e) < scale() * scale()) by (nonlinear_arith)
                    requires q <= scale(), 0 <= e <= scale();
                assert forall|j: int| 0 <= j < t.len() implies 0 <= #[trigger] t[j].estimate() <= scale() by {
                    assert(t[j] == self.vbfs@[j]);
                }
                lemma_all_clear_bound(t, 0);
            }
            if e > 0 {
                q = q * (SCALE - e) / SCALE;
            } else {
                proof {
                    vstd::arithmetic::div_mod::lemma_div_by_multiple(q as int, scale());
                }
            }
            i = i + 1;
        }
        proof {
            assert(self.vbfs@.take(self.vbfs@.len() as int) =~= self.vbfs@);
            assert forall|j: int| 0 <= j < self.generations().len() implies SCALE - q >= (#[trigger] self.generations()[j]).estimate() by {
                lemma_all_clear_bound(self.vbfs@, j);
            }
        }
        SCALE - q
    }

    /// Always `false`: the filter opens a new generation instead of saturating.
    pub fn is_full(&self) -> (r: bool)
        ensures
            !r,
    {
        false
    }

    /// `true` when no generation holds a key.
    pub fn is_empty(&self) -> (r: bool)
        requires
            self.wf(),
        ensures
            r == forall|i: int, j: int|
                0 <= i < self.generations().len() && 0 <= j < self.generations()[i].hash_count()
                    ==> #[trigger] self.generations()[i].slice_keys()[j] == Set::<u64>::empty(),
    {
        let mut i: usize = 0;
        while i < self.vbfs.len()
            invariant
                self.wf(),
                i <= self.vbfs@.len(),
                forall|g: int, j: int|
                    0 <= g < i && 0 <= j < self.vbfs@[g].hash_count() ==> #[trigger] self.vbfs@[g].slice_keys()[j]
                        == Set::<u64>::empty(),
            decreases self.vbfs@.len() - i,
        {
            assert(self.vbfs@[i as int].wf());
            if !self.vbfs[i].is_empty() {
                proof {
                    let j = choose|j: int|
                        0 <= j < self.vbfs@[i as int].hash_count() && self.vbfs@[i as int].slice_keys()[j]
                            != Set::<u64>::empty();
                    assert(self.generations()[i as int].slice_keys()[j] != Set::<u64>::empty());
                }
                return false;
            }
            i = i + 1;
        }
        true
    }

    /// The number of generations.
    pub fn generation_count(&self) -> (r: usize)
        ensures
            r == self.generations().len(),
    {
        self.vbfs.len()
    }

    /// Generation `i`, oldest first.
    pub fn generation(&self, i: usize) -> (r: &VariantBloomFilter)
        requires
            i < self.generations().len(),
        ensures
            *r == self.generations()[i as int],
            self.wf() ==> r.wf(),
            self.wf() ==> self.is_generation(i as int, *r),
    {
        &self.vbfs[i]
    }

    /// The number of insertions over all generations.
    pub fn size(&self) -> (r: u64)
        requires
            self.wf(),
        ensures
            r == self.inserted(),
    {
        let mut sum: u64 = 0;
        let mut i: usize = 0;
        while i < self.vbfs.len()
            invariant
                self.wf(),
                i <= self.vbfs@.len(),
                sum == total_inserted(self.vbfs@.take(i as int)),
            decreases self.vbfs@.len() - i,
        {
            let ghost t = self.vbfs@.take(i as int + 1);
            assert(t.drop_last() =~= self.vbfs@.take(i as int));
            proof {
                lemma_total_inserted_prefix(self.vbfs@, i as int + 1);
            }
            sum = sum + self.vbfs[i].size();
            i = i + 1;
        }
        assert(self.vbfs@.take(self.vbfs@.len() as int) =~= self.vbfs@);
        sum
    }

    /// The number of keys over all generations and slices.
    pub fn len(&self) -> (r: u64)
        requires
            self.wf(),
            self.bit_count() <= u64::MAX,
        ensures
            r == self.bit_count(),
    {
        let mut sum: u64 = 0;
        let mut i: usize = 0;
        while i < self.vbfs.len()
            invariant
                self.wf(),
                i <= self.vbfs@.len(),
                total_bits(self.vbfs@) <= u64::MAX,
                sum == total_bits(self.vbfs@.take(i as int)),
            decreases self.vbfs@.len() - i,
        {
            let ghost t = self.vbfs@.take(i as int + 1);
            assert(t.drop_last() =~= self.vbfs@.take(i as int));
            assert(self.vbfs@[i as int].wf());
            proof {
                lemma_total_bits_prefix(self.vbfs@, i as int + 1);
                lemma_total_bits_prefix(t, i as int);
            }
            sum = sum + self.vbfs[i].len();
            i = i + 1;
        }
        assert(self.vbfs@.take(self.vbfs@.len() as int) =~= self.vbfs@);
        sum
    }
}

/// The compound estimate of a growing filter is never below the estimate
/// of any one of its generations.
pub proof fn law_compound_bound(b: ScalableBloomFilter, j: int)
    requires
        b.wf(),
        0 <= j < b.generations().len(),
    ensures
        b.estimate() >= b.generations()[j].estimate(),
{
    assert forall|i: int| 0 <= i < b.generations().len() implies 0 <= #[trigger] b.generations()[i].estimate() <= scale() by {
        assert(b.vbfs@[i].wf());
        b.vbfs@[i].lemma_estimate_in_range();
    }
    lemma_all_clear_bound(b.generations(), j);
}

/// No false negatives for the filter's lifetime: if a value is found in one
/// state, it is found in every later state, when each step keeps every value
/// that was found, as `add` ensures (an older generation is never changed, the
/// newest one only gains keys). `add` also ensures that the value it inserted
/// is found right after.
pub proof fn law_no_false_negative(states: Seq<ScalableBloomFilter>, bytes: Seq<u8>)
    requires
        states.len() >= 1,
        states[0].holds(bytes),
        forall|i: int, b: Seq<u8>|
            0 <= i < states.len() - 1 && states[i].holds(b) ==> #[trigger] states[i + 1].holds(b),
    ensures
        forall|i: int| 0 <= i < states.len() ==> (#[trigger] states[i]).holds(bytes),
    decreases states.len(),
{
    if states.len() > 1 {
        let p = states.drop_last();
        assert forall|i: int, b: Seq<u8>| 0 <= i < p.len() - 1 && p[i].holds(b) implies #[trigger] p[i + 1].holds(b) by {
            assert(p[i + 1] == states[i + 1] && p[i] == states[i]);
        }
        law_no_false_negative(p, bytes);
        let n = states.len() - 1;
        assert(p[n - 1] == states[n - 1]);
        let i = n - 1;
        assert(states[i].holds(bytes));
        assert(states[i + 1].holds(bytes));
        assert forall|j: int| 0 <= j < states.len() implies (#[trigger] states[j]).holds(bytes) by {
            if j < n {
                assert(p[j] == states[j]);
            } else {
                assert(states[i + 1].holds(bytes));
            }
        }
    }
}

} // verus!
