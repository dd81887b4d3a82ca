//! Sizing math: hash counts, set sizes and false-positive estimates.
use vstd::prelude::*;

verus! {

/// One whole in the fixed-point representation of probabilities.
pub const SCALE: u128 = 0x1_0000_0000_0000_0000;

pub open spec fn scale() -> int {
    0x1_0000_0000_0000_0000
}

/// Errors raised when a filter cannot be built.
#[derive(Debug, Clone, Copy, PartialEq, Eq, Structural)]
pub enum BloomError {
    /// A capacity, hash count or size of zero, or a rate outside `(0, 1)`.
    InvalidParameter,
    /// The standard set size for the requested capacity does not fit in `u64`.
    CapacityTooLarge,
}

/// A false-positive rate `f`, strictly between 0 and 1, in two fixed-point forms.
///
/// - `parts` is `f` itself: `parts / 2^64`, rounded down.
/// - `bits_per_value` is `|ln f| / (ln 2)^2`, the bits per value that an optimally
///   sized filter spends for this rate, in units of `2^-32`, rounded up.
///
/// Both are computed where logarithms are available, and must describe the
/// same `f`. A zero in either field is rejected by every constructor.
#[derive(Debug, Clone, Copy, PartialEq, Eq, Structural)]
pub struct Rate {
    pub parts: u64,
    pub bits_per_value: u64,
}

/// The unit of `Rate::bits_per_value`: `2^32`.
pub open spec fn bits_unit() -> int {
    0x1_0000_0000
}

/// A usable rate: both fields positive.
pub open spec fn valid_rate(f: Rate) -> bool {
    f.parts > 0 && f.bits_per_value > 0
}

/// `2^k`.
pub open spec fn two_pow(k: nat) -> int
    decreases k,
{
    if k == 0 {
        1
    } else {
        2 * two_pow((k - 1) as nat)
    }
}

/// A hash count `k` covers `f` when `(1/2)^k <= f`, i.e. `2^k >= 1/f`.
pub open spec fn covers(f: Rate, k: nat) -> bool {
    (f.parts as int) * two_pow(k) >= scale()
}

proof fn lemma_two_pow_64()
    ensures
        two_pow(64) == scale(),
{
    reveal_with_fuel(two_pow, 65);
}

/// `k` is `ceil(log2(1/f))`: the least hash count that covers `f`.
pub open spec fn is_best_k(f: Rate, k: nat) -> bool {
    covers(f, k) && forall|j: nat| j < k ==> !covers(f, j)
}

/// The estimate `(c/m)^k` in fixed point, one floor-rounded factor at a time.
pub open spec fn pow_estimate(c: int, m: int, k: nat) -> int
    decreases k,
{
    if k == 0 {
        scale()
    } else {
        pow_estimate(c, m, (k - 1) as nat) * c / m
    }
}

/// The standard size for `n` values spread over `k` sets at rate `f`:
/// `ceil(n * |ln f| / (k * (ln 2)^2))`, with `|ln f| / (ln 2)^2` taken from
/// `f.bits_per_value`, that is `ceil(n * bits_per_value / (k * 2^32))`.
pub open spec fn best_m(n: int, k: int, f: Rate) -> int {
    (n * f.bits_per_value + k * bits_unit() - 1) / (k * bits_unit())
}

/// The least hash count `k` with `(1/2)^k <= f`, that is `ceil(log2(1/f))`.
pub fn calculate_best_k(f: Rate) -> (r: Result<u32, BloomError>)
    ensures
        f.parts == 0 <==> r is Err,
        r is Err ==> r == Err::<u32, BloomError>(BloomError::InvalidParameter),
        r is Ok ==> is_best_k(f, r->Ok_0 as nat) && 1 <= r->Ok_0 <= 64,
{
    if f.parts == 0 {
        return Err(BloomError::InvalidParameter);
    }
    let mut p: u128 = f.parts as u128;
    let mut k: u32 = 0;
    while p < SCALE
        invariant
            f.parts > 0,
            p == (f.parts as int) * two_pow(k as nat),
            k <= 64,
            p <= 2 * scale(),
            p >= 1,
            p >= two_pow(k as nat),
            forall|j: nat| j < k ==> !covers(f, j),
        decreases 64 - k,
    {
        proof {
            assert(two_pow((k + 1) as nat) == 2 * two_pow(k as nat));
            if k == 64 {
                lemma_two_pow_64();
            }
        }
        p = p * 2;
        k = k + 1;
        proof {
            assert(p == (f.parts as int) * two_pow(k as nat)) by (nonlinear_arith)
                requires p == 2 * ((f.parts as int) * two_pow((k - 1) as nat)),
                    two_pow(k as nat) == 2 * two_pow((k - 1) as nat);
        }
    }
    proof {
        if k == 0 {
            assert(f.parts < scale());
            assert(false);
        }
    }
    Ok(k)
}

/// The estimate never leaves `[0, 1]` while the occupancy is at most the size.
pub proof fn lemma_estimate_bounded(c: int, m: int, k: nat)
    requires
        0 <= c <= m,
        m > 0,
    ensures
        0 <= pow_estimate(c, m, k) <= scale(),
    decreases k,
{
    if k > 0 {
        let a = pow_estimate(c, m, (k - 1) as nat);
        lemma_estimate_bounded(c, m, (k - 1) as nat);
        assert(0 <= a * c <= a * m) by (nonlinear_arith)
            requires 0 <= a, 0 <= c <= m;
        vstd::arithmetic::div_mod::lemma_div_is_ordered(a * c, a * m, m);
        vstd::arithmetic::div_mod::lemma_div_pos_is_pos(a * c, m);
        vstd::arithmetic::div_mod::lemma_div_by_multiple(a, m);
    }
}

/// `(c/m)^k` in fixed point, rounded down after each factor.
pub fn estimate_uniform(c: u64, m: u64, k: u32) -> (r: u128)
    requires
        0 < m,
        c <= m,
    ensures
        r == pow_estimate(c as int, m as int, k as nat),
{
    let mut acc: u128 = SCALE;
    let mut i: u32 = 0;
    while i < k
        invariant
            0 < m,
            c <= m,
            i <= k,
            acc == pow_estimate(c as int, m as int, i as nat),
        decreases k - i,
    {
        proof {
            lemma_estimate_bounded(c as int, m as int, i as nat);
            assert(acc * c <= scale() * m) by (nonlinear_arith)
                requires acc <= scale(), c <= m;
            assert(scale() * m < 0x1_0000_0000_0000_0000_0000_0000_0000_0000) by (nonlinear_arith)
                requires m < scale(), scale() == 0x1_0000_0000_0000_0000;
        }
        acc = acc * (c as u128) / (m as u128);
        i = i + 1;
    }
    acc
}

/// The standard set size for `n` values over `k` sets at rate `f`:
/// `ceil(n * |ln f| / (k * (ln 2)^2))`, from `f.bits_per_value`.
///
/// With `k` the number of slices this is the size of each slice; with `k == 1`
/// it is the size of one bitmap shared by all hash functions.
pub fn calculate_best_m(n: u64, k: u32, f: Rate) -> (r: Result<u64, BloomError>)
    ensures
        (n == 0 || k == 0 || !valid_rate(f)) <==> r == Err::<u64, BloomError>(BloomError::InvalidParameter),
        !(n == 0 || k == 0 || !valid_rate(f)) ==> (r == Err::<u64, BloomError>(BloomError::CapacityTooLarge)
            <==> best_m(n as int, k as int, f) > u64::MAX),
        r is Ok ==> r->Ok_0 == best_m(n as int, k as int, f) && r->Ok_0 >= 1,
{
    if n == 0 || k == 0 || f.parts == 0 || f.bits_per_value == 0 {
        return Err(BloomError::InvalidParameter);
    }
    let den: u128 = (k as u128) * 0x1_0000_0000u128;
    proof {
        assert((n as int) * (f.bits_per_value as int) <= (u64::MAX as int) * (u64::MAX as int)) by (nonlinear_arith)
            requires n <= u64::MAX, f.bits_per_value <= u64::MAX;
        assert((n as int) * (f.bits_per_value as int) >= 1) by (nonlinear_arith)
            requires n >= 1, f.bits_per_value >= 1;
    }
    let num: u128 = (n as u128) * (f.bits_per_value as u128) + den - 1;
    let m: u128 = num / den;
    proof {
        vstd::arithmetic::div_mod::lemma_div_is_ordered(den as int, num as int, den as int);
        vstd::arithmetic::div_mod::lemma_div_by_multiple(1, den as int);
    }
    if m > u64::MAX as u128 {
        return Err(BloomError::CapacityTooLarge);
    }
    Ok(m as u64)
}

/// Sizing is consistent: the hash count is at least 1, and the set size is
/// at least 1 and is the least size that reaches `n * |ln f| / (k * (ln 2)^2)`.
pub proof fn law_sizing_consistency(n: int, f: Rate, k: nat, m: int)
    requires
        n >= 1,
        valid_rate(f),
        is_best_k(f, k),
        m == best_m(n, k as int, f),
    ensures
        k >= 1,
        m >= 1,
        m * k * bits_unit() >= n * f.bits_per_value,
        (m - 1) * k * bits_unit() < n * f.bits_per_value,
{
    if k == 0 {
        assert(two_pow(0) == 1);
        assert(f.parts < scale());
    }
    let d = k * bits_unit();
    let x = n * f.bits_per_value + d - 1;
    assert(d >= 1) by (nonlinear_arith)
        requires k >= 1, bits_unit() == 0x1_0000_0000, d == k * bits_unit();
    assert(n * f.bits_per_value >= 1) by (nonlinear_arith)
        requires n >= 1, f.bits_per_value >= 1;
    vstd::arithmetic::div_mod::lemma_fundamental_div_mod(x, d);
    vstd::arithmetic::div_mod::lemma_mod_pos_bound(x, d);
    assert(m == x / d);
    assert(m * k * bits_unit() == m * d) by (nonlinear_arith)
        requires d == k * bits_unit();
    assert((m - 1) * k * bits_unit() == (m - 1) * d) by (nonlinear_arith)
        requires d == k * bits_unit();
    assert(m * d >= n * f.bits_per_value && (m - 1) * d < n * f.bits_per_value) by (nonlinear_arith)
        requires
            x == d * m + x % d,
            0 <= x % d < d,
            x == n * f.bits_per_value + d - 1;
    assert(m >= 1) by (nonlinear_arith)
        requires m * d >= n * f.bits_per_value, n * f.bits_per_value >= 1, d >= 1;
}

} // verus!
