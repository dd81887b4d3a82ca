use roaring_bloom_filter::scalable_bloom_filter::{DECAY_BITS, DECAY_PARTS};
use roaring_bloom_filter::utils::estimate_uniform;
use roaring_bloom_filter::{
    calculate_best_k, calculate_best_m, get_hash, BloomError, Rate, ScalableBloomFilter, StableBloomFilter,
    VariantBloomFilter,
};

const TWO_POW_64: f64 = 18446744073709551616.0;

fn rate(f: f64) -> Rate {
    let ln2 = std::f64::consts::LN_2;
    Rate {
        parts: (f * TWO_POW_64) as u64,
        bits_per_value: (-f.ln() / (ln2 * ln2) * 4294967296.0).ceil() as u64,
    }
}

fn as_probability(p: u128) -> f64 {
    p as f64 / TWO_POW_64
}

#[test]
fn stable_bloom_filter_simple_int_test() {
    let mut bf = StableBloomFilter::new(100, rate(0.001)).unwrap();
    (0..5).for_each(|i: i32| {
        bf.add(&i);
        println!("false positive is {}", as_probability(bf.current_false_positive_rate()));
    });

    assert!(bf.contains(&2));
    assert!(!bf.contains(&5));
}

#[test]
fn stable_bloom_filter_multiple_value_test() {
    let mut bf = StableBloomFilter::new(100, rate(0.001)).unwrap();

    (-25..25).for_each(|i: i32| {
        bf.add(&i);
    });
    bf.add(&'*');
    bf.add("this is a string");

    println!("false positive is {}", as_probability(bf.current_false_positive_rate()));

    assert!(bf.contains(&2));
    assert!(bf.contains(&5));
}

#[test]
fn variant_bloom_filter_simple_int_test() {
    let mut bf = VariantBloomFilter::new(100, rate(0.001)).unwrap();
    (0..5).for_each(|i: i32| {
        bf.add(&i);
        println!("false positive is {}", as_probability(bf.current_false_positive_rate()));
    });

    assert!(bf.contains(&2));
    assert!(!bf.contains(&5));
}

#[test]
fn variant_bloom_filter_multiple_value_test() {
    let mut bf = VariantBloomFilter::new(100, rate(0.001)).unwrap();

    (-25..25).for_each(|i: i32| {
        bf.add(&i);
    });
    bf.add(&'*');
    bf.add("this is a string");

    println!("false positive is {}", as_probability(bf.current_false_positive_rate()));

    assert!(bf.contains(&2));
    assert!(bf.contains(&5));
}

#[test]
fn bloom_filter_simple_int_test() {
    let mut bf = VariantBloomFilter::new(100, rate(0.001)).unwrap();
    (0..5).for_each(|i: i32| {
        bf.add(&i);
        println!("false positive is {}", as_probability(bf.current_false_positive_rate()));
    });

    assert!(bf.contains(&2));
    assert!(!bf.contains(&5));
}

#[test]
fn bloom_filter_multiple_value_test() {
    let mut bf = VariantBloomFilter::new(100, rate(0.001)).unwrap();

    (-25..25).for_each(|i: i32| {
        bf.add(&i);
    });
    bf.add(&'*');
    bf.add("this is a string");

    println!("false positive is {}", as_probability(bf.current_false_positive_rate()));

    assert!(bf.contains(&2));
    assert!(bf.contains(&5));
}

#[test]
fn scalable_bloom_filter_simple_int_test() {
    let mut bf = ScalableBloomFilter::new(100, rate(0.001)).unwrap();
    (0..5).for_each(|i: i32| {
        bf.add(&i);
        println!("false positive is {}", as_probability(bf.current_false_positive_rate()));
    });

    assert!(bf.contains(&2));
    assert!(!bf.contains(&5));
}

#[test]
fn scalable_bloom_filter_multiple_value_test() {
    let mut bf = ScalableBloomFilter::new(100, rate(0.001)).unwrap();

    (-25..25).for_each(|i: i32| {
        bf.add(&i);
    });
    bf.add(&'*');
    bf.add("this is a string");

    println!("false positive is {}", as_probability(bf.current_false_positive_rate()));

    assert!(bf.contains(&2));
    assert!(bf.contains(&5));
}

#[test]
fn decay_of_new_is_nine_tenths() {
    let r = rate(0.9);
    assert_eq!(r.bits_per_value, DECAY_BITS);
    assert!(r.parts.abs_diff(DECAY_PARTS) < 1024);
}

#[test]
fn best_k_is_ceil_log2_of_inverse_rate() {
    assert_eq!(calculate_best_k(rate(0.001)), Ok(10));
    assert_eq!(calculate_best_k(rate(0.1)), Ok(4));
    assert_eq!(calculate_best_k(rate(0.5)), Ok(1));
    assert_eq!(calculate_best_k(rate(0.75)), Ok(1));
    assert_eq!(calculate_best_k(rate(0.01)), Ok(7));
    assert_eq!(calculate_best_k(Rate { parts: 1, bits_per_value: 1 }), Ok(64));
    assert_eq!(calculate_best_k(Rate { parts: 0, bits_per_value: 1 }), Err(BloomError::InvalidParameter));
}

#[test]
fn best_m_exact_values() {
    let f = rate(0.001);
    assert_eq!(calculate_best_m(100, 10, f), Ok(144));
    assert_eq!(calculate_best_m(100, 1, f), Ok(1438));
    assert_eq!(calculate_best_m(1000, 10, f), Ok(1438));
    assert_eq!(calculate_best_m(1000, 1, f), Ok(14378));
    assert_eq!(calculate_best_m(10, 4, rate(0.1)), Ok(12));
    assert_eq!(calculate_best_m(1000, 7, rate(0.01)), Ok(1370));
    assert_eq!(calculate_best_m(1, 1, rate(0.5)), Ok(2));
    assert_eq!(calculate_best_m(7, 1, rate(0.75)), Ok(5));
}

#[test]
fn best_m_errors() {
    let f = rate(0.001);
    assert_eq!(calculate_best_m(0, 10, f), Err(BloomError::InvalidParameter));
    assert_eq!(calculate_best_m(100, 0, f), Err(BloomError::InvalidParameter));
    assert_eq!(calculate_best_m(100, 10, Rate { parts: 0, bits_per_value: 1 }), Err(BloomError::InvalidParameter));
    assert_eq!(calculate_best_m(100, 10, Rate { parts: 1, bits_per_value: 0 }), Err(BloomError::InvalidParameter));
    assert_eq!(calculate_best_m(u64::MAX, 1, f), Err(BloomError::CapacityTooLarge));
}

#[test]
fn sizing_is_consistent() {
    for &(cap, fr) in &[(1u64, 0.5f64), (100, 0.001), (1000, 0.01), (7, 0.75), (10, 0.1), (5000, 0.0001)] {
        let f = rate(fr);
        let k = calculate_best_k(f).unwrap();
        let m = calculate_best_m(cap, k, f).unwrap();
        let single = calculate_best_m(cap, 1, f).unwrap();
        assert!(k >= 1);
        assert!(m >= 1);
        let ln2 = std::f64::consts::LN_2;
        let exact = cap as f64 * -fr.ln() / (k as f64 * ln2 * ln2);
        assert!(m as f64 >= exact - 1e-6 && (m as f64) < exact + 1.0 + 1e-6);
        // The standard estimate at capacity: each slice received `cap` keys.
        // Whole-number `k` and `m` put it within a few percent of the target;
        // the widest gap here is 14%, for ten values at rate 0.1.
        let fill = 1.0 - (1.0 - 1.0 / m as f64).powf(cap as f64);
        assert!(fill.powf(k as f64) <= fr * 1.15);
        // One bitmap that received `k * cap` keys.
        let fill = 1.0 - (1.0 - 1.0 / single as f64).powf((k as u64 * cap) as f64);
        assert!(fill.powf(k as f64) <= fr * 1.15);
    }
}

#[test]
fn estimate_uniform_exact() {
    assert_eq!(estimate_uniform(1, 2, 3), 1u128 << 61);
    assert_eq!(estimate_uniform(0, 5, 2), 0);
    assert_eq!(estimate_uniform(5, 5, 7), 1u128 << 64);
    assert_eq!(estimate_uniform(3, 4, 0), 1u128 << 64);
    assert_eq!(estimate_uniform(3, 4, 1), 3u128 << 62);
}

#[test]
fn constructors_reject_bad_parameters() {
    let f = rate(0.001);
    assert!(matches!(StableBloomFilter::new(0, f), Err(BloomError::InvalidParameter)));
    assert!(matches!(StableBloomFilter::new(100, Rate { parts: 0, bits_per_value: 1 }), Err(BloomError::InvalidParameter)));
    assert!(matches!(StableBloomFilter::new(u64::MAX, f), Err(BloomError::CapacityTooLarge)));
    assert!(matches!(StableBloomFilter::from_scratch(0, 10, f), Err(BloomError::InvalidParameter)));
    assert!(matches!(StableBloomFilter::from_scratch(3, 0, f), Err(BloomError::InvalidParameter)));
    assert!(matches!(VariantBloomFilter::new(0, f), Err(BloomError::InvalidParameter)));
    assert!(matches!(VariantBloomFilter::new(100, Rate { parts: 0, bits_per_value: 1 }), Err(BloomError::InvalidParameter)));
    assert!(matches!(VariantBloomFilter::new(u64::MAX, f), Err(BloomError::CapacityTooLarge)));
    assert!(matches!(VariantBloomFilter::from_scratch(0, 10, f), Err(BloomError::InvalidParameter)));
    assert!(matches!(ScalableBloomFilter::new(0, f), Err(BloomError::InvalidParameter)));
    assert!(matches!(ScalableBloomFilter::new(u64::MAX, f), Err(BloomError::CapacityTooLarge)));
    assert!(matches!(ScalableBloomFilter::from_scratch(2, 10, 0, rate(0.9), f), Err(BloomError::InvalidParameter)));
    assert!(matches!(ScalableBloomFilter::from_scratch(2, 10, 2, Rate { parts: 0, bits_per_value: 1 }, f), Err(BloomError::InvalidParameter)));
    assert!(matches!(VariantBloomFilter::new(100, Rate { parts: 5, bits_per_value: 0 }), Err(BloomError::InvalidParameter)));
}

#[test]
fn get_hash_is_deterministic_and_seeded() {
    assert_eq!(get_hash(&5i32, 0), get_hash(&5i32, 0));
    assert_eq!(get_hash("abc", 3), get_hash(&String::from("abc"), 3));
    assert_ne!(get_hash(&5i32, 0), get_hash(&5i32, 1));
    assert_ne!(get_hash(&5i32, 0), get_hash(&6i32, 0));
}

#[test]
fn add_reports_new_keys() {
    let mut bf = StableBloomFilter::new(100, rate(0.001)).unwrap();
    assert!(bf.is_empty());
    assert!(bf.add(&42i32));
    assert!(!bf.add(&42i32));
    assert!(!bf.is_empty());

    let mut vf = VariantBloomFilter::new(100, rate(0.001)).unwrap();
    assert!(vf.is_empty());
    assert!(vf.add(&42i32));
    assert!(!vf.add(&42i32));
    assert_eq!(vf.len(), 10);
    assert!(!vf.is_empty());
}

#[test]
fn size_counts_every_insert() {
    let mut bf = StableBloomFilter::new(50, rate(0.01)).unwrap();
    let mut vf = VariantBloomFilter::new(50, rate(0.01)).unwrap();
    let mut sf = ScalableBloomFilter::new(5, rate(0.1)).unwrap();
    let (mut bl, mut vl, mut sl) = (0u64, 0u64, 0u64);
    for i in 0..200i64 {
        let v = i % 37;
        bf.add(&v);
        vf.add(&v);
        sf.add(&v);
        assert_eq!(bf.size(), i as u64 + 1);
        assert_eq!(vf.size(), i as u64 + 1);
        assert_eq!(sf.size(), i as u64 + 1);
        assert!(bf.len() >= bl && vf.len() >= vl && sf.len() >= sl);
        bl = bf.len();
        vl = vf.len();
        sl = sf.len();
    }
}

#[test]
fn no_false_negatives_in_any_variant() {
    let mut bf = StableBloomFilter::new(20, rate(0.1)).unwrap();
    let mut vf = VariantBloomFilter::new(20, rate(0.1)).unwrap();
    let mut sf = ScalableBloomFilter::new(20, rate(0.1)).unwrap();
    for i in 0..150u64 {
        bf.add(&i);
        vf.add(&i);
        sf.add(&i);
        for j in 0..=i {
            assert!(bf.contains(&j));
            assert!(vf.contains(&j));
            assert!(sf.contains(&j));
        }
    }
}

#[test]
fn fixed_filters_report_full() {
    let mut bf = StableBloomFilter::new(5, rate(0.1)).unwrap();
    let mut vf = VariantBloomFilter::new(5, rate(0.1)).unwrap();
    assert!(!bf.is_full());
    assert!(!vf.is_full());
    for i in 0..500u32 {
        bf.add(&i);
        vf.add(&i);
    }
    assert!(bf.is_full());
    assert!(vf.is_full());
    assert!(bf.current_false_positive_rate() >= bf.target_false_positive_rate().parts as u128);
}

#[test]
fn scalable_never_full() {
    let mut sf = ScalableBloomFilter::new(5, rate(0.1)).unwrap();
    for i in 0..200u32 {
        sf.add(&i);
        assert!(!sf.is_full());
    }
    assert!(sf.generation_count() > 1);
}

#[test]
fn scalable_extension_adds_one_generation() {
    let f = rate(0.1);
    let mut sf = ScalableBloomFilter::from_scratch(2, 8, 2, rate(0.9), f).unwrap();
    let mut i = 0u64;
    while !sf.generation(sf.generation_count() - 1).is_full() {
        sf.add(&i);
        i += 1;
    }
    let before = sf.generation_count();
    let k_before = sf.generation(before - 1).num_slices();
    let target_before = sf.generation(before - 1).target_false_positive_rate().parts as u128;
    sf.add(&12345u64);
    assert_eq!(sf.generation_count(), before + 1);
    assert_eq!(sf.generation(before).num_slices(), k_before * 2);
    assert_eq!(
        sf.generation(before).target_false_positive_rate().parts as u128,
        target_before * (rate(0.9).parts as u128) / (1u128 << 64)
    );
    assert_eq!(
        sf.generation(before).target_false_positive_rate().bits_per_value,
        f.bits_per_value + before as u64 * rate(0.9).bits_per_value
    );
    assert_eq!(sf.generation(before).size(), 1);
    assert!(sf.contains(&12345u64));
}

#[test]
fn scalable_compound_rate_bounds_each_generation() {
    let mut sf = ScalableBloomFilter::new(5, rate(0.1)).unwrap();
    for i in 0..120u32 {
        sf.add(&i);
        let total = sf.current_false_positive_rate();
        for g in 0..sf.generation_count() {
            assert!(total >= sf.generation(g).current_false_positive_rate());
        }
    }
}

#[test]
fn stable_scenario_small_ints() {
    let f = rate(0.001);
    let mut a = StableBloomFilter::new(100, f).unwrap();
    let mut b = StableBloomFilter::new(100, f).unwrap();
    for i in 0..5i32 {
        a.add(&i);
        b.add(&i);
    }
    assert!(a.contains(&2));
    assert_eq!(a.size(), b.size());
    assert_eq!(a.len(), b.len());
    assert_eq!(a.size(), 5);
    let p = a.current_false_positive_rate();
    assert!(p < f.parts as u128);
}

#[test]
fn scalable_scenario_three_hundred_values() {
    let mut sf = ScalableBloomFilter::new(10, rate(0.1)).unwrap();
    for i in 0..300u32 {
        assert!(sf.next_generation_fits());
        sf.add(&i);
    }
    assert!(sf.generation_count() > 1);
    for i in 0..300u32 {
        assert!(sf.contains(&i));
    }
}
