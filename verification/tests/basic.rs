use hyperloglog::hll::M;
use hyperloglog::hll::MAX_RANK;
use hyperloglog::HyperLogLog;

/// The three-regime estimator, evaluated in double precision over the exact
/// integer summaries the library maintains: the raw harmonic estimate, the
/// small-range linear-counting correction while registers are still empty,
/// and the large-range correction near the 32-bit hash-space ceiling.
fn estimate(sketch: &HyperLogLog) -> f64 {
    let m: f64 = M as f64;
    let alpha_m: f64 = match M {
        16 => 0.673,
        32 => 0.697,
        64 => 0.709,
        _ => 0.7213 / (1.0 + 1.079 / m),
    };
    let scaled: u128 = sketch.scaled_harmonic_sum();
    let sum: f64 = scaled as f64 / (1u64 << MAX_RANK) as f64;
    let raw_estimate: f64 = alpha_m * m * m / sum;
    if raw_estimate <= 2.5 * m {
        let zeros: usize = sketch.zero_count();
        if zeros > 0 {
            return m * (m / zeros as f64).ln();
        }
    }
    if raw_estimate > (1u64 << 32) as f64 / 30.0 {
        return -((1u64 << 32) as f64) * (1.0 - raw_estimate / (1u64 << 32) as f64).ln();
    }
    raw_estimate
}

fn registers(sketch: &HyperLogLog) -> Vec<u8> {
    let mut v: Vec<u8> = Vec::new();
    for i in 0..M {
        v.push(sketch.register(i));
    }
    v
}

#[test]
fn test_estimation_accuracy() {
    let mut hll = HyperLogLog::new();
    for i in 0..10_000 {
        hll.add(&i);
    }

    let estimate = estimate(&hll);
    println!("Estimate: {}", estimate);
    assert!(
        (9500.0..10500.0).contains(&estimate),
        "Estimate {} is out of expected range",
        estimate
    );
}

#[test]
fn test_fresh_estimate_is_zero() {
    let hll = HyperLogLog::new();
    assert_eq!(estimate(&hll), 0.0);
}

#[test]
fn test_fresh_summaries() {
    let hll = HyperLogLog::new();
    assert_eq!(hll.zero_count(), M);
    assert_eq!(hll.scaled_harmonic_sum(), (M as u128) << MAX_RANK);
}

#[test]
fn test_registers_monotonic() {
    let mut hll = HyperLogLog::new();
    let mut prev: Vec<u8> = registers(&hll);
    for i in 0..200u32 {
        hll.add(&i);
        let cur: Vec<u8> = registers(&hll);
        for j in 0..M {
            assert!(prev[j] <= cur[j]);
        }
        prev = cur;
    }
}

#[test]
fn test_order_independence() {
    let items: [&str; 6] = ["a", "b", "c", "d", "e", "f"];
    let permuted: [&str; 6] = ["d", "a", "f", "b", "e", "c"];
    let mut first = HyperLogLog::new();
    for item in items.iter() {
        first.add(item);
    }
    let mut second = HyperLogLog::new();
    for item in permuted.iter() {
        second.add(item);
    }
    assert_eq!(registers(&first), registers(&second));
    assert_eq!(estimate(&first), estimate(&second));
}

#[test]
fn test_duplicate_insensitivity() {
    let mut once = HyperLogLog::new();
    once.add(&"again");
    let mut many = HyperLogLog::new();
    for _ in 0..7 {
        many.add(&"again");
    }
    assert_eq!(registers(&once), registers(&many));
}

#[test]
fn test_small_range_correction() {
    let mut hll = HyperLogLog::new();
    hll.add(&1u64);
    // One distinct item: almost every register is zero, so the raw
    // harmonic formula (about alpha * m here, thousands) must be replaced
    // by linear counting, m * ln(m / zeros), which is close to 1.
    let estimate: f64 = estimate(&hll);
    assert!(hll.zero_count() == M - 1);
    assert!(estimate > 0.9 && estimate < 1.1, "estimate {}", estimate);
}

#[test]
fn test_boundary_rank() {
    // A hash whose remaining bits after the index are all zero must get
    // the full rank (64 - P) + 1 = MAX_RANK, not trip the zero count.
    let mut hll = HyperLogLog::new();
    hll.add_hash(0);
    assert_eq!(hll.register(0), MAX_RANK);
    let mut other = HyperLogLog::new();
    other.add_hash(5);
    assert_eq!(other.register(5), MAX_RANK);
    assert_eq!(other.register(0), 0);
}

#[test]
fn test_rank_of_known_hashes() {
    // Top hash bit set: the shifted pattern leads with a one after the
    // fourteen index bits, so the rank is 1.
    let mut hll = HyperLogLog::new();
    hll.add_hash((1u64 << 63) | 3);
    assert_eq!(hll.register(3), 1);
    // Pattern exactly 1: 49 leading zeros within the 50 remaining bits.
    let mut other = HyperLogLog::new();
    other.add_hash((1u64 << 14) | 7);
    assert_eq!(other.register(7), 50);
}

#[test]
fn test_scaled_harmonic_sum_after_one_hash() {
    // Register 0 rises to MAX_RANK, contributing 2^0; the other M - 1
    // registers still contribute 2^MAX_RANK each.
    let mut hll = HyperLogLog::new();
    hll.add_hash(0);
    assert_eq!(hll.scaled_harmonic_sum(), ((M as u128 - 1) << MAX_RANK) + 1);
}

#[test]
fn test_add_touches_exactly_one_register() {
    let mut hll = HyperLogLog::new();
    hll.add(&"solo");
    assert_eq!(hll.zero_count(), M - 1);
}
