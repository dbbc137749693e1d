use chronos::filter::{BloomFilter, GOLDEN_RATIO};
use chronos::{FILTER_BITS, FILTER_HASHES};

fn probe(key: &[u8], i: u32, m: usize) -> usize {
    let h1 = seahash::hash(key);
    let h2 = h1.wrapping_add(0x9E37_79B9_7F4A_7C15);
    (h1.wrapping_add((i as u64).wrapping_mul(h2)) % (m as u64)) as usize
}

fn key_of(n: u64) -> Vec<u8> {
    (n as u128).to_le_bytes().to_vec()
}

#[test]
fn golden_ratio_constant() {
    assert_eq!(GOLDEN_RATIO, 0x9E3779B97F4A7C15);
}

#[test]
fn default_shape_is_for_a_million_keys_at_one_percent() {
    let n = 1_000_000f64;
    let p = 0.01f64;
    let ln2 = 2.0f64.ln();
    let m = -((n * p.ln()) / (ln2 * ln2));
    let k = (m / n) * ln2;
    assert_eq!(FILTER_BITS, m.ceil() as usize);
    assert_eq!(FILTER_HASHES, k.ceil() as u32);
    assert_eq!(FILTER_BITS, 9_585_059);
    assert_eq!(FILTER_HASHES, 7);
}

#[test]
fn new_filter_is_empty() {
    let f = BloomFilter::new(1000, 3);
    assert_eq!(f.num_bits(), 1000);
    assert_eq!(f.num_hashes(), 3);
    for n in 0..200u64 {
        assert!(!f.contains(&key_of(n)));
    }
}

#[test]
fn contains_right_after_insert() {
    let mut f = BloomFilter::new(4096, 5);
    for n in 0..500u64 {
        f.insert(&key_of(n));
        assert!(f.contains(&key_of(n)));
    }
    for n in 0..500u64 {
        assert!(f.contains(&key_of(n)));
    }
}

#[test]
fn single_probe_filter_answers_by_the_probed_bit() {
    let m = 64usize;
    let mut f = BloomFilter::new(m, 1);
    let added = key_of(1);
    f.insert(&added);
    let bit = probe(&added, 0, m);
    let mut saw_same = false;
    let mut saw_other = false;
    for n in 2..5000u64 {
        let k = key_of(n);
        let expect = probe(&k, 0, m) == bit;
        assert_eq!(f.contains(&k), expect);
        saw_same |= expect;
        saw_other |= !expect;
    }
    assert!(saw_same && saw_other);
}

#[test]
fn every_probe_counts() {
    let m = 257usize;
    let hashes = 3u32;
    let mut f = BloomFilter::new(m, hashes);
    let added: Vec<Vec<u8>> = (0..6u64).map(key_of).collect();
    let mut set = vec![false; m];
    for k in &added {
        f.insert(k);
        for i in 0..hashes {
            set[probe(k, i, m)] = true;
        }
    }
    let mut negatives = 0;
    for n in 100..6000u64 {
        let k = key_of(n);
        let expect = (0..hashes).all(|i| set[probe(&k, i, m)]);
        assert_eq!(f.contains(&k), expect);
        if !expect {
            negatives += 1;
        }
    }
    assert!(negatives > 0);
}

#[test]
fn filter_without_probes_contains_everything() {
    let mut f = BloomFilter::new(0, 0);
    assert!(f.contains(b"anything"));
    f.insert(b"x");
    assert!(f.contains(b"y"));
}

#[test]
fn false_positive_rate_stays_below_two_percent() {
    let mut f = BloomFilter::new(FILTER_BITS, FILTER_HASHES);
    let inserted = 300_000u64;
    for n in 0..inserted {
        f.insert(&key_of(n));
    }
    let probes = 20_000u64;
    let mut hits = 0u64;
    for n in 0..probes {
        if f.contains(&key_of(1_000_000_000 + n)) {
            hits += 1;
        }
    }
    assert!(hits * 100 < probes * 2);
    for n in (0..inserted).step_by(997) {
        assert!(f.contains(&key_of(n)));
    }
}
