use lib::ctw::{life_quantiles, split_by_ratio, Birth, Ctw, Node, Settings, Victim, NONE};

fn settings(victim: Victim, birth: Birth) -> Settings {
    Settings {
        victim,
        birth,
        sample: 8,
        lazy_k: 0,
        gamma: 2,
        beta_reset: false,
        defer_det: false,
        det_k: 0,
        verify_sum: false,
    }
}

fn feed(ctw: &mut Ctw, data: &[u8]) {
    let mut path: Vec<u32> = Vec::new();
    for &byte in data {
        for k in (0..8).rev() {
            ctw.update(((byte >> k) & 1) as usize, &mut path).expect("sum check");
        }
    }
}

fn code_length(data: &[u8], depth: usize) -> (i64, usize) {
    let mut ctw = Ctw::new(depth, NONE as usize);
    feed(&mut ctw, data);
    (ctw.codelen(), ctw.node_count())
}

#[test]
fn first_bit_costs_one_bit() {
    // KT gives 1/2 to the first bit whatever it is
    let mut ctw = Ctw::new(0, 16);
    let mut path: Vec<u32> = Vec::new();
    ctw.update(0, &mut path).unwrap();
    assert_eq!(ctw.codelen(), 1 << 24);
    assert_eq!(path, vec![0]);
}

#[test]
fn one_bit_at_depth_one_creates_its_context() {
    let mut ctw = Ctw::new(1, 3);
    let mut path: Vec<u32> = Vec::new();
    ctw.update(1, &mut path).unwrap();
    assert_eq!(path, vec![0, 1]);
    assert_eq!(ctw.codelen(), 1 << 24);
    assert_eq!(ctw.node_count(), 2);
    assert_eq!(ctw.leaf_count(), 1);
    assert_eq!(ctw.stats().creations, 1);
    assert_eq!(ctw.stats().evictions, 0);
    assert_eq!(ctw.stats().peak_nodes, 2);
}

#[test]
fn code_length_of_zero_bytes_at_depth_zero() {
    assert_eq!(code_length(b"\x00", 0), (39_397_528, 1));
    assert_eq!(code_length(b"\x00\x00", 0), (47_597_254, 1));
}

#[test]
fn code_length_of_short_texts() {
    assert_eq!(code_length(b"ab", 3), (300_709_546, 14));
    assert_eq!(code_length(b"hello, hello", 4), (1_609_283_758, 31));
    assert_eq!(code_length(b"\xff", 2), (47_853_959, 6));
}

#[test]
fn runs_are_deterministic() {
    let data = b"abracadabra abracadabra";
    for victim in [Victim::Lfu, Victim::Ss, Victim::Random] {
        let mut a = Ctw::new(6, 10);
        a.configure(settings(victim, Birth::SpaceSaving));
        a.set_seed(42);
        feed(&mut a, data);
        let mut b = Ctw::new(6, 10);
        b.configure(settings(victim, Birth::SpaceSaving));
        b.set_seed(42);
        feed(&mut b, data);
        assert_eq!(a.codelen(), b.codelen());
        assert_eq!(a.node_count(), b.node_count());
        assert_eq!(a.stats().evictions, b.stats().evictions);
    }
}

#[test]
fn structure_stays_consistent_under_eviction() {
    let data = b"the quick brown fox jumps over the lazy dog; the quick brown fox";
    for victim in [Victim::Lfu, Victim::Ss, Victim::Random] {
        for birth in [Birth::Cold, Birth::SpaceSaving, Birth::Parent] {
            let mut ctw = Ctw::new(8, 12);
            ctw.configure(settings(victim, birth));
            feed(&mut ctw, data);
            assert!(ctw.check_invariants().is_ok());
            assert!(ctw.node_count() <= 12);
            assert!(ctw.stats().evictions > 0);
            assert_eq!(ctw.bits(), (data.len() * 8) as u64);
        }
    }
}

#[test]
fn distribution_sums_to_one_on_every_path() {
    let mut ctw = Ctw::new(10, 40);
    let mut s = settings(Victim::Lfu, Birth::Parent);
    s.verify_sum = true;
    ctw.configure(s);
    let mut path: Vec<u32> = Vec::new();
    for &byte in b"mississippi river, mississippi state".iter() {
        for k in (0..8).rev() {
            assert!(ctw.update(((byte >> k) & 1) as usize, &mut path).is_ok());
        }
    }
}

#[test]
fn smallest_budget_holds_one_full_path() {
    // depth + 2 nodes: one full path and a spare for the eviction pool
    let mut ctw = Ctw::new(2, 4);
    feed(&mut ctw, b"\x5a\xa5\x0f");
    assert!(ctw.node_count() <= 4);
    assert!(ctw.check_invariants().is_ok());
}

#[test]
fn lazy_threshold_truncates_at_the_root() {
    let mut ctw = Ctw::new(4, 100);
    let mut s = settings(Victim::Lfu, Birth::Cold);
    s.lazy_k = 1_000;
    ctw.configure(s);
    feed(&mut ctw, b"xyz");
    assert_eq!(ctw.node_count(), 1);
    assert_eq!(ctw.stats().trunc_lazy, 24);
    assert_eq!(ctw.codelen(), 438_730_723);

    let mut three = Ctw::new(4, 100);
    let mut s3 = settings(Victim::Lfu, Birth::Cold);
    s3.lazy_k = 3;
    three.configure(s3);
    feed(&mut three, b"xyz");
    assert_eq!(three.node_count(), 10);
    assert_eq!(three.stats().trunc_lazy, 24);
    assert_eq!(three.codelen(), 446_407_785);
}

#[test]
fn deterministic_nodes_are_not_split() {
    let mut ctw = Ctw::new(3, 100);
    let mut s = settings(Victim::Lfu, Birth::Cold);
    s.defer_det = true;
    s.det_k = 2;
    ctw.configure(s);
    feed(&mut ctw, &[0u8, 74u8]);
    assert_eq!(ctw.node_count(), 10);
    assert_eq!(ctw.stats().trunc_det, 1);
    assert_eq!(ctw.codelen(), 226_274_205);
}

#[test]
fn contexts_in_preorder() {
    let mut ctw = Ctw::new(2, 100);
    feed(&mut ctw, b"\xff");
    let c = ctw.contexts();
    let expected: Vec<Vec<u8>> = vec![b"0".to_vec(), b"00".to_vec(), b"1".to_vec(), b"10".to_vec(), b"11".to_vec()];
    assert_eq!(c, expected);
    let mut z = Ctw::new(2, 100);
    feed(&mut z, b"\x00");
    assert_eq!(z.contexts(), vec![b"0".to_vec(), b"00".to_vec()]);
}

#[test]
fn statistics_switch() {
    let mut ctw = Ctw::new(3, 10);
    assert!(ctw.enable_stats(1_000));
    let mut big = Ctw::new(3, 10);
    assert!(!big.enable_stats(u32::MAX as u64 + 1));
    feed(&mut ctw, b"abcabcabc");
    assert!(ctw.check_invariants().is_ok());
}

#[test]
fn split_by_ratio_values() {
    let p = Node { n: [1, 3], child: [0, 0], parent: 0, leaf_pos: NONE, prio: 0, evicted_slots: 0, logbeta: 0 };
    assert_eq!(split_by_ratio(10, &p), (2, 8));
    assert_eq!(split_by_ratio(0, &p), (0, 0));
    let empty = Node { n: [0, 0], ..p };
    assert_eq!(split_by_ratio(10, &empty), (0, 0));
    let skew = Node { n: [5, 0], ..p };
    assert_eq!(split_by_ratio(7, &skew), (7, 0));
}

#[test]
fn life_quantile_buckets() {
    let mut life = [0u64; 41];
    life[1] = 2;
    life[2] = 3;
    life[3] = 5;
    assert_eq!(life_quantiles(&life, 10), (2, 3));
    let none = [0u64; 41];
    assert_eq!(life_quantiles(&none, 10), (0, 0));
    // everything in bucket 0 (nodes evicted in the bit they were born)
    let mut first = [0u64; 41];
    first[0] = 4;
    assert_eq!(life_quantiles(&first, 4), (0, 0));
    // no evictions: nothing to reach, the first bucket already does
    assert_eq!(life_quantiles(&none, 0), (0, 0));
}
