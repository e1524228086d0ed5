use similarity_calibration::baseline::{
    corpus_pairs, median, resolve_baseline, sort_ascending, Baseline, Median, MIN_CORPUS,
};
use similarity_calibration::order::{key_bits, order_key, SIGN_BIT};

#[test]
fn no_baseline_pairs_for_fewer_than_three_vectors() {
    assert_eq!(MIN_CORPUS, 3);
    assert_eq!(corpus_pairs(0), None);
    assert_eq!(corpus_pairs(1), None);
    assert_eq!(corpus_pairs(2), None);
}

#[test]
fn three_vectors_give_three_pairs() {
    assert_eq!(corpus_pairs(3), Some(vec![(0, 1), (0, 2), (1, 2)]));
}

#[test]
fn four_vectors_give_six_pairs_in_order() {
    assert_eq!(
        corpus_pairs(4),
        Some(vec![(0, 1), (0, 2), (0, 3), (1, 2), (1, 3), (2, 3)])
    );
}

#[test]
fn pair_count_is_n_times_n_minus_one_over_two() {
    for n in 3usize..40 {
        let pairs = corpus_pairs(n).unwrap();
        assert_eq!(pairs.len(), n * (n - 1) / 2);
        for w in pairs.windows(2) {
            assert!(w[0] < w[1]);
        }
        for &(i, j) in pairs.iter() {
            assert!(i < j && j < n);
        }
    }
}

#[test]
fn keys_of_known_patterns() {
    assert_eq!(SIGN_BIT, 0x8000_0000);
    assert_eq!(order_key(0), 0x8000_0000);
    assert_eq!(order_key(1), 0x8000_0001);
    assert_eq!(order_key(0x7fff_ffff), 0xffff_ffff);
    assert_eq!(order_key(0x8000_0000), 0x7fff_ffff);
    assert_eq!(order_key(0x8000_0001), 0x7fff_fffe);
    assert_eq!(order_key(0xffff_ffff), 0);
    assert_eq!(order_key(1.0f32.to_bits()), 0xbf80_0000);
    assert_eq!(order_key((-1.0f32).to_bits()), 0x407f_ffff);
}

#[test]
fn key_and_pattern_round_trip() {
    let patterns = [
        0u32,
        1,
        0x3f80_0000,
        0x7f7f_ffff,
        0x7f80_0000,
        0x7fff_ffff,
        0x8000_0000,
        0x8000_0001,
        0xbf80_0000,
        0xff80_0000,
        0xffff_ffff,
    ];
    for &p in patterns.iter() {
        assert_eq!(key_bits(order_key(p)), p);
        assert_eq!(order_key(key_bits(p)), p);
    }
}

#[test]
fn keys_follow_the_order_of_the_numbers() {
    let ascending = [
        f32::NEG_INFINITY,
        -3.5e10,
        -1.0,
        -0.75,
        -1.0e-20,
        -0.0,
        0.0,
        1.0e-30,
        0.2,
        0.5,
        0.999_999_9,
        1.0,
        65535.0,
        f32::INFINITY,
    ];
    for w in ascending.windows(2) {
        assert!(w[0] <= w[1]);
        assert!(order_key(w[0].to_bits()) < order_key(w[1].to_bits()));
    }
}

#[test]
fn sorting_puts_keys_in_ascending_order() {
    let keys = vec![5u32, 1, 4, 1, 0xffff_ffff, 0, 3];
    assert_eq!(sort_ascending(&keys), vec![0, 1, 1, 3, 4, 5, 0xffff_ffff]);
    assert_eq!(sort_ascending(&Vec::new()), Vec::<u32>::new());
    assert_eq!(sort_ascending(&vec![9]), vec![9]);
}

#[test]
fn sorting_agrees_with_the_standard_sort() {
    let mut state: u32 = 12345;
    for len in 0usize..60 {
        let mut keys = Vec::new();
        for _ in 0..len {
            state = state.wrapping_mul(1_664_525).wrapping_add(1_013_904_223);
            keys.push(state >> 20);
        }
        let mut expected = keys.clone();
        expected.sort();
        assert_eq!(sort_ascending(&keys), expected);
    }
}

#[test]
fn median_of_nothing_is_none() {
    assert_eq!(median(&Vec::new()), None);
}

#[test]
fn median_of_an_odd_sample_is_the_middle_member() {
    assert_eq!(median(&vec![7]), Some(Median::Middle(7)));
    assert_eq!(median(&vec![7, 3, 5]), Some(Median::Middle(5)));
    assert_eq!(median(&vec![9, 9, 1, 1, 9]), Some(Median::Middle(9)));
}

#[test]
fn median_of_an_even_sample_is_between_the_two_middle_members() {
    assert_eq!(median(&vec![4, 2]), Some(Median::Between(2, 4)));
    assert_eq!(median(&vec![8, 2, 6, 4]), Some(Median::Between(4, 6)));
    assert_eq!(median(&vec![3, 3, 3, 3]), Some(Median::Between(3, 3)));
}

#[test]
fn median_of_similarities_through_their_keys() {
    let odd = [0.1f32, 0.9, 0.5];
    let keys: Vec<u32> = odd.iter().map(|x| order_key(x.to_bits())).collect();
    match median(&keys) {
        Some(Median::Middle(k)) => assert_eq!(f32::from_bits(key_bits(k)), 0.5),
        other => panic!("unexpected median {:?}", other),
    }
    let even = [0.4f32, -0.1, 0.3, 0.2];
    let keys: Vec<u32> = even.iter().map(|x| order_key(x.to_bits())).collect();
    match median(&keys) {
        Some(Median::Between(a, b)) => {
            let low = f32::from_bits(key_bits(a));
            let high = f32::from_bits(key_bits(b));
            assert_eq!(low, 0.2);
            assert_eq!(high, 0.3);
            assert_eq!(0.5 * (low + high), 0.25);
        }
        other => panic!("unexpected median {:?}", other),
    }
}

#[test]
fn median_of_the_pairwise_sample_of_three_vectors() {
    let pairs = corpus_pairs(3).unwrap();
    let similarity = [[1.0f32, -1.0, 1.0], [-1.0, 1.0, -1.0], [1.0, -1.0, 1.0]];
    let keys: Vec<u32> = pairs
        .iter()
        .map(|&(i, j)| order_key(similarity[i][j].to_bits()))
        .collect();
    assert_eq!(
        median(&keys),
        Some(Median::Middle(order_key((-1.0f32).to_bits())))
    );
}

#[test]
fn median_stays_within_the_range_of_the_sample() {
    let low = order_key((-1.0f32).to_bits());
    let high = order_key(1.0f32.to_bits());
    let sample = [0.25f32, -1.0, 1.0, 0.0, -0.5, 0.75, 0.1];
    for len in 1..=sample.len() {
        let keys: Vec<u32> = sample[..len].iter().map(|x| order_key(x.to_bits())).collect();
        match median(&keys).unwrap() {
            Median::Middle(m) => assert!(low <= m && m <= high),
            Median::Between(a, b) => assert!(low <= a && a <= b && b <= high),
        }
    }
}

#[test]
fn an_estimate_is_taken_where_there_is_one() {
    let b = resolve_baseline(Some(0.35f32), 0.20);
    assert_eq!(b, Baseline::Estimated(0.35));
    assert!(!b.is_fallback());
    assert_eq!(b.value(), 0.35);
}

#[test]
fn the_default_stands_in_for_a_missing_estimate() {
    let b = resolve_baseline(None, 0.20f32);
    assert_eq!(b, Baseline::Fallback(0.20));
    assert!(b.is_fallback());
    assert_eq!(b.value(), 0.20);
}
