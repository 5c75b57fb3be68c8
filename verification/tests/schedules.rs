use sssp_rust::schedule::{least_index, round_orders};

#[test]
fn rounds_pair_a_shuffle_with_its_reverse() {
    let r = round_orders(7, 6, 42);
    assert_eq!(r.len(), 6);
    for (k, order) in r.iter().enumerate() {
        let mut sorted = order.clone();
        sorted.sort();
        assert_eq!(sorted, (0..7).collect::<Vec<_>>());
        if k % 2 == 1 {
            let mut back = r[k - 1].clone();
            back.reverse();
            assert_eq!(order, &back);
            // Each arm takes complementary positions in the pair.
            for arm in 0..7 {
                let p = r[k - 1].iter().position(|&x| x == arm).unwrap();
                let q = order.iter().position(|&x| x == arm).unwrap();
                assert_eq!(p + q, 6);
            }
        }
    }
    assert_eq!(round_orders(7, 6, 42), r);
    // The first round is shuffled, not left in index order.
    assert_ne!(r[0], (0..7).collect::<Vec<_>>());
    assert!(round_orders(0, 3, 1).iter().all(|o| o.is_empty()));
    assert!(round_orders(4, 0, 1).is_empty());
}

#[test]
fn least_index_takes_the_first_minimum() {
    assert_eq!(least_index(&[5, 3, 3, 7]), Some(1));
    assert_eq!(least_index(&[2]), Some(0));
    assert_eq!(least_index(&[9, 8, 7, 1]), Some(3));
    assert_eq!(least_index(&[]), None);
}

#[test]
fn round_orders_follow_the_seed() {
    // The shuffles come from the seeded stream: another seed gives another
    // schedule, the same seed the same one.
    assert_ne!(round_orders(9, 4, 42), round_orders(9, 4, 43));
    assert_eq!(round_orders(9, 4, 43), round_orders(9, 4, 43));
    // A longer schedule starts with the rounds of a shorter one.
    assert_eq!(round_orders(9, 6, 42)[..4], round_orders(9, 4, 42)[..]);
}
