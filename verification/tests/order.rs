//! The order a scan asks in.

use zond_engine::model::order::Permutation;

/// The one property everything else rests on, over every awkward length there is:
/// one either side of each power of two.
#[test]
fn is_a_permutation_of_the_whole_domain() {
    let mut lengths: Vec<u64> = (0..=64).collect();
    for power in 3..14u32 {
        let size = 1u64 << power;
        lengths.extend([size - 1, size, size + 1]);
    }

    for len in lengths {
        for seed in [0, 1, 0x5EED, u64::MAX] {
            let order = Permutation::new(seed, len);
            let mut asked: Vec<u64> = order.iter().collect();

            assert_eq!(asked.len() as u64, len, "len {len}, seed {seed}");
            asked.sort_unstable();
            assert!(
                asked.iter().copied().eq(0..len),
                "len {len}, seed {seed}: a target was asked twice or not at all"
            );
        }
    }
}

#[test]
fn a_seed_names_the_same_order_every_time() {
    let once: Vec<u64> = Permutation::new(0xC0FFEE, 5_000).iter().collect();
    let again: Vec<u64> = Permutation::new(0xC0FFEE, 5_000).iter().collect();

    assert_eq!(once, again);
}

#[test]
fn two_seeds_name_different_orders() {
    let one: Vec<u64> = Permutation::new(1, 5_000).iter().collect();
    let other: Vec<u64> = Permutation::new(2, 5_000).iter().collect();

    assert_ne!(one, other);
}

/// A scan asking positions 0, 1, 2 in turn must not be walking the plan in address
/// order at any grain, so consecutive questions have to land far apart.
#[test]
fn consecutive_questions_land_in_unrelated_parts_of_the_plan() {
    const LEN: u64 = 65_536;
    const NEAR: u64 = 256;

    let asked: Vec<u64> = Permutation::new(0x5EED, LEN).iter().collect();
    let near = asked
        .windows(2)
        .filter(|pair| pair[0].abs_diff(pair[1]) < NEAR)
        .count();

    assert!(
        near < 2_000,
        "{near} of {} consecutive pairs landed within {NEAR} of each other, \
         which is a walk rather than a rearrangement",
        asked.len() - 1
    );
}

#[test]
fn a_range_too_small_to_rearrange_is_the_identity() {
    assert!(Permutation::new(7, 0).iter().next().is_none());
    assert_eq!(Permutation::new(7, 1).iter().collect(), vec![0]);
    assert!(Permutation::new(7, 0).is_empty());
}

#[test]
fn an_index_past_the_end_names_no_position() {
    let order = Permutation::new(3, 10);

    assert!(order.at(9).is_some());
    assert_eq!(order.at(10), None);
    assert_eq!(order.at(u64::MAX), None);
}

#[test]
fn index_of_undoes_at_over_every_awkward_length() {
    for len in [0u64, 1, 2, 3, 7, 8, 9, 255, 256, 257, 1_000, 4_097] {
        for seed in [0, 0x5EED, u64::MAX] {
            let order = Permutation::new(seed, len);
            for index in 0..len {
                let position = order.at(index).expect("inside the range");
                assert_eq!(
                    order.index_of(position),
                    Some(index),
                    "len {len}, seed {seed}, index {index}"
                );
            }
            assert_eq!(order.index_of(len), None, "len {len}: past the end");
        }
    }
}

#[test]
fn index_of_undoes_at_in_the_widest_range() {
    let order = Permutation::new(0x5EED, u64::MAX);
    for index in [0, 1, 2, u64::MAX / 2, u64::MAX - 1] {
        let position = order.at(index).expect("inside the range");
        assert_eq!(order.index_of(position), Some(index));
    }
}

#[test]
fn a_walk_resumed_part_way_asks_the_rest_in_the_same_order() {
    let order = Permutation::new(0xC0FFEE, 1_000);
    let whole: Vec<u64> = order.iter().collect();

    assert_eq!(order.iter_from(417).collect(), whole[417..]);
    assert_eq!(order.iter_from(5_000).collect().len(), 0);
}

#[test]
fn the_widest_range_rearranges_without_overflowing_a_shift() {
    let order = Permutation::new(0x5EED, u64::MAX);

    assert_eq!(order.len(), u64::MAX);
    for index in [0, 1, 2, u64::MAX / 2, u64::MAX - 1] {
        let position = order.at(index).expect("inside the range");
        assert!(position < u64::MAX);
    }
}

#[test]
fn a_permutation_keeps_the_seed_it_was_made_with() {
    assert_eq!(Permutation::new(0xC0FFEE, 12).seed(), 0xC0FFEE);
}
