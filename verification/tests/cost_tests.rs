use assignments::cost::cost;

#[test]
fn cost_follows_the_formula() {
    // ((num_slots - rank) * mult) ^ power
    assert_eq!(cost(0, 2, 4, 1), Some(8));
    assert_eq!(cost(1, 2, 4, 1), Some(4));
    assert_eq!(cost(0, 5, 3, 2), Some(225));
    assert_eq!(cost(2, 5, 3, 2), Some(81));
    assert_eq!(cost(4, 5, 1, 3), Some(1));
    assert_eq!(cost(1, 10, 2, 3), Some(5832));
}

#[test]
fn cost_with_power_zero_is_one() {
    assert_eq!(cost(0, 5, 3, 0), Some(1));
    assert_eq!(cost(5, 5, 3, 0), Some(1));
    assert_eq!(cost(0, usize::MAX, i64::MAX, 0), Some(1));
}

#[test]
fn cost_of_rank_equal_to_slots_is_zero() {
    assert_eq!(cost(5, 5, 3, 1), Some(0));
    assert_eq!(cost(5, 5, 3, 4000000000), Some(0));
}

#[test]
fn cost_with_base_one_ignores_the_power() {
    assert_eq!(cost(4, 5, 1, u32::MAX), Some(1));
}

#[test]
fn cost_handles_negative_bases() {
    assert_eq!(cost(0, 2, -4, 1), Some(-8));
    assert_eq!(cost(0, 2, -4, 2), Some(64));
    assert_eq!(cost(0, 2, -4, 3), Some(-512));
    assert_eq!(cost(3, 2, 4, 3), Some(-64));
    assert_eq!(cost(3, 2, -4, 3), Some(64));
    assert_eq!(cost(0, 1, -1, u32::MAX), Some(-1));
    assert_eq!(cost(0, 1, -1, u32::MAX - 1), Some(1));
}

#[test]
fn cost_reaches_both_ends_of_the_range() {
    assert_eq!(cost(0, 1, i64::MAX, 1), Some(i64::MAX));
    assert_eq!(cost(0, 1, i64::MIN, 1), Some(i64::MIN));
    assert_eq!(cost(0, 2, -1, 63), Some(i64::MIN));
    assert_eq!(cost(0, 2, 1, 62), Some(1 << 62));
}

#[test]
fn cost_is_none_where_it_does_not_fit() {
    assert_eq!(cost(0, 2, 1, 63), None);
    assert_eq!(cost(0, 2, 1, 64), None);
    assert_eq!(cost(0, 2, -1, 64), None);
    assert_eq!(cost(0, 2, -1, 65), None);
    assert_eq!(cost(0, 2, i64::MAX, 1), None);
    assert_eq!(cost(0, 2, i64::MIN, 1), None);
    assert_eq!(cost(0, usize::MAX, i64::MIN, 7), None);
    assert_eq!(cost(0, 10, 10, 19), None);
    assert_eq!(cost(0, 10, 10, u32::MAX), None);
    assert_eq!(cost(0, 3037000500, 1, 2), None);
    assert_eq!(cost(0, 3037000499, 1, 2), Some(9223372030926249001));
}

#[test]
fn differential_grows_with_mult() {
    // Ranks 0 and 2 of 5 slots, power 2.
    let mut last: i64 = 0;
    for mult in 1..20i64 {
        let gap = cost(0, 5, mult, 2).unwrap() - cost(2, 5, mult, 2).unwrap();
        assert!(gap >= last);
        last = gap;
    }
    assert_eq!(cost(0, 5, 3, 2).unwrap() - cost(2, 5, 3, 2).unwrap(), 144);
}

#[test]
fn differential_grows_with_power() {
    let mut last: i64 = 0;
    for power in 0..12u32 {
        let gap = cost(1, 6, 2, power).unwrap() - cost(4, 6, 2, power).unwrap();
        assert!(gap >= last);
        last = gap;
    }
    assert_eq!(cost(1, 6, 2, 3).unwrap() - cost(4, 6, 2, 3).unwrap(), 936);
}

#[test]
fn weight_falls_as_rank_rises() {
    for power in 1..4u32 {
        for rank in 0..6usize {
            assert!(cost(rank, 7, 4, power).unwrap() > cost(rank + 1, 7, 4, power).unwrap());
        }
    }
}
