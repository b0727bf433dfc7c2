use knights_tour::choice::{weighted_choice, DRAWS, MAX_ITEMS};

const HALF: u32 = 1 << 31;

#[test]
fn constants_of_a_draw() {
    assert_eq!(DRAWS, 1u64 << 32);
    assert_eq!(MAX_ITEMS, u32::MAX as usize);
}

#[test]
fn no_item_no_choice() {
    assert_eq!(weighted_choice(&vec![], 0), None);
    assert_eq!(weighted_choice(&vec![], u32::MAX), None);
}

#[test]
fn single_item_is_always_chosen() {
    assert_eq!(weighted_choice(&vec![5], 0), Some(0));
    assert_eq!(weighted_choice(&vec![5], u32::MAX), Some(0));
    assert_eq!(weighted_choice(&vec![0], HALF), Some(0));
}

#[test]
fn two_equal_weights_split_the_draws_in_half() {
    let weights = vec![7, 7];
    assert_eq!(weighted_choice(&weights, 0), Some(0));
    assert_eq!(weighted_choice(&weights, HALF), Some(0));
    assert_eq!(weighted_choice(&weights, HALF + 1), Some(1));
    assert_eq!(weighted_choice(&weights, u32::MAX), Some(1));
}

#[test]
fn shares_follow_the_weights() {
    let weights = vec![3, 1];
    let three_quarters: u32 = 3 << 30;
    assert_eq!(weighted_choice(&weights, three_quarters), Some(0));
    assert_eq!(weighted_choice(&weights, three_quarters + 1), Some(1));
    let weights = vec![1, 2, 1];
    let quarter: u32 = 1 << 30;
    assert_eq!(weighted_choice(&weights, quarter), Some(0));
    assert_eq!(weighted_choice(&weights, quarter + 1), Some(1));
    assert_eq!(weighted_choice(&weights, three_quarters), Some(1));
    assert_eq!(weighted_choice(&weights, three_quarters + 1), Some(2));
}

#[test]
fn zero_draw_stops_at_the_first_item() {
    assert_eq!(weighted_choice(&vec![0, 5], 0), Some(0));
    assert_eq!(weighted_choice(&vec![0, 5], 1), Some(1));
    assert_eq!(weighted_choice(&vec![0, 0, 9], 1), Some(2));
}

#[test]
fn zero_weight_item_after_the_first_is_never_chosen() {
    let weights = vec![4, 0, 4];
    assert_eq!(weighted_choice(&weights, HALF), Some(0));
    assert_eq!(weighted_choice(&weights, HALF + 1), Some(2));
    assert_eq!(weighted_choice(&weights, u32::MAX), Some(2));
}

#[test]
fn all_zero_weights_fall_back_to_a_uniform_choice() {
    let weights = vec![0, 0, 0, 0];
    let quarter: u32 = 1 << 30;
    assert_eq!(weighted_choice(&weights, 0), Some(0));
    assert_eq!(weighted_choice(&weights, quarter), Some(0));
    assert_eq!(weighted_choice(&weights, quarter + 1), Some(1));
    assert_eq!(weighted_choice(&weights, 2 * quarter), Some(1));
    assert_eq!(weighted_choice(&weights, 2 * quarter + 1), Some(2));
    assert_eq!(weighted_choice(&weights, 3 * quarter + 1), Some(3));
    assert_eq!(weighted_choice(&weights, u32::MAX), Some(3));
}

#[test]
fn equal_weights_give_equal_shares() {
    for n in 1..=8usize {
        let weights = vec![1u64 << 40; n];
        let mut counts = vec![0u32; n];
        let draws: u32 = 8 * 3 * 5 * 7;
        for i in 0..draws {
            let draw = ((i as u64 * (1u64 << 32) + (1u64 << 31)) / draws as u64) as u32;
            counts[weighted_choice(&weights, draw).unwrap()] += 1;
        }
        for count in counts {
            assert_eq!(count, draws / n as u32);
        }
    }
}

#[test]
fn largest_weights_do_not_overflow() {
    let weights = vec![u64::MAX; 8];
    assert_eq!(weighted_choice(&weights, 0), Some(0));
    assert_eq!(weighted_choice(&weights, HALF), Some(3));
    assert_eq!(weighted_choice(&weights, HALF + 1), Some(4));
    assert_eq!(weighted_choice(&weights, u32::MAX), Some(7));
}
