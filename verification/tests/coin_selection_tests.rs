use btc_multisig::coin_selection::{rank_by_value, select_coins_ranked};
use btc_multisig::{select_coins, InsufficientFunds};

fn paid_fee(values: &[u64], inputs: &[usize], target: u64, change: u64) -> u64 {
    let total: u64 = inputs.iter().map(|&i| values[i]).sum();
    total - target - change
}

#[test]
fn ranking_puts_the_larger_first_and_keeps_the_order_of_equals() {
    assert_eq!(rank_by_value(&vec![]), Vec::<usize>::new());
    assert_eq!(rank_by_value(&vec![5]), vec![0]);
    assert_eq!(rank_by_value(&vec![1000, 7000, 2000, 4000]), vec![1, 3, 2, 0]);
    assert_eq!(rank_by_value(&vec![3, 9, 3, 9, 3]), vec![1, 3, 0, 2, 4]);
    assert_eq!(rank_by_value(&vec![2, 2, 2]), vec![0, 1, 2]);
}

#[test]
fn single_coin_with_change() {
    let selection = select_coins(&vec![10_000], 1000, 1).unwrap();
    assert_eq!(selection.inputs, vec![0]);
    assert_eq!(selection.change, 8625);
    assert_eq!(paid_fee(&[10_000], &selection.inputs, 1000, selection.change), 375);
}

#[test]
fn insufficient_funds_reports_both_amounts() {
    let shortfall = select_coins(&vec![500], 1000, 1).unwrap_err();
    assert_eq!(shortfall, InsufficientFunds { requested: 1341, available: 500 });
    let split = select_coins(&vec![200, 300], 1000, 1).unwrap_err();
    assert_eq!(split, InsufficientFunds { requested: 1341, available: 500 });
    let empty = select_coins(&vec![], 1000, 3).unwrap_err();
    assert_eq!(empty, InsufficientFunds { requested: 1132, available: 0 });
}

#[test]
fn a_selection_without_change_is_preferred() {
    let values = vec![5000, 1400, 3000];
    let selection = select_coins(&values, 1000, 1).unwrap();
    assert_eq!(selection.inputs, vec![1]);
    assert_eq!(selection.change, 0);
    assert_eq!(paid_fee(&values, &selection.inputs, 1000, 0), 400);
}

#[test]
fn branch_and_bound_tries_to_take_before_it_leaves() {
    let values = vec![3000, 3000, 3000];
    let selection = select_coins(&values, 5000, 1).unwrap();
    assert_eq!(selection.inputs, vec![0, 1]);
    assert_eq!(selection.change, 0);
}

#[test]
fn branch_and_bound_window_ends_below_the_dust_threshold() {
    // One input and one output cost 341; the surplus must stay below 546.
    assert_eq!(select_coins(&vec![1341], 1000, 1).unwrap().change, 0);
    assert_eq!(select_coins(&vec![1341 + 545], 1000, 1).unwrap().change, 0);
    // A surplus of 546 is no longer changeless; after the second output 512 are left: dust.
    let absorbed = select_coins(&vec![1341 + 546], 1000, 1).unwrap();
    assert_eq!(absorbed.inputs, vec![0]);
    assert_eq!(absorbed.change, 0);
    // 375 for one input and two outputs, and 546 of change.
    let change = select_coins(&vec![1000 + 375 + 546], 1000, 1).unwrap();
    assert_eq!(change.change, 546);
    let below = select_coins(&vec![1000 + 375 + 545], 1000, 1).unwrap();
    assert_eq!(below.change, 0);
    assert_eq!(select_coins(&vec![1340], 1000, 1).unwrap_err().requested, 1341);
}

#[test]
fn largest_first_takes_as_few_as_cover_the_target() {
    let values = vec![1000, 7000, 2000, 4000];
    let selection = select_coins(&values, 9000, 2).unwrap();
    assert_eq!(selection.inputs, vec![1, 3]);
    assert_eq!(selection.change, 656);
    assert_eq!(paid_fee(&values, &selection.inputs, 9000, 656), (10 + 2 * 297 + 2 * 34) * 2);
}

#[test]
fn coins_worth_less_than_their_fee_are_left() {
    let values = vec![200, 297, 10_000];
    let selection = select_coins(&values, 1000, 1).unwrap();
    assert_eq!(selection.inputs, vec![2]);
    let shortfall = select_coins(&values, 20_000, 1).unwrap_err();
    assert_eq!(shortfall, InsufficientFunds { requested: 20_000 + 10 + 297 + 34, available: 10_497 });
}

#[test]
fn at_no_fee_every_coin_counts() {
    let selection = select_coins(&vec![1, 2, 3], 6, 0).unwrap();
    assert_eq!(selection.inputs, vec![2, 1, 0]);
    assert_eq!(selection.change, 0);
    let zero = select_coins(&vec![0, 5], 5, 0).unwrap();
    assert_eq!(zero.inputs, vec![1]);
}

#[test]
fn amounts_beyond_the_range_are_clipped() {
    let shortfall = select_coins(&vec![u64::MAX, u64::MAX], u64::MAX, u64::MAX).unwrap_err();
    assert_eq!(shortfall, InsufficientFunds { requested: u64::MAX, available: u64::MAX });
    let large = select_coins(&vec![u64::MAX, u64::MAX], u64::MAX, 0).unwrap();
    assert_eq!(large.inputs, vec![0]);
    assert_eq!(large.change, 0);
}

#[test]
fn selection_over_a_given_ranking() {
    let values = vec![1000, 7000, 2000, 4000];
    let order = rank_by_value(&values);
    let selection = select_coins_ranked(&values, &order, 9000, 2).unwrap();
    assert_eq!(selection.inputs, vec![1, 3]);
    assert_eq!(selection.change, 656);
}

#[test]
fn fee_is_the_estimate_where_there_is_change() {
    let values = vec![40_000, 30_000, 20_000, 10_000];
    for (target, rate) in [(1000u64, 1u64), (45_000, 3), (60_000, 5), (85_000, 7)] {
        let selection = select_coins(&values, target, rate).unwrap();
        assert!(selection.change >= 546);
        let n = selection.inputs.len() as u64;
        let fee = paid_fee(&values, &selection.inputs, target, selection.change);
        assert_eq!(fee, (10 + 297 * n + 34 * 2) * rate);
    }
}
