use filmorator::ranking::BradleyTerry;

#[test]
fn new_rejects_counts_beyond_index_range() {
    assert!(BradleyTerry::new((u32::MAX as usize) + 1).is_none());
    let bt = BradleyTerry::new(0).unwrap();
    assert_eq!(bt.num_items(), 0);
    assert_eq!(bt.total_comparisons(), 0);
}

#[test]
fn record_comparison_updates_counts() {
    let mut bt = BradleyTerry::new(3).unwrap();
    bt.record_comparison(0, 1);
    bt.record_comparison(0, 2);
    bt.record_comparison(1, 2);
    assert_eq!(bt.total_comparisons(), 3);
    assert_eq!(bt.wins_between(0, 1), 1);
    assert_eq!(bt.wins_between(1, 0), 0);
    assert_eq!(bt.comparisons_between(0, 1), 1);
    assert_eq!(bt.comparisons_between(1, 0), 1);
    assert_eq!(bt.total_wins(0), 2);
    assert_eq!(bt.total_wins(1), 1);
    assert_eq!(bt.total_wins(2), 0);
    assert_eq!(bt.item_comparisons(0), 2);
    assert_eq!(bt.item_comparisons(2), 2);
}

#[test]
fn out_of_range_facts_are_ignored() {
    let mut bt = BradleyTerry::new(2).unwrap();
    bt.record_comparison(0, 2);
    bt.record_comparison(5, 1);
    assert_eq!(bt.total_comparisons(), 0);
    assert_eq!(bt.item_comparisons(0), 0);
    assert_eq!(bt.total_wins(0), 0);
}

#[test]
fn record_comparisons_records_each_fact() {
    let mut bt = BradleyTerry::new(3).unwrap();
    bt.record_comparisons(&[(2, 0), (2, 0), (1, 0), (7, 0)]);
    assert_eq!(bt.total_comparisons(), 3);
    assert_eq!(bt.wins_between(2, 0), 2);
    assert_eq!(bt.total_wins(2), 2);
    assert_eq!(bt.item_comparisons(0), 3);
}

#[test]
fn item_comparisons_grow_with_records() {
    let mut bt = BradleyTerry::new(3).unwrap();
    let initial = bt.item_comparisons(0);
    assert_eq!(initial, 0);
    bt.record_comparison(0, 1);
    let after_first = bt.item_comparisons(0);
    assert!(after_first > initial);
    bt.record_comparison(1, 2);
    assert_eq!(bt.item_comparisons(0), after_first);
    bt.record_comparison(2, 0);
    assert!(bt.item_comparisons(0) > after_first);
}

#[test]
fn self_comparison_counts_twice_for_the_item() {
    let mut bt = BradleyTerry::new(2).unwrap();
    bt.record_comparison(1, 1);
    assert_eq!(bt.comparisons_between(1, 1), 2);
    assert_eq!(bt.item_comparisons(1), 2);
    assert_eq!(bt.total_wins(1), 1);
}

#[test]
fn opponents_lists_met_items_in_index_order() {
    let mut bt = BradleyTerry::new(4).unwrap();
    bt.record_comparisons(&[(3, 1), (1, 3), (1, 0), (2, 2)]);
    assert_eq!(bt.opponents(1), vec![(0, 1), (3, 2)]);
    assert_eq!(bt.opponents(2), vec![]);
    assert_eq!(bt.opponents(0), vec![(1, 1)]);
}
