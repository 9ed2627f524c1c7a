use filmorator::matchup::{
    completion_percent, extract_compared_pairs, generate_seed_matchups, normalize_pair,
    same_members, select_dynamic_matchup, total_pairs_needed,
};
use filmorator::progress::ProgressResponse;
use std::collections::{BTreeSet, HashSet};

#[test]
fn seed_matchups_produces_correct_size() {
    let matchups = generate_seed_matchups(10, 3);
    assert!(!matchups.is_empty());
    for matchup in &matchups {
        assert_eq!(matchup.len(), 3);
    }
}

#[test]
fn seed_matchups_cover_majority_of_pairs() {
    let matchups = generate_seed_matchups(12, 3);
    let mut seen: HashSet<(u32, u32)> = HashSet::new();

    for matchup in &matchups {
        for (i, &a) in matchup.iter().enumerate() {
            for &b in &matchup[i + 1..] {
                seen.insert(normalize_pair(a, b));
            }
        }
    }

    let coverage_percent = completion_percent(seen.len() as u64, 12);
    assert!(
        coverage_percent >= 50,
        "Coverage should be >= 50%, got {coverage_percent}%"
    );
}

#[test]
fn normalize_pair_orders_correctly() {
    assert_eq!(normalize_pair(5, 3), (3, 5));
    assert_eq!(normalize_pair(3, 5), (3, 5));
    assert_eq!(normalize_pair(2, 2), (2, 2));
}

#[test]
fn total_pairs_formula_correct() {
    assert_eq!(total_pairs_needed(10), 45);
    assert_eq!(total_pairs_needed(100), 4950);
}

#[test]
fn completion_percent_boundaries() {
    assert_eq!(completion_percent(0, 10), 0);
    assert_eq!(completion_percent(45, 10), 100);
    assert_eq!(completion_percent(22, 10), 48);
    assert_eq!(completion_percent(0, 0), 100);
}

#[test]
fn normalize_pair_is_symmetric() {
    for &(a, b) in &[(0u32, 0u32), (1, 7), (7, 1), (u32::MAX, 0), (9, 9)] {
        let r = normalize_pair(a, b);
        assert_eq!(r, normalize_pair(b, a));
        assert!(r.0 <= r.1);
    }
}

#[test]
fn total_pairs_small_and_large() {
    assert_eq!(total_pairs_needed(0), 0);
    assert_eq!(total_pairs_needed(1), 0);
    assert_eq!(total_pairs_needed(2), 1);
    assert_eq!(total_pairs_needed(u32::MAX), 9_223_372_030_412_324_865);
}

#[test]
fn completion_percent_caps_and_saturates() {
    assert_eq!(completion_percent(1000, 10), 100);
    assert_eq!(completion_percent(u64::MAX, 10), 100);
    assert_eq!(completion_percent(5, 1), 100);
    assert_eq!(completion_percent(1, 3), 33);
}

#[test]
fn progress_reports_totals_and_percent() {
    let p = ProgressResponse::new(22, 10);
    assert_eq!(p.compared_pairs, 22);
    assert_eq!(p.total_pairs, 45);
    assert_eq!(p.percent, 48);
}

#[test]
fn seed_matchups_empty_when_too_few_items() {
    assert!(generate_seed_matchups(0, 3).is_empty());
    assert!(generate_seed_matchups(2, 3).is_empty());
    assert!(generate_seed_matchups(0, 1).is_empty());
    assert!(generate_seed_matchups(0, 0).is_empty());
}

#[test]
fn seed_matchups_rounds_are_permutations() {
    // 12 items: ceil(log2(12)) + 1 = 5 rounds of 4 groups.
    let matchups = generate_seed_matchups(12, 3);
    assert_eq!(matchups.len(), 20);
    let mut shuffled = false;
    for round in matchups.chunks(4) {
        let flat: Vec<u32> = round.iter().flatten().copied().collect();
        let mut sorted = flat.clone();
        sorted.sort();
        assert_eq!(sorted, (0..12).collect::<Vec<u32>>());
        if flat != (0..12).collect::<Vec<u32>>() {
            shuffled = true;
        }
    }
    assert!(shuffled);
}

#[test]
fn seed_matchups_drop_short_trailing_group() {
    // 7 items: 4 rounds, each of 2 full groups of 3; one item left out per round.
    let matchups = generate_seed_matchups(7, 3);
    assert_eq!(matchups.len(), 8);
    for m in &matchups {
        assert_eq!(m.len(), 3);
        assert!(m.iter().all(|&i| i < 7));
        assert!(m[0] != m[1] && m[0] != m[2] && m[1] != m[2]);
    }
    // A single item gives one round.
    assert_eq!(generate_seed_matchups(1, 1).len(), 1);
}

#[test]
fn extract_compared_pairs_normalizes_and_dedups() {
    let set = extract_compared_pairs(&[(3, 1), (1, 3), (2, 2), (0, 4)]);
    let expected: BTreeSet<(u32, u32)> = [(1, 3), (2, 2), (0, 4)].into_iter().collect();
    assert_eq!(set, expected);
    assert!(extract_compared_pairs(&[]).is_empty());
}

#[test]
fn dynamic_matchup_none_when_too_few_candidates() {
    let compared = BTreeSet::new();
    assert_eq!(select_dynamic_matchup(&vec![0, 1], &compared, 3), None);
    assert_eq!(select_dynamic_matchup(&vec![], &compared, 1), None);
}

#[test]
fn dynamic_matchup_skips_fully_compared_candidates() {
    let compared: BTreeSet<(u32, u32)> = [(0, 1)].into_iter().collect();
    let r = select_dynamic_matchup(&vec![0, 1, 2, 3], &compared, 3);
    assert_eq!(r, Some(vec![0, 2, 3]));
}

#[test]
fn dynamic_matchup_falls_back_to_most_uncertain() {
    let compared = extract_compared_pairs(&[(0, 1), (0, 2), (0, 3), (1, 2), (1, 3), (2, 3)]);
    let r = select_dynamic_matchup(&vec![2, 0, 3, 1], &compared, 2);
    assert_eq!(r, Some(vec![2, 0]));
}

#[test]
fn dynamic_matchup_returns_distinct_group_of_size() {
    let compared = extract_compared_pairs(&[(4, 2), (2, 7)]);
    let order = vec![4, 2, 7, 9, 1, 5];
    let r = select_dynamic_matchup(&order, &compared, 3).unwrap();
    assert_eq!(r.len(), 3);
    let distinct: HashSet<u32> = r.iter().copied().collect();
    assert_eq!(distinct.len(), 3);
    assert_eq!(r, vec![4, 7, 9]);
}

#[test]
fn same_members_compares_index_sets() {
    assert!(same_members(&vec![1, 2, 3], &vec![3, 1, 2]));
    assert!(!same_members(&vec![1, 2, 3], &vec![3, 1, 4]));
    assert!(!same_members(&vec![1, 2, 3], &vec![1, 2]));
    assert!(!same_members(&vec![1, 2], &vec![1, 2, 3]));
    assert!(same_members(&vec![], &vec![]));
}
