use filmorator::models::{expand_ranking, ComparisonResult, Matchup, Session};
use uuid::Uuid;

#[test]
fn comparison_result_to_pairwise() {
    let result = ComparisonResult::new(
        Uuid::new_v4(),
        Uuid::new_v4(),
        vec![3, 1, 2], // 3 > 1 > 2
    );
    let pairs = result.to_pairwise();
    assert_eq!(pairs, vec![(3, 1), (3, 2), (1, 2)]);
}

#[test]
fn expand_ranking_counts_and_orders_facts() {
    let ranked = vec![4, 0, 9, 2];
    let pairs = expand_ranking(&ranked);
    assert_eq!(pairs.len(), 4 * 3 / 2);
    assert_eq!(pairs, vec![(4, 0), (4, 9), (4, 2), (0, 9), (0, 2), (9, 2)]);
    for (w, l) in pairs {
        let wi = ranked.iter().position(|&x| x == w).unwrap();
        let li = ranked.iter().position(|&x| x == l).unwrap();
        assert!(wi < li);
    }
}

#[test]
fn expand_ranking_of_short_rankings() {
    assert!(expand_ranking(&vec![]).is_empty());
    assert!(expand_ranking(&vec![5]).is_empty());
    assert_eq!(expand_ranking(&vec![5, 6]), vec![(5, 6)]);
}

#[test]
fn constructors_keep_their_arguments() {
    let session = Session::new();
    assert_eq!(session.created_at, session.last_active_at);
    let fresh = Session::default();
    assert_eq!(fresh.created_at, fresh.last_active_at);
    assert_ne!(fresh.id, session.id);
    let m = Matchup::new(session.id, vec![1, 2, 3], true);
    assert_eq!(m.session_id, session.id);
    assert_eq!(m.photo_indices, vec![1, 2, 3]);
    assert!(m.is_seed);
    let other = Matchup::new(session.id, vec![1, 2, 3], true);
    assert_ne!(m.id, other.id);
    let r = ComparisonResult::new(m.id, session.id, vec![2, 3, 1]);
    assert_eq!(r.matchup_id, m.id);
    assert_eq!(r.ranked_photo_indices, vec![2, 3, 1]);
}
