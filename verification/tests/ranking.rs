use dorm_report::rank::{compute_ranks, RankScale};

#[test]
fn dense_ranks_share_ties_and_skip_nothing() {
    let totals = vec![("a", -3), ("b", 0), ("c", 0), ("d", -1)];
    let ranks = compute_ranks(&totals);
    let got: Vec<(&str, i64)> = ranks.iter().map(|(k, r)| (**k, *r)).collect();
    assert_eq!(got, vec![("a", 3), ("b", 1), ("c", 1), ("d", 2)]);
}

#[test]
fn no_totals_give_no_ranks() {
    let totals: Vec<(u8, i32)> = Vec::new();
    assert!(compute_ranks(&totals).is_empty());
}

#[test]
fn a_large_tie_does_not_push_the_next_rank() {
    let totals = vec![(1u8, 0), (2, 0), (3, 0), (4, 0), (5, -1), (6, -2), (7, -2)];
    let ranks: Vec<i64> = compute_ranks(&totals).iter().map(|(_, r)| *r).collect();
    assert_eq!(ranks, vec![1, 1, 1, 1, 2, 3, 3]);
}

#[test]
fn ranks_do_not_depend_on_the_order_of_the_pairs() {
    let totals = vec![(1u8, -2), (2, 0), (3, -1), (4, -2)];
    let ranks: Vec<i64> = compute_ranks(&totals).iter().map(|(_, r)| *r).collect();
    assert_eq!(ranks, vec![3, 1, 2, 3]);
}

#[test]
fn assigned_ranks_are_one_to_the_number_of_distinct_totals() {
    let totals = vec![(1u8, -5), (2, -5), (3, -9), (4, 0), (5, -1), (6, -1)];
    let mut ranks: Vec<i64> = compute_ranks(&totals).iter().map(|(_, r)| *r).collect();
    ranks.sort();
    ranks.dedup();
    assert_eq!(ranks, vec![1, 2, 3, 4]);
}

#[test]
fn ranks_keep_the_keys_in_the_order_given() {
    let totals = vec![("x", 3), ("y", 7)];
    let ranks = compute_ranks(&totals);
    assert_eq!(*ranks[0].0, "x");
    assert_eq!(*ranks[1].0, "y");
    assert_eq!(ranks[0].1, 2);
    assert_eq!(ranks[1].1, 1);
}

#[test]
fn a_scale_ranks_a_total_it_does_not_hold() {
    let mut scale = RankScale::new();
    scale.add(0);
    scale.add(-4);
    scale.add(0);
    assert!(scale.contains(-4));
    assert!(!scale.contains(-2));
    assert_eq!(scale.rank_of(0), 1);
    assert_eq!(scale.rank_of(-2), 2);
    assert_eq!(scale.rank_of(-4), 2);
    assert_eq!(scale.rank_of(-7), 3);
    assert_eq!(scale.rank_of(5), 1);
}
