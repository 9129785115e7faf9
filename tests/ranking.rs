use rating_service::ranking::{active_positions, is_active, latest, penalty_ratio, positions, text_less};

#[test]
fn ten_records_carry_no_penalty() {
    assert_eq!(penalty_ratio(10), (1, 1));
    assert_eq!(penalty_ratio(25), (1, 1));
}

#[test]
fn five_records_halve_the_rating() {
    let (num, den) = penalty_ratio(5);
    assert_eq!((num, den), (5, 10));
    let rating = 812.25_f64;
    assert_eq!(rating * (num as f64 / den as f64), rating * 0.5);
}

#[test]
fn positions_follow_descending_keys_with_tie_breaks() {
    let keys = vec![10, 30, 20, 30, 30];
    let ties = vec![0, 7, 0, 3, 7];
    assert_eq!(positions(&keys, &ties), vec![5, 2, 4, 1, 3]);
}

#[test]
fn positions_of_empty_input() {
    assert_eq!(positions(&vec![], &vec![]), Vec::<usize>::new());
}

#[test]
fn active_positions_rank_only_recent_players() {
    let keys = vec![50, 40, 30];
    let ties = vec![1, 2, 3];
    let last = vec![
        "2024-01-01 00:00:00".to_string(),
        "2024-06-01 12:00:00".to_string(),
        "2024-05-01 00:00:00".to_string(),
    ];
    assert_eq!(active_positions(&keys, &ties, &last, "2024-05-01 00:00:00"), vec![0, 1, 2]);
}

#[test]
fn text_order_is_lexicographic() {
    assert!(text_less("2024-01-01 00:00:00", "2024-01-02 00:00:00"));
    assert!(!text_less("b", "ab"));
    assert!(text_less("ab", "abc"));
    assert!(!text_less("", ""));
    assert!(is_active("2024-03-01 00:00:00", "2024-03-01 00:00:00"));
    assert!(!is_active("2024-02-29 23:59:59", "2024-03-01 00:00:00"));
}

#[test]
fn latest_picks_the_greatest_date() {
    let dates = vec![
        "2023-12-31 23:59:59".to_string(),
        "2024-02-01 08:00:00".to_string(),
        "2024-01-15 10:00:00".to_string(),
    ];
    assert_eq!(latest(&dates), "2024-02-01 08:00:00");
}

#[test]
fn ranks_are_reproducible_and_distinct() {
    let keys = vec![7, 7, 7, 2];
    let ties = vec![4, 4, 1, 0];
    let last = vec!["2024-02-01 00:00:00".to_string(); 4];
    let first = positions(&keys, &ties);
    assert_eq!(first, positions(&keys, &ties));
    assert_eq!(first, vec![2, 3, 1, 4]);
    let active = active_positions(&keys, &ties, &last, "2024-01-01 00:00:00");
    assert_eq!(active, active_positions(&keys, &ties, &last, "2024-01-01 00:00:00"));
    assert_eq!(active, first);
}
