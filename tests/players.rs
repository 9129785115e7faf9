use rating_service::players::group_players;

#[test]
fn players_are_numbered_by_first_appearance() {
    let (g, n) = group_players(&vec![7, 3, 7, 9, 3, 7]);
    assert_eq!(n, 3);
    assert_eq!(g, vec![0, 1, 0, 2, 1, 0]);
}

#[test]
fn no_records_make_no_groups() {
    let (g, n) = group_players(&vec![]);
    assert_eq!(n, 0);
    assert!(g.is_empty());
}
