use smart_teams::dataset::Dataset;

fn names(v: &[&str]) -> Vec<String> {
    v.iter().map(|s| s.to_string()).collect()
}

#[test]
fn new_dataset_has_two_users_and_two_teams() {
    let ds = Dataset::new();
    assert_eq!(ds.users(), &names(&["User 1", "User 2"]));
    assert_eq!(ds.teams(), &names(&["Team 1", "Team 2"]));
    assert_eq!(ds.capacities(), &vec![1, 1]);
    assert_eq!(ds.preferences(), &vec![vec![0, 0], vec![0, 0]]);
}

#[test]
fn from_parts_rejects_ragged_tables() {
    let ok = Dataset::from_parts(names(&["a"]), names(&["x", "y"]), vec![1, 1], vec![vec![1, 2]]);
    assert!(ok.is_some());
    let short_row = Dataset::from_parts(names(&["a"]), names(&["x", "y"]), vec![1, 1], vec![vec![1]]);
    assert!(short_row.is_none());
    let missing_row = Dataset::from_parts(names(&["a", "b"]), names(&["x"]), vec![1], vec![vec![1]]);
    assert!(missing_row.is_none());
    let missing_capacity = Dataset::from_parts(names(&["a"]), names(&["x"]), vec![], vec![vec![1]]);
    assert!(missing_capacity.is_none());
}

#[test]
fn add_user_appends_numbered_name_and_blank_row() {
    let mut ds = Dataset::new();
    ds.add_user();
    assert_eq!(ds.users(), &names(&["User 1", "User 2", "User 3"]));
    assert_eq!(ds.preferences(), &vec![vec![0, 0], vec![0, 0], vec![0, 0]]);
    assert_eq!(ds.capacities(), &vec![1, 1]);
    for _ in 0..8 {
        ds.add_user();
    }
    assert_eq!(ds.users()[10], "User 11");
}

#[test]
fn add_team_appends_column_and_unit_capacity() {
    let mut ds = Dataset::new();
    ds.add_team();
    assert_eq!(ds.teams(), &names(&["Team 1", "Team 2", "Team 3"]));
    assert_eq!(ds.capacities(), &vec![1, 1, 1]);
    assert_eq!(ds.preferences(), &vec![vec![0, 0, 0], vec![0, 0, 0]]);
}

#[test]
fn rename_changes_one_name_and_ignores_bad_index() {
    let mut ds = Dataset::new();
    ds.rename_user(1, "Bob".to_string());
    ds.rename_team(0, "Red".to_string());
    ds.rename_user(7, "Nobody".to_string());
    ds.rename_team(7, "Nothing".to_string());
    assert_eq!(ds.users(), &names(&["User 1", "Bob"]));
    assert_eq!(ds.teams(), &names(&["Red", "Team 2"]));
}

#[test]
fn remove_user_drops_its_row_only() {
    let mut ds = Dataset::from_parts(
        names(&["a", "b", "c"]),
        names(&["x", "y"]),
        vec![2, 1],
        vec![vec![1, 2], vec![2, 1], vec![1, 2]],
    )
    .unwrap();
    ds.remove_user(1);
    assert_eq!(ds.users(), &names(&["a", "c"]));
    assert_eq!(ds.preferences(), &vec![vec![1, 2], vec![1, 2]]);
    assert_eq!(ds.capacities(), &vec![2, 1]);
    assert_eq!(ds.teams(), &names(&["x", "y"]));
}

#[test]
fn remove_team_drops_its_column_and_capacity() {
    let mut ds = Dataset::from_parts(
        names(&["a", "b"]),
        names(&["x", "y", "z"]),
        vec![1, 2, 3],
        vec![vec![1, 2, 3], vec![3, 2, 1]],
    )
    .unwrap();
    ds.remove_team(0);
    assert_eq!(ds.teams(), &names(&["y", "z"]));
    assert_eq!(ds.capacities(), &vec![2, 3]);
    assert_eq!(ds.preferences(), &vec![vec![2, 3], vec![2, 1]]);
}

#[test]
fn set_cells_change_one_value() {
    let mut ds = Dataset::new();
    ds.set_preference(1, 0, 2);
    ds.set_capacity(1, 2);
    assert_eq!(ds.preferences(), &vec![vec![0, 0], vec![2, 0]]);
    assert_eq!(ds.capacities(), &vec![1, 2]);
}
