use smart_teams::dataset::Dataset;
use smart_teams::validate::{check, describe, validate, Violation};

fn names(v: &[&str]) -> Vec<String> {
    v.iter().map(|s| s.to_string()).collect()
}

fn two_by_two(caps: Vec<usize>, prefs: Vec<Vec<usize>>) -> Dataset {
    Dataset::from_parts(names(&["Ann", "Ben"]), names(&["Red", "Blue"]), caps, prefs).unwrap()
}

#[test]
fn fresh_dataset_is_invalid() {
    let r = validate(&Dataset::new());
    assert!(!r.ok);
    assert_eq!(r.message, "User 1 has no preference for Team 1");
}

#[test]
fn rank_zero_is_rejected() {
    let ds = two_by_two(vec![1, 1], vec![vec![1, 2], vec![2, 0]]);
    assert_eq!(check(&ds), Err(Violation::NoPreference { user: 1, team: 1 }));
    let r = validate(&ds);
    assert!(!r.ok);
    assert_eq!(r.message, "Ben has no preference for Blue");
}

#[test]
fn rank_above_team_count_is_rejected() {
    let ds = two_by_two(vec![1, 1], vec![vec![3, 1], vec![1, 2]]);
    assert_eq!(check(&ds), Err(Violation::NoPreference { user: 0, team: 0 }));
}

#[test]
fn tied_ranks_are_rejected() {
    let ds = two_by_two(vec![1, 1], vec![vec![1, 2], vec![2, 2]]);
    assert_eq!(check(&ds), Err(Violation::DuplicatePreference { user: 1, team: 0, other: 1 }));
    let r = validate(&ds);
    assert_eq!(r.message, "Ben has duplicate preferences for Red and Blue");
}

#[test]
fn range_is_checked_before_later_ties() {
    let ds = two_by_two(vec![1, 1], vec![vec![1, 1], vec![0, 1]]);
    assert_eq!(check(&ds), Err(Violation::DuplicatePreference { user: 0, team: 0, other: 1 }));
    let ds = two_by_two(vec![1, 1], vec![vec![0, 1], vec![1, 1]]);
    assert_eq!(check(&ds), Err(Violation::NoPreference { user: 0, team: 0 }));
}

#[test]
fn zero_capacity_is_rejected() {
    let ds = two_by_two(vec![0, 2], vec![vec![1, 2], vec![2, 1]]);
    assert_eq!(check(&ds), Err(Violation::InvalidTeamSize { team: 0 }));
    assert_eq!(validate(&ds).message, "Red has invalid team size");
}

#[test]
fn capacity_above_user_count_is_rejected() {
    let ds = two_by_two(vec![1, 3], vec![vec![1, 2], vec![2, 1]]);
    assert_eq!(check(&ds), Err(Violation::InvalidTeamSize { team: 1 }));
}

#[test]
fn too_few_seats_are_rejected() {
    let ds = Dataset::from_parts(
        names(&["a", "b", "c"]),
        names(&["x"]),
        vec![2],
        vec![vec![1], vec![1], vec![1]],
    )
    .unwrap();
    assert_eq!(check(&ds), Err(Violation::InsufficientCapacity { total: 2, users: 3 }));
    let r = validate(&ds);
    assert!(!r.ok);
    assert_eq!(r.message, "Total team size (2) is less than number of users (3)");
}

#[test]
fn large_totals_are_written_in_decimal() {
    let v = Violation::InsufficientCapacity { total: 12, users: 105 };
    let ds = Dataset::new();
    assert_eq!(describe(&ds, v), "Total team size (12) is less than number of users (105)");
}

#[test]
fn permutation_rows_are_accepted() {
    let ds = two_by_two(vec![1, 1], vec![vec![1, 2], vec![2, 1]]);
    assert_eq!(check(&ds), Ok(()));
    let r = validate(&ds);
    assert!(r.ok);
    assert_eq!(r.message, "Preferences are valid!");
}

#[test]
fn empty_dataset_is_valid() {
    let ds = Dataset::from_parts(vec![], vec![], vec![], vec![]).unwrap();
    assert!(validate(&ds).ok);
}

#[test]
fn validating_twice_gives_the_same_result() {
    for prefs in [vec![vec![1, 2], vec![2, 1]], vec![vec![1, 1], vec![2, 1]]] {
        let ds = two_by_two(vec![1, 1], prefs);
        let a = validate(&ds);
        let b = validate(&ds);
        assert_eq!(a.ok, b.ok);
        assert_eq!(a.message, b.message);
    }
}
