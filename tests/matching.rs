use smart_teams::dataset::Dataset;
use smart_teams::matching::{deferred_acceptance, match_names, match_teams, roster_names};
use smart_teams::validate::Violation;

fn names(v: &[&str]) -> Vec<String> {
    v.iter().map(|s| s.to_string()).collect()
}

fn numbered(prefix: &str, n: usize) -> Vec<String> {
    (1..=n).map(|i| format!("{} {}", prefix, i)).collect()
}

fn dataset(caps: Vec<usize>, prefs: Vec<Vec<usize>>) -> Dataset {
    let n = prefs.len();
    let m = caps.len();
    Dataset::from_parts(numbered("User", n), numbered("Team", m), caps, prefs).unwrap()
}

#[test]
fn first_proposer_keeps_contested_seat() {
    let ds = dataset(vec![1, 1], vec![vec![1, 2], vec![1, 2]]);
    assert_eq!(match_teams(&ds), Ok(vec![vec![0], vec![1]]));
    let n = match_names(&ds).unwrap();
    assert_eq!(n, vec![names(&["User 1"]), names(&["User 2"])]);
}

#[test]
fn single_seat_for_two_users_is_an_error() {
    let ds = dataset(vec![1], vec![vec![1], vec![1]]);
    assert_eq!(match_teams(&ds), Err(Violation::InsufficientCapacity { total: 1, users: 2 }));
    assert!(match_names(&ds).is_err());
}

#[test]
fn better_ranked_proposer_displaces_incumbent() {
    let ds = dataset(vec![1, 1, 1], vec![vec![1, 2, 3], vec![1, 2, 3], vec![3, 1, 2]]);
    assert_eq!(match_teams(&ds), Ok(vec![vec![0], vec![2], vec![1]]));
}

#[test]
fn everyone_gets_first_choice_when_seats_allow() {
    let ds = dataset(vec![2, 1], vec![vec![1, 2], vec![2, 1], vec![1, 2]]);
    assert_eq!(match_teams(&ds), Ok(vec![vec![0, 2], vec![1]]));
}

#[test]
fn matching_twice_gives_the_same_assignment() {
    let ds = dataset(
        vec![2, 1, 2],
        vec![vec![1, 2, 3], vec![1, 3, 2], vec![2, 1, 3], vec![1, 2, 3], vec![3, 2, 1]],
    );
    let a = match_teams(&ds);
    let b = match_teams(&ds);
    assert!(a.is_ok());
    assert_eq!(a, b);
}

#[test]
fn assignment_is_complete_and_within_capacity() {
    let caps = vec![2, 1, 2];
    let prefs = vec![vec![1, 2, 3], vec![1, 3, 2], vec![2, 1, 3], vec![1, 2, 3], vec![3, 2, 1]];
    let ds = dataset(caps.clone(), prefs.clone());
    let a = deferred_acceptance(&ds);
    let mut seen = vec![0; prefs.len()];
    for (t, roster) in a.iter().enumerate() {
        assert!(roster.len() <= caps[t]);
        for &u in roster {
            seen[u] += 1;
        }
    }
    assert!(seen.iter().all(|&c| c == 1));
    for (t, roster) in a.iter().enumerate() {
        for &u in roster {
            for s in 0..caps.len() {
                if prefs[u][s] < prefs[u][t] {
                    assert_eq!(a[s].len(), caps[s]);
                    assert!(a[s].iter().all(|&w| prefs[w][s] <= prefs[u][s]));
                }
            }
        }
    }
}

#[test]
fn invalid_rows_are_reported_before_matching() {
    let ds = dataset(vec![1, 1], vec![vec![1, 1], vec![1, 2]]);
    assert_eq!(
        match_teams(&ds),
        Err(Violation::DuplicatePreference { user: 0, team: 0, other: 1 })
    );
}

#[test]
fn roster_names_follow_indices() {
    let ds = dataset(vec![1, 1], vec![vec![1, 2], vec![2, 1]]);
    let n = roster_names(&ds, &vec![vec![1], vec![0, 1], vec![]]);
    assert_eq!(n, vec![names(&["User 2"]), names(&["User 1", "User 2"]), vec![]]);
}
