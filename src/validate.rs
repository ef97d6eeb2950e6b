use vstd::prelude::*;
use vstd::string::StringExecFns;
use crate::dataset::{Dataset, DatasetView};
use crate::text::{decimal, decimal_text};

verus! {

/// Sum of a sequence of capacities.
pub open spec fn total_of(s: Seq<usize>) -> int
    decreases s.len(),
{
    if s.len() == 0 {
        0
    } else {
        total_of(s.drop_last()) + s.last() as int
    }
}

/// The rank user `u` gives team `t` lies in `1..=M`.
pub open spec fn rank_in_range(d: DatasetView, u: int, t: int) -> bool {
    1 <= d.preferences[u][t] <= d.n_teams()
}

/// User `u` gives teams `t` and `k` the same rank.
pub open spec fn tied(d: DatasetView, u: int, t: int, k: int) -> bool {
    t != k && d.preferences[u][t] == d.preferences[u][k]
}

/// The rank of cell `(u, t)` is in range and shared with no other team.
pub open spec fn cell_clean(d: DatasetView, u: int, t: int) -> bool {
    &&& rank_in_range(d, u, t)
    &&& forall|k: int| 0 <= k < d.n_teams() ==> !#[trigger] tied(d, u, t, k)
}

/// Every row before `n` ranks each team once, with a rank in `1..=M`.
pub open spec fn rows_clean(d: DatasetView, n: int) -> bool {
    forall|u: int, t: int| 0 <= u < n && 0 <= t < d.n_teams() ==> #[trigger] cell_clean(d, u, t)
}

/// The capacity of team `t` lies in `1..=N`.
pub open spec fn capacity_in_range(d: DatasetView, t: int) -> bool {
    1 <= d.capacities[t] <= d.n_users()
}

/// A dataset on which matching may run: each row is a ranking of all teams
/// without ties, each capacity is in `1..=N`, and there are at least as many
/// seats as users.
pub open spec fn valid(d: DatasetView) -> bool {
    &&& rows_clean(d, d.n_users() as int)
    &&& forall|t: int| 0 <= t < d.n_teams() ==> #[trigger] capacity_in_range(d, t)
    &&& total_of(d.capacities) >= d.n_users()
}

/// A broken rule of a dataset, with the indices (or numbers) it concerns.
#[derive(Clone, Copy, Debug, PartialEq, Eq, Structural)]
pub enum Violation {
    /// The rank that `user` gives `team` is 0 or above the number of teams.
    NoPreference { user: usize, team: usize },
    /// `user` gives `team` and `other` the same rank.
    DuplicatePreference { user: usize, team: usize, other: usize },
    /// The capacity of `team` is 0 or above the number of users.
    InvalidTeamSize { team: usize },
    /// The capacities add up to `total`, fewer than the `users`.
    InsufficientCapacity { total: usize, users: usize },
}

/// `v` is a broken rule of `d`.
pub open spec fn violates(d: DatasetView, v: Violation) -> bool {
    match v {
        Violation::NoPreference { user, team } => {
            &&& user < d.n_users()
            &&& team < d.n_teams()
            &&& !rank_in_range(d, user as int, team as int)
        },
        Violation::DuplicatePreference { user, team, other } => {
            &&& user < d.n_users()
            &&& team < d.n_teams()
            &&& other < d.n_teams()
            &&& tied(d, user as int, team as int, other as int)
        },
        Violation::InvalidTeamSize { team } => {
            &&& team < d.n_teams()
            &&& !capacity_in_range(d, team as int)
        },
        Violation::InsufficientCapacity { total, users } => {
            &&& total == total_of(d.capacities)
            &&& users == d.n_users()
            &&& total < users
        },
    }
}

/// Where a check of `v` stands in the scan: rows first (user, then team,
/// the range test before the tie tests), then capacities, then their total.
pub open spec fn scan_key(v: Violation) -> (int, int, int, int) {
    match v {
        Violation::NoPreference { user, team } => (0, user as int, team as int, 0),
        Violation::DuplicatePreference { user, team, other } => (
            0,
            user as int,
            team as int,
            other + 1,
        ),
        Violation::InvalidTeamSize { team } => (1, team as int, 0, 0),
        Violation::InsufficientCapacity { .. } => (2, 0, 0, 0),
    }
}

pub open spec fn lex_lt(a: (int, int, int, int), b: (int, int, int, int)) -> bool {
    ||| a.0 < b.0
    ||| (a.0 == b.0 && a.1 < b.1)
    ||| (a.0 == b.0 && a.1 == b.1 && a.2 < b.2)
    ||| (a.0 == b.0 && a.1 == b.1 && a.2 == b.2 && a.3 < b.3)
}

/// `v` is the broken rule of `d` that the scan meets first.
pub open spec fn first_violation(d: DatasetView, v: Violation) -> bool {
    &&& violates(d, v)
    &&& forall|w: Violation| #[trigger] violates(d, w) ==> !lex_lt(scan_key(w), scan_key(v))
}

/// Checks the rules in scan order and reports the first one broken.
pub fn check(ds: &Dataset) -> (r: Result<(), Violation>)
    ensures
        r is Ok <==> valid(ds@),
        r matches Err(v) ==> first_violation(ds@, v),
{
    proof {
        use_type_invariant(ds);
    }
    let ghost d = ds@;
    let prefs = ds.preferences();
    let caps = ds.capacities();
    let n = ds.users().len();
    let m = ds.teams().len();
    assert(prefs@.len() == n);
    let mut u: usize = 0;
    while u < n
        invariant
            d == ds@,
            d.rectangular(),
            n == d.n_users(),
            m == d.n_teams(),
            prefs@.len() == n,
            forall|i: int| 0 <= i < n ==> #[trigger] prefs@[i]@ == d.preferences[i],
            u <= n,
            rows_clean(d, u as int),
        decreases n - u,
    {
        let row = &prefs[u];
        assert(row@ == d.preferences[u as int]);
        let mut t: usize = 0;
        while t < m
            invariant
                d == ds@,
                d.rectangular(),
                n == d.n_users(),
                m == d.n_teams(),
                u < n,
                row@ == d.preferences[u as int],
                row@.len() == m,
                t <= m,
                rows_clean(d, u as int),
                forall|j: int| 0 <= j < t ==> #[trigger] cell_clean(d, u as int, j),
            decreases m - t,
        {
            if row[t] < 1 || row[t] > m {
                let v = Violation::NoPreference { user: u, team: t };
                proof {
                    assert forall|w: Violation| #[trigger] violates(d, w) implies !lex_lt(
                        scan_key(w),
                        scan_key(v),
                    ) by {
                        if let Violation::DuplicatePreference { user, team, other } = w {
                            if user < u {
                                assert(cell_clean(d, user as int, team as int));
                            } else if user == u && team < t {
                                assert(cell_clean(d, user as int, team as int));
                            }
                        } else if let Violation::NoPreference { user, team } = w {
                            if user < u {
                                assert(cell_clean(d, user as int, team as int));
                            } else if user == u && team < t {
                                assert(cell_clean(d, user as int, team as int));
                            }
                        }
                    }
                }
                proof {
                    lemma_violation_invalid(d, v);
                }
                proof {
                lemma_violation_invalid(d, v);
            }
            return Err(v);
            }
            let mut k: usize = 0;
            while k < m
                invariant
                    d == ds@,
                    d.rectangular(),
                    n == d.n_users(),
                    m == d.n_teams(),
                    u < n,
                    t < m,
                    row@ == d.preferences[u as int],
                    row@.len() == m,
                    k <= m,
                    rank_in_range(d, u as int, t as int),
                    rows_clean(d, u as int),
                    forall|j: int| 0 <= j < t ==> #[trigger] cell_clean(d, u as int, j),
                    forall|j: int| 0 <= j < k ==> !#[trigger] tied(d, u as int, t as int, j),
                decreases m - k,
            {
                if row[t] == row[k] && t != k {
                    let v = Violation::DuplicatePreference { user: u, team: t, other: k };
                    proof {
                        assert forall|w: Violation| #[trigger] violates(d, w) implies !lex_lt(
                            scan_key(w),
                            scan_key(v),
                        ) by {
                            if let Violation::DuplicatePreference { user, team, other } = w {
                                if user < u {
                                    assert(cell_clean(d, user as int, team as int));
                                } else if user == u && team < t {
                                    assert(cell_clean(d, user as int, team as int));
                                }
                            } else if let Violation::NoPreference { user, team } = w {
                                if user < u {
                                    assert(cell_clean(d, user as int, team as int));
                                } else if user == u && team < t {
                                    assert(cell_clean(d, user as int, team as int));
                                }
                            }
                        }
                    }
                    proof {
                    lemma_violation_invalid(d, v);
                }
                proof {
                lemma_violation_invalid(d, v);
            }
            return Err(v);
                }
                k += 1;
            }
            assert(cell_clean(d, u as int, t as int));
            t += 1;
        }
        u += 1;
    }
    let mut t: usize = 0;
    while t < m
        invariant
            d == ds@,
            d.rectangular(),
            n == d.n_users(),
            m == d.n_teams(),
            caps@ == d.capacities,
            rows_clean(d, n as int),
            t <= m,
            forall|j: int| 0 <= j < t ==> #[trigger] capacity_in_range(d, j),
        decreases m - t,
    {
        if caps[t] < 1 || caps[t] > n {
            let v = Violation::InvalidTeamSize { team: t };
            proof {
                assert forall|w: Violation| #[trigger] violates(d, w) implies !lex_lt(
                    scan_key(w),
                    scan_key(v),
                ) by {
                    match w {
                        Violation::DuplicatePreference { user, team, other } => {
                            assert(cell_clean(d, user as int, team as int));
                        },
                        Violation::NoPreference { user, team } => {
                            assert(cell_clean(d, user as int, team as int));
                        },
                        Violation::InvalidTeamSize { team } => {
                            if team < t {
                                assert(capacity_in_range(d, team as int));
                            }
                        },
                        _ => {},
                    }
                }
            }
            proof {
                lemma_violation_invalid(d, v);
            }
            return Err(v);
        }
        t += 1;
    }
    let mut total: usize = 0;
    let mut i: usize = 0;
    while i < m
        invariant
            d == ds@,
            d.rectangular(),
            caps@ == d.capacities,
            m == caps@.len(),
            n == d.n_users(),
            rows_clean(d, n as int),
            forall|j: int| 0 <= j < m ==> #[trigger] capacity_in_range(d, j),
            i <= m,
            total == total_of(caps@.subrange(0, i as int)),
            total <= n,
        decreases m - i,
    {
        assert(caps@.subrange(0, i as int + 1).drop_last() =~= caps@.subrange(0, i as int));
        assert(total_of(caps@.subrange(0, i as int + 1)) == total + caps[i as int]);
        if caps[i] >= n - total {
            proof {
                lemma_total_grows(caps@, i as int + 1);
            }
            return Ok(());
        }
        total = total + caps[i];
        i += 1;
    }
    assert(caps@.subrange(0, m as int) =~= caps@);
    if total >= n {
        return Ok(());
    }
    let v = Violation::InsufficientCapacity { total, users: n };
    proof {
        assert forall|w: Violation| #[trigger] violates(d, w) implies !lex_lt(
            scan_key(w),
            scan_key(v),
        ) by {
            match w {
                Violation::DuplicatePreference { user, team, other } => {
                    assert(cell_clean(d, user as int, team as int));
                },
                Violation::NoPreference { user, team } => {
                    assert(cell_clean(d, user as int, team as int));
                },
                Violation::InvalidTeamSize { team } => {
                    assert(capacity_in_range(d, team as int));
                },
                _ => {},
            }
        }
    }
    proof {
        lemma_violation_invalid(d, v);
    }
    Err(v)
}

/// The rules, each stated on its own: validation rejects a rank of 0 or
/// above `M`, two equal ranks in one row, a capacity of 0 or above `N`, and
/// capacities that add up to fewer than `N`; it accepts every dataset whose
/// rows rank all teams from 1 to `M` without ties (each a permutation of
/// `1..=M`) and whose capacities lie in `1..=N` and add up to `N` or more.
pub proof fn lemma_validation_rules(d: DatasetView)
    requires
        d.rectangular(),
    ensures
        valid(d) <==> {
            &&& forall|u: int, t: int|
                0 <= u < d.n_users() && 0 <= t < d.n_teams() ==> 1 <= #[trigger] d.preferences[u][t]
                    <= d.n_teams()
            &&& forall|u: int, t: int, k: int|
                0 <= u < d.n_users() && 0 <= t < d.n_teams() && 0 <= k < d.n_teams() && t != k
                    ==> #[trigger] d.preferences[u][t] != #[trigger] d.preferences[u][k]
            &&& forall|t: int| 0 <= t < d.n_teams() ==> 1 <= #[trigger] d.capacities[t] <= d.n_users()
            &&& total_of(d.capacities) >= d.n_users()
        },
{
    if valid(d) {
        assert forall|u: int, t: int, k: int|
            0 <= u < d.n_users() && 0 <= t < d.n_teams() && 0 <= k < d.n_teams() && t != k
                implies #[trigger] d.preferences[u][t] != #[trigger] d.preferences[u][k] by {
            assert(cell_clean(d, u, t));
            assert(!tied(d, u, t, k));
        }
        assert forall|u: int, t: int|
            0 <= u < d.n_users() && 0 <= t < d.n_teams() implies 1 <= #[trigger] d.preferences[u][t]
                <= d.n_teams() by {
            assert(cell_clean(d, u, t));
        }
        assert forall|t: int| 0 <= t < d.n_teams() implies 1 <= #[trigger] d.capacities[t] <= d.n_users() by {
            assert(capacity_in_range(d, t));
        }
    }
}

/// A dataset with a broken rule is not valid.
pub proof fn lemma_violation_invalid(d: DatasetView, v: Violation)
    requires
        violates(d, v),
    ensures
        !valid(d),
{
    match v {
        Violation::NoPreference { user, team } => {
            assert(!cell_clean(d, user as int, team as int));
        },
        Violation::DuplicatePreference { user, team, other } => {
            assert(!cell_clean(d, user as int, team as int));
        },
        Violation::InvalidTeamSize { team } => {
            assert(!capacity_in_range(d, team as int));
        },
        _ => {},
    }
}

/// The total of a sequence is at least the total of any of its prefixes.
proof fn lemma_total_grows(s: Seq<usize>, i: int)
    requires
        0 <= i <= s.len(),
    ensures
        total_of(s.subrange(0, i)) <= total_of(s),
    decreases s.len() - i,
{
    if i < s.len() {
        lemma_total_grows(s, i + 1);
        assert(s.subrange(0, i + 1).drop_last() =~= s.subrange(0, i));
    } else {
        assert(s.subrange(0, i) =~= s);
    }
}

/// The scan meets at most one first broken rule.
pub proof fn lemma_first_violation_unique(d: DatasetView, v: Violation, w: Violation)
    requires
        first_violation(d, v),
        first_violation(d, w),
    ensures
        v == w,
{
    assert(!lex_lt(scan_key(w), scan_key(v)));
    assert(!lex_lt(scan_key(v), scan_key(w)));
}

/// The text that describes broken rule `v` of `d`, naming users and teams.
pub open spec fn violation_text(d: DatasetView, v: Violation) -> Seq<char> {
    match v {
        Violation::NoPreference { user, team } => d.users[user as int]@
            + " has no preference for "@ + d.teams[team as int]@,
        Violation::DuplicatePreference { user, team, other } => d.users[user as int]@
            + " has duplicate preferences for "@ + d.teams[team as int]@ + " and "@
            + d.teams[other as int]@,
        Violation::InvalidTeamSize { team } => d.teams[team as int]@ + " has invalid team size"@,
        Violation::InsufficientCapacity { total, users } => "Total team size ("@ + decimal_text(
            total as nat,
        ) + ") is less than number of users ("@ + decimal_text(users as nat) + ")"@,
    }
}

/// What validation reports on `d`: a confirmation, or the text of the first
/// broken rule.
pub open spec fn report(d: DatasetView) -> Seq<char> {
    if valid(d) {
        "Preferences are valid!"@
    } else {
        violation_text(d, choose|v: Violation| first_violation(d, v))
    }
}

/// The outcome of a validation: whether matching may run, and why not.
pub struct ValidationResult {
    pub ok: bool,
    pub message: String,
}

/// Describes broken rule `v` of `ds` by the names of the users and teams it
/// concerns.
pub fn describe(ds: &Dataset, v: Violation) -> (r: String)
    requires
        violates(ds@, v),
    ensures
        r@ == violation_text(ds@, v),
{
    let users = ds.users();
    let teams = ds.teams();
    match v {
        Violation::NoPreference { user, team } => {
            users[user].clone().concat(" has no preference for ").concat(teams[team].as_str())
        },
        Violation::DuplicatePreference { user, team, other } => {
            users[user].clone().concat(" has duplicate preferences for ").concat(
                teams[team].as_str(),
            ).concat(" and ").concat(teams[other].as_str())
        },
        Violation::InvalidTeamSize { team } => {
            teams[team].clone().concat(" has invalid team size")
        },
        Violation::InsufficientCapacity { total, users } => {
            let a = decimal(total);
            let b = decimal(users);
            String::from_str("Total team size (").concat(a.as_str()).concat(
                ") is less than number of users (",
            ).concat(b.as_str()).concat(")")
        },
    }
}

/// Validates `ds`: `ok` tells whether matching may run, `message` gives
/// the first broken rule or a confirmation.
pub fn validate(ds: &Dataset) -> (r: ValidationResult)
    ensures
        r.ok == valid(ds@),
        r.message@ == report(ds@),
{
    match check(ds) {
        Ok(()) => ValidationResult { ok: true, message: String::from_str("Preferences are valid!") },
        Err(v) => {
            proof {
                let w = choose|w: Violation| first_violation(ds@, w);
                lemma_first_violation_unique(ds@, v, w);
            }
            ValidationResult { ok: false, message: describe(ds, v) }
        },
    }
}

/// Validation depends on the dataset alone: validating the same dataset
/// again gives the same verdict and the same message.
pub proof fn lemma_validation_repeatable(a: DatasetView, b: DatasetView)
    requires
        a == b,
    ensures
        valid(a) == valid(b),
        report(a) == report(b),
{
}

} // verus!
