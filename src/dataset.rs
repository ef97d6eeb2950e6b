use vstd::prelude::*;
use vstd::string::StringExecFns;
use crate::text::{decimal_text, numbered};

verus! {

/// The mathematical content of a dataset: names, capacities and the
/// preference table, `preferences[u][t]` being the rank user `u` gives team `t`.
pub ghost struct DatasetView {
    pub users: Seq<String>,
    pub teams: Seq<String>,
    pub capacities: Seq<usize>,
    pub preferences: Seq<Seq<usize>>,
}

impl DatasetView {
    /// One preference row per user, one capacity and one column per team.
    pub open spec fn rectangular(self) -> bool {
        &&& self.preferences.len() == self.users.len()
        &&& self.capacities.len() == self.teams.len()
        &&& forall|u: int| 0 <= u < self.preferences.len() ==> #[trigger] self.preferences[u].len()
            == self.teams.len()
    }

    /// The number of users, N.
    pub open spec fn n_users(self) -> nat {
        self.users.len()
    }

    /// The number of teams, M.
    pub open spec fn n_teams(self) -> nat {
        self.teams.len()
    }
}

/// The rows of a preference table as sequences.
pub open spec fn rows_of(p: Seq<Vec<usize>>) -> Seq<Seq<usize>> {
    p.map_values(|r: Vec<usize>| r@)
}

/// A row of `m` placeholder ranks.
pub open spec fn blank_row(m: nat) -> Seq<usize> {
    Seq::new(m, |i: int| 0usize)
}

/// Users, teams, capacities and preferences, kept in lockstep: every edit
/// updates all the structures it touches at once.
pub struct Dataset {
    users: Vec<String>,
    teams: Vec<String>,
    capacities: Vec<usize>,
    preferences: Vec<Vec<usize>>,
}

impl View for Dataset {
    type V = DatasetView;

    closed spec fn view(&self) -> DatasetView {
        DatasetView {
            users: self.users@,
            teams: self.teams@,
            capacities: self.capacities@,
            preferences: rows_of(self.preferences@),
        }
    }
}

fn blank(m: usize) -> (r: Vec<usize>)
    ensures
        r@ == blank_row(m as nat),
{
    let mut r: Vec<usize> = Vec::new();
    let mut i: usize = 0;
    while i < m
        invariant
            i <= m,
            r@ == blank_row(i as nat),
        decreases m - i,
    {
        r.push(0);
        i += 1;
        assert(r@ =~= blank_row(i as nat));
    }
    r
}

impl Dataset {
    #[verifier::type_invariant]
    pub(crate) open spec fn well_formed(self) -> bool {
        self@.rectangular()
    }

    fn empty() -> (r: Dataset)
        ensures
            r@.users.len() == 0,
    {
        Dataset { users: Vec::new(), teams: Vec::new(), capacities: Vec::new(), preferences: Vec::new() }
    }

    /// The dataset a new session starts with: two users, two teams of
    /// capacity one, and no preference filled in yet.
    pub fn new() -> (r: Dataset)
        ensures
            r@.users.len() == 2,
            r@.users[0]@ == "User 1"@,
            r@.users[1]@ == "User 2"@,
            r@.teams.len() == 2,
            r@.teams[0]@ == "Team 1"@,
            r@.teams[1]@ == "Team 2"@,
            r@.capacities == seq![1usize, 1usize],
            r@.preferences == seq![blank_row(2), blank_row(2)],
    {
        let users = vec![String::from_str("User 1"), String::from_str("User 2")];
        let teams = vec![String::from_str("Team 1"), String::from_str("Team 2")];
        let capacities = vec![1usize, 1usize];
        let preferences = vec![blank(2), blank(2)];
        let r = Dataset { users, teams, capacities, preferences };
        assert(r@.preferences =~= seq![blank_row(2), blank_row(2)]);
        r
    }

    /// Builds a dataset from its parts; `None` when they do not line up
    /// (a row count other than the number of users, a capacity count or a
    /// row length other than the number of teams).
    pub fn from_parts(
        users: Vec<String>,
        teams: Vec<String>,
        capacities: Vec<usize>,
        preferences: Vec<Vec<usize>>,
    ) -> (r: Option<Dataset>)
        ensures
            r is Some <==> (DatasetView {
                users: users@,
                teams: teams@,
                capacities: capacities@,
                preferences: rows_of(preferences@),
            }).rectangular(),
            r matches Some(d) ==> d@ == (DatasetView {
                users: users@,
                teams: teams@,
                capacities: capacities@,
                preferences: rows_of(preferences@),
            }),
    {
        if preferences.len() != users.len() || capacities.len() != teams.len() {
            return None;
        }
        let mut u: usize = 0;
        while u < preferences.len()
            invariant
                u <= preferences.len(),
                forall|v: int| 0 <= v < u ==> #[trigger] preferences@[v]@.len() == teams@.len(),
            decreases preferences.len() - u,
        {
            if preferences[u].len() != teams.len() {
                assert(rows_of(preferences@)[u as int].len() != teams@.len());
                return None;
            }
            u += 1;
        }
        Some(Dataset { users, teams, capacities, preferences })
    }

    /// The user names, by index.
    pub fn users(&self) -> (r: &Vec<String>)
        ensures
            r@ == self@.users,
    {
        &self.users
    }

    /// The team names, by index.
    pub fn teams(&self) -> (r: &Vec<String>)
        ensures
            r@ == self@.teams,
    {
        &self.teams
    }

    /// The capacity of each team, by index.
    pub fn capacities(&self) -> (r: &Vec<usize>)
        ensures
            r@ == self@.capacities,
    {
        &self.capacities
    }

    /// The preference table: one row per user, one rank per team.
    pub fn preferences(&self) -> (r: &Vec<Vec<usize>>)
        ensures
            rows_of(r@) == self@.preferences,
    {
        &self.preferences
    }
    /// Takes the dataset's parts out, leaving an empty dataset behind.
    fn take_parts(&mut self) -> (r: (Vec<String>, Vec<String>, Vec<usize>, Vec<Vec<usize>>))
        ensures
            old(self)@ == (DatasetView {
                users: r.0@,
                teams: r.1@,
                capacities: r.2@,
                preferences: rows_of(r.3@),
            }),
            old(self)@.rectangular(),
    {
        proof {
            use_type_invariant(&*self);
        }
        let mut d = Dataset::empty();
        proof {
            use_type_invariant(&d);
        }
        std::mem::swap(self, &mut d);
        let Dataset { users, teams, capacities, preferences } = d;
        (users, teams, capacities, preferences)
    }

    /// Appends a user named "User <n>" (n the new number of users) with a
    /// row of placeholder ranks.
    pub fn add_user(&mut self)
        requires
            old(self)@.users.len() < usize::MAX,
        ensures
            final(self)@.users == old(self)@.users.push(final(self)@.users.last()),
            final(self)@.users.last()@ == "User "@ + decimal_text(old(self)@.users.len() + 1),
            final(self)@.teams == old(self)@.teams,
            final(self)@.capacities == old(self)@.capacities,
            final(self)@.preferences == old(self)@.preferences.push(blank_row(old(self)@.teams.len())),
    {
        let (mut users, teams, capacities, mut preferences) = self.take_parts();
        let name = numbered("User ", users.len() + 1);
        users.push(name);
        preferences.push(blank(teams.len()));
        assert(rows_of(preferences@) =~= old(self)@.preferences.push(blank_row(teams@.len())));
        *self = Dataset { users, teams, capacities, preferences };
    }

    /// Appends a team named "Team <n>" (n the new number of teams) of
    /// capacity one, with a placeholder rank in every row.
    pub fn add_team(&mut self)
        requires
            old(self)@.teams.len() < usize::MAX,
        ensures
            final(self)@.teams == old(self)@.teams.push(final(self)@.teams.last()),
            final(self)@.teams.last()@ == "Team "@ + decimal_text(old(self)@.teams.len() + 1),
            final(self)@.users == old(self)@.users,
            final(self)@.capacities == old(self)@.capacities.push(1),
            final(self)@.preferences.len() == old(self)@.preferences.len(),
            forall|u: int|
                0 <= u < old(self)@.preferences.len() ==> #[trigger] final(self)@.preferences[u]
                    == old(self)@.preferences[u].push(0),
    {
        let (users, mut teams, mut capacities, mut preferences) = self.take_parts();
        let ghost rows0 = rows_of(preferences@);
        let name = numbered("Team ", teams.len() + 1);
        teams.push(name);
        capacities.push(1);
        let mut u: usize = 0;
        while u < preferences.len()
            invariant
                u <= preferences.len(),
                preferences.len() == rows0.len(),
                forall|v: int| 0 <= v < u ==> #[trigger] preferences@[v]@ == rows0[v].push(0),
                forall|v: int| u <= v < rows0.len() ==> #[trigger] preferences@[v]@ == rows0[v],
            decreases preferences.len() - u,
        {
            let mut row: Vec<usize> = Vec::new();
            preferences.set_and_swap(u, &mut row);
            row.push(0);
            preferences.set(u, row);
            u += 1;
        }
        *self = Dataset { users, teams, capacities, preferences };
    }

    /// Renames user `idx`; an index past the end changes nothing.
    pub fn rename_user(&mut self, idx: usize, name: String)
        ensures
            final(self)@ == (if idx < old(self)@.users.len() {
                DatasetView { users: old(self)@.users.update(idx as int, name), ..old(self)@ }
            } else {
                old(self)@
            }),
    {
        if idx < self.users.len() {
            let (mut users, teams, capacities, preferences) = self.take_parts();
            users.set(idx, name);
            *self = Dataset { users, teams, capacities, preferences };
        }
    }

    /// Renames team `idx`; an index past the end changes nothing.
    pub fn rename_team(&mut self, idx: usize, name: String)
        ensures
            final(self)@ == (if idx < old(self)@.teams.len() {
                DatasetView { teams: old(self)@.teams.update(idx as int, name), ..old(self)@ }
            } else {
                old(self)@
            }),
    {
        if idx < self.teams.len() {
            let (users, mut teams, capacities, preferences) = self.take_parts();
            teams.set(idx, name);
            *self = Dataset { users, teams, capacities, preferences };
        }
    }

    /// Removes user `idx` together with their preference row.
    pub fn remove_user(&mut self, idx: usize)
        requires
            idx < old(self)@.users.len(),
        ensures
            final(self)@.users == old(self)@.users.remove(idx as int),
            final(self)@.preferences == old(self)@.preferences.remove(idx as int),
            final(self)@.teams == old(self)@.teams,
            final(self)@.capacities == old(self)@.capacities,
    {
        let (mut users, teams, capacities, mut preferences) = self.take_parts();
        users.remove(idx);
        preferences.remove(idx);
        assert(rows_of(preferences@) =~= old(self)@.preferences.remove(idx as int));
        *self = Dataset { users, teams, capacities, preferences };
    }

    /// Removes team `idx` together with its capacity and its column.
    pub fn remove_team(&mut self, idx: usize)
        requires
            idx < old(self)@.teams.len(),
        ensures
            final(self)@.teams == old(self)@.teams.remove(idx as int),
            final(self)@.capacities == old(self)@.capacities.remove(idx as int),
            final(self)@.users == old(self)@.users,
            final(self)@.preferences.len() == old(self)@.preferences.len(),
            forall|u: int|
                0 <= u < old(self)@.preferences.len() ==> #[trigger] final(self)@.preferences[u]
                    == old(self)@.preferences[u].remove(idx as int),
    {
        let (users, mut teams, mut capacities, mut preferences) = self.take_parts();
        let ghost rows0 = rows_of(preferences@);
        teams.remove(idx);
        capacities.remove(idx);
        let mut u: usize = 0;
        while u < preferences.len()
            invariant
                u <= preferences.len(),
                preferences.len() == rows0.len(),
                idx < teams.len() + 1,
                forall|v: int| 0 <= v < rows0.len() ==> #[trigger] rows0[v].len() == teams.len() + 1,
                forall|v: int|
                    0 <= v < u ==> #[trigger] preferences@[v]@ == rows0[v].remove(idx as int),
                forall|v: int| u <= v < rows0.len() ==> #[trigger] preferences@[v]@ == rows0[v],
            decreases preferences.len() - u,
        {
            let mut row: Vec<usize> = Vec::new();
            preferences.set_and_swap(u, &mut row);
            row.remove(idx);
            preferences.set(u, row);
            u += 1;
        }
        *self = Dataset { users, teams, capacities, preferences };
    }

    /// Sets the capacity of team `team`.
    pub fn set_capacity(&mut self, team: usize, capacity: usize)
        requires
            team < old(self)@.teams.len(),
        ensures
            final(self)@ == (DatasetView {
                capacities: old(self)@.capacities.update(team as int, capacity),
                ..old(self)@
            }),
    {
        let (users, teams, mut capacities, preferences) = self.take_parts();
        capacities.set(team, capacity);
        *self = Dataset { users, teams, capacities, preferences };
    }

    /// Sets the rank that user `user` gives team `team`.
    pub fn set_preference(&mut self, user: usize, team: usize, rank: usize)
        requires
            user < old(self)@.users.len(),
            team < old(self)@.teams.len(),
        ensures
            final(self)@ == (DatasetView {
                preferences: old(self)@.preferences.update(
                    user as int,
                    old(self)@.preferences[user as int].update(team as int, rank),
                ),
                ..old(self)@
            }),
    {
        let (users, teams, capacities, mut preferences) = self.take_parts();
        let mut row: Vec<usize> = Vec::new();
        preferences.set_and_swap(user, &mut row);
        row.set(team, rank);
        preferences.set(user, row);
        assert(rows_of(preferences@) =~= old(self)@.preferences.update(
            user as int,
            old(self)@.preferences[user as int].update(team as int, rank),
        ));
        *self = Dataset { users, teams, capacities, preferences };
    }
}

} // verus!
