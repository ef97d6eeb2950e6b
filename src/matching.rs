use vstd::prelude::*;
use crate::dataset::{rows_of, Dataset, DatasetView};
use crate::validate::{check, first_violation, total_of, valid, Violation};

verus! {

/// Number of users seated over all rosters.
pub open spec fn seated(r: Seq<Vec<usize>>) -> int
    decreases r.len(),
{
    if r.len() == 0 {
        0
    } else {
        seated(r.drop_last()) + r.last()@.len()
    }
}

/// The rank user `u` gives team `t`; for the team, a lower rank means a
/// more wanted member.
pub open spec fn rank(d: DatasetView, u: int, t: int) -> int {
    d.preferences[u][t] as int
}

/// User `u` stands in some roster of `r`.
pub open spec fn placed(r: Seq<Seq<usize>>, u: int) -> bool {
    exists|t: int, i: int| 0 <= t < r.len() && 0 <= i < r[t].len() && #[trigger] r[t][i] == u
}

/// `r` places every user exactly once, in rosters no larger than their
/// team's capacity.
pub open spec fn complete_assignment(d: DatasetView, r: Seq<Seq<usize>>) -> bool {
    &&& r.len() == d.n_teams()
    &&& forall|t: int| 0 <= t < r.len() ==> #[trigger] r[t].len() <= d.capacities[t]
    &&& forall|t: int, i: int|
        0 <= t < r.len() && 0 <= i < r[t].len() ==> #[trigger] r[t][i] < d.n_users()
    &&& forall|u: int| 0 <= u < d.n_users() ==> #[trigger] placed(r, u)
    &&& forall|t1: int, i1: int, t2: int, i2: int|
        0 <= t1 < r.len() && 0 <= i1 < r[t1].len() && 0 <= t2 < r.len() && 0 <= i2 < r[t2].len()
            && #[trigger] r[t1][i1] == #[trigger] r[t2][i2] ==> t1 == t2 && i1 == i2
}

/// Team `t` in `r` is full, and wants each member at least as much as `u`.
pub open spec fn holds_out(d: DatasetView, r: Seq<Seq<usize>>, t: int, u: int) -> bool {
    &&& r[t].len() == d.capacities[t]
    &&& forall|i: int| 0 <= i < r[t].len() ==> rank(d, #[trigger] r[t][i] as int, t) <= rank(d, u, t)
}

/// No blocking pair: whenever a placed user ranks another team above their
/// own, that team is full of members it wants at least as much.
pub open spec fn stable(d: DatasetView, r: Seq<Seq<usize>>) -> bool {
    forall|t: int, i: int, s: int|
        0 <= t < r.len() && 0 <= i < r[t].len() && 0 <= s < r.len() && rank(d, #[trigger] r[t][i] as int, s)
            < rank(d, r[t][i] as int, t) ==> #[trigger] holds_out(d, r, s, r[t][i] as int)
}

/// The rosters as sequences.
pub open spec fn rosters_of(r: Seq<Vec<usize>>) -> Seq<Seq<usize>> {
    r.map_values(|v: Vec<usize>| v@)
}

proof fn lemma_total_update(s: Seq<usize>, i: int, v: usize)
    requires
        0 <= i < s.len(),
    ensures
        total_of(s.update(i, v)) == total_of(s) - s[i] + v,
    decreases s.len(),
{
    if i < s.len() - 1 {
        lemma_total_update(s.drop_last(), i, v);
        assert(s.update(i, v).drop_last() =~= s.drop_last().update(i, v));
    } else {
        assert(s.update(i, v).drop_last() =~= s.drop_last());
    }
}

proof fn lemma_total_bound(s: Seq<usize>, b: int)
    requires
        0 <= b,
        forall|i: int| 0 <= i < s.len() ==> #[trigger] s[i] <= b,
    ensures
        0 <= total_of(s) <= s.len() * b,
    decreases s.len(),
{
    if s.len() > 0 {
        lemma_total_bound(s.drop_last(), b);
        let k = s.len() - 1;
        assert(k * b + b == s.len() * b) by (nonlinear_arith)
            requires
                k == s.len() - 1,
        ;
    }
}

proof fn lemma_seated_update(r: Seq<Vec<usize>>, i: int, v: Vec<usize>)
    requires
        0 <= i < r.len(),
    ensures
        seated(r.update(i, v)) == seated(r) - r[i]@.len() + v@.len(),
    decreases r.len(),
{
    if i < r.len() - 1 {
        lemma_seated_update(r.drop_last(), i, v);
        assert(r.update(i, v).drop_last() =~= r.drop_last().update(i, v));
    } else {
        assert(r.update(i, v).drop_last() =~= r.drop_last());
    }
}

proof fn lemma_seated_full(r: Seq<Vec<usize>>, c: Seq<usize>)
    requires
        r.len() == c.len(),
        forall|t: int| 0 <= t < r.len() ==> #[trigger] r[t]@.len() == c[t],
    ensures
        seated(r) == total_of(c),
    decreases r.len(),
{
    if r.len() > 0 {
        lemma_seated_full(r.drop_last(), c.drop_last());
    }
}

proof fn lemma_seated_blank(r: Seq<Vec<usize>>)
    requires
        forall|t: int| 0 <= t < r.len() ==> #[trigger] r[t]@.len() == 0,
    ensures
        seated(r) == 0,
    decreases r.len(),
{
    if r.len() > 0 {
        lemma_seated_blank(r.drop_last());
    }
}

/// The team with the lowest rank above `above` in `row`, if any.
fn next_team(row: &Vec<usize>, above: usize) -> (r: Option<usize>)
    ensures
        r matches Some(t) ==> t < row@.len() && row@[t as int] > above && forall|j: int|
            0 <= j < row@.len() && row@[j] > above ==> row@[t as int] <= #[trigger] row@[j],
        r is None ==> forall|j: int| 0 <= j < row@.len() ==> #[trigger] row@[j] <= above,
{
    let mut best: Option<usize> = None;
    let mut j: usize = 0;
    while j < row.len()
        invariant
            j <= row@.len(),
            best matches Some(t) ==> t < j && row@[t as int] > above && forall|k: int|
                0 <= k < j && row@[k] > above ==> row@[t as int] <= #[trigger] row@[k],
            best is None ==> forall|k: int| 0 <= k < j ==> #[trigger] row@[k] <= above,
        decreases row.len() - j,
    {
        if row[j] > above {
            match best {
                Some(t) => {
                    if row[j] < row[t] {
                        best = Some(j);
                    }
                },
                None => {
                    best = Some(j);
                },
            }
        }
        j += 1;
    }
    best
}

/// The position in `roster` of the member that team `team` wants least;
/// among equally wanted members, the one that came last.
fn least_wanted(prefs: &Vec<Vec<usize>>, roster: &Vec<usize>, team: usize) -> (e: usize)
    requires
        roster@.len() > 0,
        forall|i: int| 0 <= i < roster@.len() ==> #[trigger] roster@[i] < prefs@.len(),
        forall|u: int| 0 <= u < prefs@.len() ==> team < #[trigger] prefs@[u]@.len(),
    ensures
        e < roster@.len(),
        forall|i: int|
            0 <= i < roster@.len() ==> #[trigger] prefs@[roster@[i] as int]@[team as int]
                <= prefs@[roster@[e as int] as int]@[team as int],
        forall|i: int|
            e < i < roster@.len() ==> #[trigger] prefs@[roster@[i] as int]@[team as int]
                < prefs@[roster@[e as int] as int]@[team as int],
{
    let mut e: usize = 0;
    let mut i: usize = 1;
    while i < roster.len()
        invariant
            roster@.len() > 0,
            forall|i: int| 0 <= i < roster@.len() ==> #[trigger] roster@[i] < prefs@.len(),
            forall|u: int| 0 <= u < prefs@.len() ==> team < #[trigger] prefs@[u]@.len(),
            e < i <= roster@.len(),
            forall|k: int|
                0 <= k < i ==> #[trigger] prefs@[roster@[k] as int]@[team as int]
                    <= prefs@[roster@[e as int] as int]@[team as int],
            forall|k: int|
                e < k < i ==> #[trigger] prefs@[roster@[k] as int]@[team as int]
                    < prefs@[roster@[e as int] as int]@[team as int],
        decreases roster.len() - i,
    {
        if prefs[roster[i]][team] >= prefs[roster[e]][team] {
            e = i;
        }
        i += 1;
    }
    e
}

/// User `u` has proposed to team `t` (ranked it no lower than their latest
/// proposal) and does not sit there.
pub open spec fn turned_away(d: DatasetView, last: Seq<usize>, place: Seq<int>, u: int, t: int) -> bool {
    rank(d, u, t) <= last[u] && place[u] != t
}

/// The bookkeeping of the proposal loop: `place[u]` is the team user `u`
/// sits in, or -1 while `u` waits in `free`; `last[u]` is the rank of the
/// team `u` proposed to most recently (0 before any proposal).
pub open spec fn proposal_state(
    d: DatasetView,
    rosters: Seq<Vec<usize>>,
    last: Seq<usize>,
    free: Seq<usize>,
    place: Seq<int>,
) -> bool {
    let n = d.n_users() as int;
    let m = d.n_teams() as int;
    &&& rosters.len() == m
    &&& last.len() == n
    &&& place.len() == n
    &&& forall|t: int, i: int|
        0 <= t < m && 0 <= i < rosters[t]@.len() ==> #[trigger] rosters[t]@[i] < n && place[rosters[t]@[i] as int] == t
    &&& forall|t: int, i: int, j: int|
        0 <= t < m && 0 <= i < rosters[t]@.len() && 0 <= j < rosters[t]@.len() && i != j
            ==> #[trigger] rosters[t]@[i] != #[trigger] rosters[t]@[j]
    &&& forall|u: int|
        0 <= u < n && #[trigger] place[u] != -1 ==> 0 <= place[u] < m && rosters[place[u]]@.contains(u as usize)
    &&& forall|i: int| 0 <= i < free.len() ==> #[trigger] free[i] < n && place[free[i] as int] == -1
    &&& forall|u: int| 0 <= u < n && #[trigger] place[u] == -1 ==> free.contains(u as usize)
    &&& free.no_duplicates()
    &&& seated(rosters) + free.len() == n
    &&& forall|t: int| 0 <= t < m ==> #[trigger] rosters[t]@.len() <= d.capacities[t]
    &&& forall|u: int| 0 <= u < n && #[trigger] place[u] != -1 ==> rank(d, u, place[u]) == last[u]
    &&& forall|u: int, t: int|
        0 <= u < n && 0 <= t < m && #[trigger] turned_away(d, last, place, u, t) ==> holds_out(
            d,
            rosters_of(rosters),
            t,
            u,
        )
    &&& forall|u: int| 0 <= u < n ==> #[trigger] last[u] <= m
}

/// The conditions under which user `u`, first in the queue, proposes to
/// team `t`: the best-ranked team above their latest proposal.
pub open spec fn proposes(
    d: DatasetView,
    rosters: Seq<Vec<usize>>,
    last: Seq<usize>,
    free: Seq<usize>,
    place: Seq<int>,
    u: int,
    t: int,
) -> bool {
    &&& valid(d)
    &&& d.rectangular()
    &&& d.n_users() <= usize::MAX
    &&& proposal_state(d, rosters, last, free, place)
    &&& free.len() > 0
    &&& u == free[0]
    &&& 0 <= t < d.n_teams()
    &&& last[u] < rank(d, u, t) <= d.n_teams()
    &&& forall|j: int|
        0 <= j < d.n_teams() && last[u] < #[trigger] rank(d, u, j) ==> rank(d, u, t) <= rank(d, u, j)
}

proof fn lemma_proposal_facts(
    d: DatasetView,
    r0: Seq<Vec<usize>>,
    last0: Seq<usize>,
    free0: Seq<usize>,
    place0: Seq<int>,
    u: int,
    t: int,
)
    requires
        proposes(d, r0, last0, free0, place0, u, t),
    ensures
        0 <= u < d.n_users(),
        place0[u] == -1,
        forall|j: int| 0 <= j < r0[t]@.len() ==> #[trigger] r0[t]@[j] != u,
        forall|s: int|
            0 <= s < d.n_teams() && s != t && #[trigger] rank(d, u, s) <= rank(d, u, t) ==> rank(
                d,
                u,
                s,
            ) <= last0[u],
{
    assert(free0[0] < d.n_users());
    assert forall|s: int|
        0 <= s < d.n_teams() && s != t && #[trigger] rank(d, u, s) <= rank(d, u, t) implies rank(
            d,
            u,
            s,
        ) <= last0[u] by {
        assert(crate::validate::cell_clean(d, u, t));
        assert(!crate::validate::tied(d, u, t, s));
    }
    assert forall|j: int| 0 <= j < r0[t]@.len() implies #[trigger] r0[t]@[j] != u by {
        assert(place0[r0[t]@[j] as int] == t);
    }
}

/// A proposal to a team with a free seat: the proposer takes it.
proof fn lemma_seat(
    d: DatasetView,
    r0: Seq<Vec<usize>>,
    last0: Seq<usize>,
    free0: Seq<usize>,
    place0: Seq<int>,
    u: int,
    t: int,
    v: Vec<usize>,
)
    requires
        proposes(d, r0, last0, free0, place0, u, t),
        v@ == r0[t]@.push(u as usize),
        r0[t]@.len() < d.capacities[t],
    ensures
        proposal_state(
            d,
            r0.update(t, v),
            last0.update(u, rank(d, u, t) as usize),
            free0.remove(0),
            place0.update(u, t),
        ),
{
    lemma_proposal_facts(d, r0, last0, free0, place0, u, t);
    let n = d.n_users() as int;
    let m = d.n_teams() as int;
    let r1 = r0.update(t, v);
    let last1 = last0.update(u, rank(d, u, t) as usize);
    let free1 = free0.remove(0);
    let place1 = place0.update(u, t);
    lemma_seated_update(r0, t, v);
    assert forall|k: int, i: int|
        0 <= k < m && 0 <= i < r1[k]@.len() implies #[trigger] r1[k]@[i] < n && place1[r1[k]@[i] as int] == k by {
        if k == t && i < r0[t]@.len() {
            assert(r1[k]@[i] == r0[t]@[i]);
        }
    }
    assert forall|w: int| 0 <= w < n && #[trigger] place1[w] != -1 implies 0 <= place1[w] < m
        && r1[place1[w]]@.contains(w as usize) by {
        if w == u {
            assert(r1[t]@[r0[t]@.len() as int] == u);
        } else if place1[w] == t {
            assert(place0[w] == t);
            assert(r0[t]@.contains(w as usize));
            let j = choose|j: int| 0 <= j < r0[t]@.len() && r0[t]@[j] == w as usize;
            assert(r1[t]@[j] == w);
        }
    }
    assert forall|i: int| 0 <= i < free1.len() implies #[trigger] free1[i] < n && place1[free1[i] as int] == -1 by {
        assert(free1[i] == free0[i + 1]);
        assert(free0[i + 1] != free0[0]);
    }
    assert forall|w: int| 0 <= w < n && #[trigger] place1[w] == -1 implies free1.contains(w as usize) by {
        assert(w != u);
        assert(place0[w] == -1);
        assert(free0.contains(w as usize));
        let j = choose|j: int| 0 <= j < free0.len() && free0[j] == w as usize;
        assert(j != 0);
        assert(free1[j - 1] == w);
    }
    assert forall|i: int, j: int| 0 <= i < free1.len() && 0 <= j < free1.len() && i != j implies free1[i] != free1[j] by {
        assert(free0[i + 1] != free0[j + 1]);
    }
    assert forall|w: int, s: int|
        0 <= w < n && 0 <= s < m && #[trigger] turned_away(d, last1, place1, w, s) implies holds_out(
        d,
        rosters_of(r1),
        s,
        w,
    ) by {
        assert(rosters_of(r0)[s] == r0[s]@);
        assert(rosters_of(r1)[s] == r1[s]@);
        if w == u {
            assert(turned_away(d, last0, place0, w, s));
        } else {
            assert(turned_away(d, last0, place0, w, s));
        }
    }
    assert forall|w: int| 0 <= w < n && #[trigger] place1[w] != -1 implies rank(d, w, place1[w]) == last1[w] by {}
    assert forall|w: int| 0 <= w < n implies #[trigger] last1[w] <= m by {}
}

/// Position `e` of `w` holds the member that team `t` wants least (the
/// highest rank for `t`), the last of `w` among equally wanted members.
pub open spec fn least_wanted_at(d: DatasetView, w: Seq<usize>, t: int, e: int) -> bool {
    &&& 0 <= e < w.len()
    &&& forall|i: int| 0 <= i < w.len() ==> rank(d, #[trigger] w[i] as int, t) <= rank(d, w[e] as int, t)
    &&& forall|i: int| e < i < w.len() ==> rank(d, #[trigger] w[i] as int, t) < rank(d, w[e] as int, t)
}

/// A proposal to a full team: the member it wants least (maybe the
/// proposer) leaves and takes the proposer's place at the head of the queue.
proof fn lemma_evict(
    d: DatasetView,
    r0: Seq<Vec<usize>>,
    last0: Seq<usize>,
    free0: Seq<usize>,
    place0: Seq<int>,
    u: int,
    t: int,
    e: int,
    v: Vec<usize>,
)
    requires
        proposes(d, r0, last0, free0, place0, u, t),
        least_wanted_at(d, r0[t]@.push(u as usize), t, e),
        v@ == r0[t]@.push(u as usize).remove(e),
        r0[t]@.len() + 1 > d.capacities[t],
    ensures
        r0[t]@.push(u as usize)[e] == u ==> proposal_state(
            d,
            r0.update(t, v),
            last0.update(u, rank(d, u, t) as usize),
            free0,
            place0,
        ),
        r0[t]@.push(u as usize)[e] != u ==> proposal_state(
            d,
            r0.update(t, v),
            last0.update(u, rank(d, u, t) as usize),
            free0.update(0, r0[t]@.push(u as usize)[e]),
            place0.update(u, t).update(r0[t]@.push(u as usize)[e] as int, -1),
        ),
{
    lemma_proposal_facts(d, r0, last0, free0, place0, u, t);
    let n = d.n_users() as int;
    let m = d.n_teams() as int;
    let old_len = r0[t]@.len() as int;
    let w = r0[t]@.push(u as usize);
    let x = w[e] as int;
    let r1 = r0.update(t, v);
    let last1 = last0.update(u, rank(d, u, t) as usize);
    lemma_seated_update(r0, t, v);
    assert(rosters_of(r0)[t] == r0[t]@);
    assert(rosters_of(r1)[t] == r1[t]@);
    assert(r0[t]@.len() == d.capacities[t]);
    if x == u {
        assert(e == old_len);
        assert(v@ =~= r0[t]@);
        assert forall|k: int, i: int|
            0 <= k < m && 0 <= i < r1[k]@.len() implies #[trigger] r1[k]@[i] < n && place0[r1[k]@[i] as int] == k by {
            if k == t {
                assert(r1[k]@[i] == r0[t]@[i]);
            }
        }
        assert forall|y: int, s: int|
            0 <= y < n && 0 <= s < m && #[trigger] turned_away(d, last1, place0, y, s) implies holds_out(
            d,
            rosters_of(r1),
            s,
            y,
        ) by {
            assert(rosters_of(r0)[s] == r0[s]@);
            assert(rosters_of(r1)[s] == r1[s]@);
            if y == u && s == t {
                assert forall|i: int| 0 <= i < r1[t]@.len() implies rank(d, #[trigger] r1[t]@[i] as int, t)
                    <= rank(d, u, t) by {
                    assert(r1[t]@[i] == w[i]);
                }
            } else {
                assert(turned_away(d, last0, place0, y, s));
            }
        }
        assert forall|y: int| 0 <= y < n && #[trigger] place0[y] != -1 implies 0 <= place0[y] < m
            && r1[place0[y]]@.contains(y as usize) by {
            if place0[y] == t {
                assert(r1[t]@ == r0[t]@);
            }
        }
        assert forall|y: int| 0 <= y < n && #[trigger] place0[y] != -1 implies rank(d, y, place0[y])
            == last1[y] by {}
        assert forall|y: int| 0 <= y < n implies #[trigger] last1[y] <= m by {}
    } else {
        assert(e < old_len);
        assert(w[e] == r0[t]@[e]);
        assert(place0[x] == t);
        let free1 = free0.update(0, x as usize);
        let place1 = place0.update(u, t).update(x, -1);
        assert(x != u);
        assert forall|i: int| 0 <= i < v@.len() implies #[trigger] v@[i] == (if i < e {
            w[i]
        } else {
            w[i + 1]
        }) by {}
        assert forall|k: int, i: int|
            0 <= k < m && 0 <= i < r1[k]@.len() implies #[trigger] r1[k]@[i] < n && place1[r1[k]@[i] as int] == k by {
            if k == t {
                let j = if i < e { i } else { i + 1 };
                assert(r1[k]@[i] == w[j]);
                if j < old_len {
                    assert(w[j] == r0[t]@[j]);
                    assert(r0[t]@[j] != r0[t]@[e]);
                }
            } else {
                assert(r1[k]@[i] == r0[k]@[i]);
                assert(place0[r0[k]@[i] as int] == k);
            }
        }
        assert forall|k: int, i: int, j: int|
            0 <= k < m && 0 <= i < r1[k]@.len() && 0 <= j < r1[k]@.len() && i != j implies #[trigger] r1[k]@[i]
            != #[trigger] r1[k]@[j] by {
            if k == t {
                let a = if i < e { i } else { i + 1 };
                let b = if j < e { j } else { j + 1 };
                assert(r1[k]@[i] == w[a]);
                assert(r1[k]@[j] == w[b]);
                if a < old_len && b < old_len {
                    assert(r0[t]@[a] != r0[t]@[b]);
                }
            }
        }
        assert forall|y: int| 0 <= y < n && #[trigger] place1[y] != -1 implies 0 <= place1[y] < m
            && r1[place1[y]]@.contains(y as usize) by {
            if y == u {
                assert(r1[t]@[old_len - 1] == w[old_len]);
            } else {
                assert(place0[y] == place1[y]);
                if place1[y] == t {
                    assert(r0[t]@.contains(y as usize));
                    let j = choose|j: int| 0 <= j < r0[t]@.len() && r0[t]@[j] == y as usize;
                    assert(j != e);
                    if j < e {
                        assert(r1[t]@[j] == y);
                    } else {
                        assert(r1[t]@[j - 1] == y);
                    }
                }
            }
        }
        assert forall|i: int| 0 <= i < free1.len() implies #[trigger] free1[i] < n && place1[free1[i] as int] == -1 by {
            if i > 0 {
                assert(free0[i] != free0[0]);
            }
        }
        assert forall|y: int| 0 <= y < n && #[trigger] place1[y] == -1 implies free1.contains(y as usize) by {
            if y == x {
                assert(free1[0] == y);
            } else {
                assert(y != u);
                assert(place0[y] == -1);
                assert(free0.contains(y as usize));
                let j = choose|j: int| 0 <= j < free0.len() && free0[j] == y as usize;
                assert(j != 0);
                assert(free1[j] == y);
            }
        }
        assert forall|i: int, j: int| 0 <= i < free1.len() && 0 <= j < free1.len() && i != j implies free1[i] != free1[j] by {
            if i != 0 && j != 0 {
                assert(free0[i] != free0[j]);
            }
        }
        assert forall|y: int, s: int|
            0 <= y < n && 0 <= s < m && #[trigger] turned_away(d, last1, place1, y, s) implies holds_out(
            d,
            rosters_of(r1),
            s,
            y,
        ) by {
            assert(rosters_of(r0)[s] == r0[s]@);
            assert(rosters_of(r1)[s] == r1[s]@);
            if s == t {
                if y == x {
                    assert forall|i: int| 0 <= i < r1[t]@.len() implies rank(d, #[trigger] r1[t]@[i] as int, t)
                        <= rank(d, y, t) by {
                        let j = if i < e { i } else { i + 1 };
                        assert(r1[t]@[i] == w[j]);
                    }
                } else {
                    assert(turned_away(d, last0, place0, y, s));
                    assert(rank(d, x, t) <= rank(d, y, t));
                    assert forall|i: int| 0 <= i < r1[t]@.len() implies rank(d, #[trigger] r1[t]@[i] as int, t)
                        <= rank(d, y, t) by {
                        let j = if i < e { i } else { i + 1 };
                        assert(r1[t]@[i] == w[j]);
                        if j < old_len {
                            assert(w[j] == r0[t]@[j]);
                        }
                    }
                }
            } else {
                assert(turned_away(d, last0, place0, y, s));
            }
        }
        assert forall|y: int| 0 <= y < n && #[trigger] place1[y] != -1 implies rank(d, y, place1[y])
            == last1[y] by {}
        assert forall|y: int| 0 <= y < n implies #[trigger] last1[y] <= m by {}
    }
}

/// Once nobody waits, the rosters place every user exactly once and no
/// pair blocks them.
proof fn lemma_settled(
    d: DatasetView,
    r: Seq<Vec<usize>>,
    last: Seq<usize>,
    free: Seq<usize>,
    place: Seq<int>,
)
    requires
        proposal_state(d, r, last, free, place),
        free.len() == 0,
        d.n_users() <= usize::MAX,
    ensures
        complete_assignment(d, rosters_of(r)),
        stable(d, rosters_of(r)),
{
    let rs = rosters_of(r);
    let n = d.n_users() as int;
    let m = d.n_teams() as int;
    assert forall|t: int| 0 <= t < m implies #[trigger] rs[t] == r[t]@ by {}
    assert forall|y: int| 0 <= y < n implies #[trigger] placed(rs, y) by {
        if place[y] == -1 {
            assert(free.contains(y as usize));
        }
        let t = place[y];
        assert(r[t]@.contains(y as usize));
        let i = choose|i: int| 0 <= i < r[t]@.len() && r[t]@[i] == y as usize;
        assert(rs[t][i] == y);
    }
    assert forall|t1: int, i1: int, t2: int, i2: int|
        0 <= t1 < rs.len() && 0 <= i1 < rs[t1].len() && 0 <= t2 < rs.len() && 0 <= i2 < rs[t2].len()
            && #[trigger] rs[t1][i1] == #[trigger] rs[t2][i2] implies t1 == t2 && i1 == i2 by {
        assert(place[r[t1]@[i1] as int] == t1);
        assert(place[r[t2]@[i2] as int] == t2);
        if i1 != i2 {
            assert(r[t1]@[i1] != r[t1]@[i2]);
        }
    }
    assert forall|t: int, i: int, s: int|
        0 <= t < rs.len() && 0 <= i < rs[t].len() && 0 <= s < rs.len() && rank(
            d,
            #[trigger] rs[t][i] as int,
            s,
        ) < rank(d, rs[t][i] as int, t) implies #[trigger] holds_out(d, rs, s, rs[t][i] as int) by {
        let y = r[t]@[i] as int;
        assert(place[y] == t);
        assert(turned_away(d, last, place, y, s));
    }
}

/// The state of the proposal loop, as values: the rosters, the rank of each
/// user's latest proposal, and the queue of waiting users.
pub ghost struct ProposalRound {
    pub rosters: Seq<Seq<usize>>,
    pub last: Seq<usize>,
    pub free: Seq<usize>,
}

/// Team `t` is the best-ranked team that user `u` ranks above `above`.
pub open spec fn best_above(d: DatasetView, u: int, above: int, t: int) -> bool {
    &&& 0 <= t < d.n_teams()
    &&& above < rank(d, u, t)
    &&& forall|j: int| 0 <= j < d.n_teams() && above < #[trigger] rank(d, u, j) ==> rank(d, u, t) <= rank(d, u, j)
}

/// One proposal: the first waiting user proposes to their next team; a team
/// over capacity turns away the member it wants least, the latest to come
/// among equals.
pub open spec fn proposal_step(d: DatasetView, s: ProposalRound) -> ProposalRound {
    let u = s.free[0] as int;
    if exists|t: int| best_above(d, u, s.last[u] as int, t) {
        let t = choose|t: int| best_above(d, u, s.last[u] as int, t);
        let w = s.rosters[t].push(u as usize);
        let last = s.last.update(u, rank(d, u, t) as usize);
        if w.len() > d.capacities[t] {
            let e = choose|e: int| least_wanted_at(d, w, t, e);
            ProposalRound {
                rosters: s.rosters.update(t, w.remove(e)),
                last,
                free: if w[e] == u {
                    s.free
                } else {
                    s.free.update(0, w[e])
                },
            }
        } else {
            ProposalRound { rosters: s.rosters.update(t, w), last, free: s.free.remove(0) }
        }
    } else {
        s
    }
}

/// The rosters after at most `fuel` proposals, stopping once nobody waits.
pub open spec fn run_proposals(d: DatasetView, s: ProposalRound, fuel: nat) -> Seq<Seq<usize>>
    decreases fuel,
{
    if fuel == 0 || s.free.len() == 0 {
        s.rosters
    } else {
        run_proposals(d, proposal_step(d, s), (fuel - 1) as nat)
    }
}

/// Empty rosters, no proposal made, every user waiting in index order.
pub open spec fn first_round(d: DatasetView) -> ProposalRound {
    ProposalRound {
        rosters: Seq::new(d.n_teams(), |t: int| Seq::<usize>::empty()),
        last: Seq::new(d.n_users(), |u: int| 0usize),
        free: Seq::new(d.n_users(), |u: int| u as usize),
    }
}

/// The assignment that deferred acceptance computes on `d`: the rosters
/// once nobody waits, which takes at most `N * M` proposals.
pub open spec fn assignment_of(d: DatasetView) -> Seq<Seq<usize>> {
    run_proposals(d, first_round(d), d.n_users() * d.n_teams())
}

/// Matching the same dataset twice gives the same assignment.
pub proof fn lemma_matching_deterministic(a: DatasetView, b: DatasetView)
    requires
        a == b,
    ensures
        assignment_of(a) == assignment_of(b),
{
}

proof fn lemma_best_above_unique(d: DatasetView, u: int, above: int, t1: int, t2: int)
    requires
        valid(d),
        0 <= u < d.n_users(),
        best_above(d, u, above, t1),
        best_above(d, u, above, t2),
    ensures
        t1 == t2,
{
    assert(crate::validate::cell_clean(d, u, t1));
    assert(!crate::validate::tied(d, u, t1, t2));
}

proof fn lemma_least_wanted_unique(d: DatasetView, w: Seq<usize>, t: int, e1: int, e2: int)
    requires
        least_wanted_at(d, w, t, e1),
        least_wanted_at(d, w, t, e2),
    ensures
        e1 == e2,
{
    if e1 < e2 {
        assert(rank(d, w[e2] as int, t) < rank(d, w[e1] as int, t));
        assert(rank(d, w[e1] as int, t) <= rank(d, w[e2] as int, t));
    } else if e2 < e1 {
        assert(rank(d, w[e1] as int, t) < rank(d, w[e2] as int, t));
        assert(rank(d, w[e2] as int, t) <= rank(d, w[e1] as int, t));
    }
}

/// Matches users to teams by user-proposing deferred acceptance: free users
/// wait in a queue; the first proposes to the best-ranked team it has not
/// yet proposed to; a team over capacity turns away the member it wants
/// least (the latest to come among equals), who rejoins the queue at its
/// front in place of the proposer.
pub fn deferred_acceptance(ds: &Dataset) -> (r: Vec<Vec<usize>>)
    requires
        valid(ds@),
    ensures
        complete_assignment(ds@, rosters_of(r@)),
        stable(ds@, rosters_of(r@)),
        rosters_of(r@) == assignment_of(ds@),
{
    proof {
        use_type_invariant(ds);
    }
    let ghost d = ds@;
    let prefs = ds.preferences();
    let caps = ds.capacities();
    let n = ds.users().len();
    let m = ds.teams().len();
    assert forall|u: int| 0 <= u < n implies #[trigger] prefs@[u]@ == d.preferences[u] by {
        assert(rows_of(prefs@)[u] == prefs@[u]@);
    }
    let mut rosters: Vec<Vec<usize>> = Vec::new();
    let mut t: usize = 0;
    while t < m
        invariant
            t <= m,
            rosters@.len() == t,
            forall|k: int| 0 <= k < t ==> #[trigger] rosters@[k]@.len() == 0,
        decreases m - t,
    {
        rosters.push(Vec::new());
        t += 1;
    }
    let mut last: Vec<usize> = Vec::new();
    let mut free: Vec<usize> = Vec::new();
    let mut u: usize = 0;
    while u < n
        invariant
            u <= n,
            last@.len() == u,
            free@.len() == u,
            forall|k: int| 0 <= k < u ==> #[trigger] last@[k] == 0,
            forall|k: int| 0 <= k < u ==> #[trigger] free@[k] == k,
        decreases n - u,
    {
        last.push(0);
        free.push(u);
        u += 1;
    }
    let ghost mut place: Seq<int> = Seq::new(n as nat, |k: int| -1int);
    let ghost mut fuel: nat = (n * m) as nat;
    proof {
        let first = first_round(d);
        assert(rosters_of(rosters@) =~= first.rosters) by {
            assert forall|k: int| 0 <= k < m implies #[trigger] rosters_of(rosters@)[k] =~= first.rosters[k] by {}
        }
        assert(last@ =~= first.last);
        assert(free@ =~= first.free);
        lemma_seated_blank(rosters@);
        assert forall|k: int| 0 <= k < n && #[trigger] place[k] == -1 implies free@.contains(
            k as usize,
        ) by {
            assert(free@[k] == k);
        }
        assert forall|i: int, j: int| 0 <= i < free@.len() && 0 <= j < free@.len() && i != j implies free@[i] != free@[j] by {}
        lemma_total_bound(last@, 0);
        assert forall|u: int, t: int| 0 <= u < n && 0 <= t < m implies !#[trigger] turned_away(
            d,
            last@,
            place,
            u,
            t,
        ) by {
            assert(crate::validate::cell_clean(d, u, t));
        }
    }
    while free.len() > 0
        invariant
            d == ds@,
            valid(d),
            d.rectangular(),
            n == d.n_users(),
            m == d.n_teams(),
            prefs@.len() == n,
            forall|k: int| 0 <= k < n ==> #[trigger] prefs@[k]@ == d.preferences[k],
            caps@ == d.capacities,
            proposal_state(d, rosters@, last@, free@, place),
            total_of(last@) <= n * m,
            fuel + total_of(last@) >= n * m,
            run_proposals(
                d,
                ProposalRound { rosters: rosters_of(rosters@), last: last@, free: free@ },
                fuel,
            ) == assignment_of(d),
        decreases n * m - total_of(last@),
    {
        let u = free[0];
        let a = last[u];
        let ghost r0 = rosters@;
        let ghost last0 = last@;
        let ghost free0 = free@;
        let ghost place0 = place;
        let ghost cur = ProposalRound { rosters: rosters_of(r0), last: last0, free: free0 };
        match next_team(&prefs[u], a) {
            None => {
                proof {
                    assert forall|k: int| 0 <= k < m implies #[trigger] r0[k]@.len() == caps@[k] by {
                        assert(prefs@[u as int]@[k] <= a);
                        assert(free0[0] == u);
                        assert(place0[u as int] == -1);
                        assert(turned_away(d, last0, place0, u as int, k));
                        assert(rosters_of(r0)[k] == r0[k]@);
                    }
                    lemma_seated_full(r0, caps@);
                }
            },
            Some(t) => {
                proof {
                    assert(crate::validate::cell_clean(d, u as int, t as int));
                    assert forall|j: int|
                        0 <= j < m && last0[u as int] < #[trigger] rank(d, u as int, j) implies rank(
                        d,
                        u as int,
                        t as int,
                    ) <= rank(d, u as int, j) by {
                        assert(prefs@[u as int]@[j] > a);
                    }
                    assert(proposes(d, r0, last0, free0, place0, u as int, t as int));
                    lemma_proposal_facts(d, r0, last0, free0, place0, u as int, t as int);
                }
                let rk = prefs[u][t];
                last.set(u, rk);
                proof {
                    lemma_total_update(last0, u as int, rk);
                    lemma_total_bound(last@, m as int);
                }
                let mut ros: Vec<usize> = Vec::new();
                rosters.set_and_swap(t, &mut ros);
                ros.push(u);
                if ros.len() > caps[t] {
                    proof {
                        assert forall|i: int| 0 <= i < ros@.len() implies #[trigger] ros@[i] < prefs@.len() by {
                            if i < r0[t as int]@.len() {
                                assert(ros@[i] == r0[t as int]@[i]);
                            }
                        }
                    }
                    let e = least_wanted(prefs, &ros, t);
                    proof {
                        assert forall|i: int| 0 <= i < ros@.len() implies #[trigger] prefs@[ros@[i] as int]@[t as int]
                            == rank(d, ros@[i] as int, t as int) by {
                            assert(prefs@[ros@[i] as int]@ == d.preferences[ros@[i] as int]);
                        }
                        assert(prefs@[ros@[e as int] as int]@[t as int] == rank(d, ros@[e as int] as int, t as int));
                        assert forall|i: int| 0 <= i < ros@.len() implies rank(d, #[trigger] ros@[i] as int, t as int)
                            <= rank(d, ros@[e as int] as int, t as int) && (e < i ==> rank(d, ros@[i] as int, t as int)
                            < rank(d, ros@[e as int] as int, t as int)) by {
                            assert(prefs@[ros@[i] as int]@[t as int] == rank(d, ros@[i] as int, t as int));
                        }
                        assert(least_wanted_at(d, ros@, t as int, e as int));
                    }
                    let x = ros.remove(e);
                    proof {
                        lemma_evict(d, r0, last0, free0, place0, u as int, t as int, e as int, ros);
                    }
                    rosters.set(t, ros);
                    assert(rosters@ =~= r0.update(t as int, ros));
                    if x != u {
                        free.set(0, x);
                        proof {
                            place = place.update(u as int, t as int).update(x as int, -1);
                        }
                    }
                    proof {
                        let w = r0[t as int]@.push(u as usize);
                        let e2 = choose|e2: int| least_wanted_at(d, w, t as int, e2);
                        lemma_least_wanted_unique(d, w, t as int, e as int, e2);
                    }
                } else {
                    proof {
                        lemma_seat(d, r0, last0, free0, place0, u as int, t as int, ros);
                    }
                    rosters.set(t, ros);
                    assert(rosters@ =~= r0.update(t as int, ros));
                    free.remove(0);
                    proof {
                        place = place.update(u as int, t as int);
                    }
                }
                proof {
                    assert(best_above(d, u as int, last0[u as int] as int, t as int));
                    let t2 = choose|t2: int| best_above(d, u as int, last0[u as int] as int, t2);
                    lemma_best_above_unique(d, u as int, last0[u as int] as int, t as int, t2);
                    assert(rosters_of(r0)[t as int] == r0[t as int]@);
                    let next = proposal_step(d, cur);
                    assert(rosters_of(rosters@) =~= next.rosters);
                    assert(last@ == next.last);
                    assert(free@ == next.free);
                    fuel = (fuel - 1) as nat;
                }
            },
        }
    }
    proof {
        lemma_settled(d, rosters@, last@, free@, place);
    }
    rosters
}

/// Validates `ds`, then matches it: the first broken rule when there is
/// one, else a complete and stable assignment of user indices to teams.
pub fn match_teams(ds: &Dataset) -> (r: Result<Vec<Vec<usize>>, Violation>)
    ensures
        r is Ok <==> valid(ds@),
        r matches Err(v) ==> first_violation(ds@, v),
        r matches Ok(a) ==> complete_assignment(ds@, rosters_of(a@)) && stable(ds@, rosters_of(a@))
            && rosters_of(a@) == assignment_of(ds@),
{
    match check(ds) {
        Ok(()) => Ok(deferred_acceptance(ds)),
        Err(v) => Err(v),
    }
}

/// The names of the users in each roster, in roster order.
pub fn roster_names(ds: &Dataset, rosters: &Vec<Vec<usize>>) -> (r: Vec<Vec<String>>)
    requires
        forall|t: int, i: int|
            0 <= t < rosters@.len() && 0 <= i < rosters@[t]@.len() ==> #[trigger] rosters@[t]@[i]
                < ds@.n_users(),
    ensures
        r@.len() == rosters@.len(),
        forall|t: int| 0 <= t < r@.len() ==> #[trigger] r@[t]@.len() == rosters@[t]@.len(),
        forall|t: int, i: int|
            0 <= t < r@.len() && 0 <= i < r@[t]@.len() ==> #[trigger] r@[t]@[i] == ds@.users[rosters@[t]@[i] as int],
{
    let users = ds.users();
    let mut r: Vec<Vec<String>> = Vec::new();
    let mut t: usize = 0;
    while t < rosters.len()
        invariant
            users@ == ds@.users,
            t <= rosters@.len(),
            r@.len() == t,
            forall|t: int, i: int|
                0 <= t < rosters@.len() && 0 <= i < rosters@[t]@.len() ==> #[trigger] rosters@[t]@[i]
                    < ds@.n_users(),
            forall|k: int| 0 <= k < t ==> #[trigger] r@[k]@.len() == rosters@[k]@.len(),
            forall|k: int, i: int|
                0 <= k < t && 0 <= i < r@[k]@.len() ==> #[trigger] r@[k]@[i] == ds@.users[rosters@[k]@[i] as int],
        decreases rosters.len() - t,
    {
        let roster = &rosters[t];
        let mut names: Vec<String> = Vec::new();
        let mut i: usize = 0;
        while i < roster.len()
            invariant
                users@ == ds@.users,
                roster@ == rosters@[t as int]@,
                t < rosters@.len(),
                forall|t: int, i: int|
                    0 <= t < rosters@.len() && 0 <= i < rosters@[t]@.len() ==> #[trigger] rosters@[t]@[i]
                        < ds@.n_users(),
                i <= roster@.len(),
                names@.len() == i,
                forall|k: int| 0 <= k < i ==> #[trigger] names@[k] == ds@.users[roster@[k] as int],
            decreases roster.len() - i,
        {
            names.push(users[roster[i]].clone());
            i += 1;
        }
        r.push(names);
        t += 1;
    }
    r
}

/// Validates `ds`, then matches it and names the members of each team: the
/// first broken rule when there is one, else, team by team, the names of
/// the users of a complete and stable assignment.
pub fn match_names(ds: &Dataset) -> (r: Result<Vec<Vec<String>>, Violation>)
    ensures
        r is Ok <==> valid(ds@),
        r matches Err(v) ==> first_violation(ds@, v),
        r matches Ok(names) ==> names@.map_values(|v: Vec<String>| v@) == names_of(
            ds@,
            assignment_of(ds@),
        ),
        r is Ok ==> complete_assignment(ds@, assignment_of(ds@)) && stable(ds@, assignment_of(ds@)),
{
    match match_teams(ds) {
        Ok(a) => {
            proof {
                assert forall|t: int, i: int|
                    0 <= t < a@.len() && 0 <= i < a@[t]@.len() implies #[trigger] a@[t]@[i] < ds@.n_users() by {
                    assert(rosters_of(a@)[t] == a@[t]@);
                    assert(rosters_of(a@)[t][i] == a@[t]@[i]);
                }
            }
            let names = roster_names(ds, &a);
            proof {
                let lhs = names_of(ds@, rosters_of(a@));
                let rhs = names@.map_values(|v: Vec<String>| v@);
                assert forall|t: int| 0 <= t < lhs.len() implies #[trigger] lhs[t] =~= rhs[t] by {
                    assert(rosters_of(a@)[t] == a@[t]@);
                }
                assert(lhs =~= rhs);
            }
            Ok(names)
        },
        Err(v) => Err(v),
    }
}

/// The names of the users of each roster of `a`.
pub open spec fn names_of(d: DatasetView, a: Seq<Seq<usize>>) -> Seq<Seq<String>> {
    a.map_values(|r: Seq<usize>| r.map_values(|u: usize| d.users[u as int]))
}

} // verus!
