//! What holds of every split and every allocation the balancer produces.

use vstd::prelude::*;
use crate::listing::{abs, listing, map_total, lemma_listing_exists, lemma_listing_len, lemma_map_total_split, lemma_map_total_bound, lemma_map_magnitude_bound};
use crate::ordering::{sort_by_key, lemma_sort_by_key_items, lemma_sorted_member};
use crate::combinations::{combinations, binomial, strictly_increasing, lemma_combination_shape, lemma_combinations_count, lemma_combination_complete};
use crate::balancing::{split_of, allocations, candidate_teams, keyed_candidates, keys_except, team_size, deviation_key, lemma_keys_except_members, lemma_push_to_set, nth_highest, weighted_allocations, hybrid_draft_allocations, by_score_descending, lemma_nth_highest_member, by_score_ascending, lemma_by_score_ascending_items, draft_team, lobby_sizes, lobby_counts};

verus! {

/// A split cuts the pool into two disjoint teams that together hold every
/// player; the team sums add up to the pool's sum, and the doubled distance
/// from ideal is the gap between the two sums.
pub proof fn lemma_split_of_partition(players: Map<u64, i64>, team1: Map<u64, i64>)
    requires
        players.dom().finite(),
        team1.submap_of(players),
    ensures
        split_of(players, team1).team1.dom().union(split_of(players, team1).team2.dom())
            == players.dom(),
        split_of(players, team1).team1.dom().disjoint(split_of(players, team1).team2.dom()),
        split_of(players, team1).team2.submap_of(players),
        split_of(players, team1).team1_elo_sum + split_of(players, team1).team2_elo_sum
            == map_total(players),
        split_of(players, team1).double_distance_from_ideal == abs(
            split_of(players, team1).team2_elo_sum - split_of(players, team1).team1_elo_sum,
        ),
{
    lemma_map_total_split(players, team1.dom());
    assert(players.restrict(team1.dom()) =~= team1);
    let v = split_of(players, team1);
    assert(v.team1.dom().union(v.team2.dom()) =~= players.dom());
}

/// Each candidate team holds `fixed` and half the players (rounded down),
/// leaves out `excluded`, and is part of the pool.
pub proof fn lemma_candidate_team(
    players: Map<u64, i64>,
    fixed: u64,
    excluded: Option<u64>,
    j: int,
)
    requires
        players.dom().finite(),
        players.contains_key(fixed),
        team_size(players) >= 1,
        0 <= j < candidate_teams(players, fixed, excluded).len(),
    ensures
        candidate_teams(players, fixed, excluded)[j].submap_of(players),
        candidate_teams(players, fixed, excluded)[j].contains_key(fixed),
        excluded is Some && excluded->0 != fixed ==> !candidate_teams(
            players,
            fixed,
            excluded,
        )[j].contains_key(excluded->0),
        candidate_teams(players, fixed, excluded)[j].dom().len() == team_size(players),
{
    let e = listing(players);
    lemma_listing_exists(players);
    lemma_keys_except_members(e, players, fixed, excluded);
    let rest = keys_except(e, fixed, excluded);
    let k = (team_size(players) - 1) as nat;
    let c = combinations(rest, k)[j];
    lemma_combination_shape(rest, k, j);
    let ids = c.push(fixed);
    let team = candidate_teams(players, fixed, excluded)[j];
    assert(team == players.restrict(ids.to_set()));
    assert forall|a: int| 0 <= a < c.len() implies #[trigger] c[a] != fixed && players.contains_key(
        c[a],
    ) && excluded != Some(c[a]) by {
        assert(rest.contains(c[a]));
        let q = choose|q: int| 0 <= q < rest.len() && rest[q] == c[a];
    }
    assert forall|a: int, b: int| 0 <= a < ids.len() && 0 <= b < ids.len() && a != b
        implies ids[a] != ids[b] by {
        if a < c.len() && b < c.len() {
            if a < b {
                assert(c[a] < c[b]);
            } else {
                assert(c[b] < c[a]);
            }
        } else if a < c.len() {
            assert(c[a] != fixed);
        } else {
            assert(c[b] != fixed);
        }
    }
    assert(ids.no_duplicates());
    ids.unique_seq_to_set();
    lemma_push_to_set(c, fixed);
    assert forall|q: u64| ids.to_set().contains(q) implies players.contains_key(q) by {
        if q != fixed {
            assert(c.contains(q));
            let a = choose|a: int| 0 <= a < c.len() && c[a] == q;
        }
    }
    assert(team.dom() =~= ids.to_set());
    if let Some(x) = excluded {
        if x != fixed && team.contains_key(x) {
            assert(ids.to_set().contains(x));
            assert(x != fixed);
            assert(c.contains(x));
            let a = choose|a: int| 0 <= a < c.len() && c[a] == x;
        }
    }
}

/// Every allocation is the split of the pool around one of the candidate
/// teams: team1 holds `fixed` and half the players, never `excluded`.
pub proof fn lemma_allocation_shape(
    players: Map<u64, i64>,
    fixed: u64,
    excluded: Option<u64>,
    i: int,
)
    requires
        players.dom().finite(),
        players.contains_key(fixed),
        allocations(players, fixed, excluded).len() <= usize::MAX,
        0 <= i < allocations(players, fixed, excluded).len(),
    ensures
        allocations(players, fixed, excluded)[i] == split_of(
            players,
            allocations(players, fixed, excluded)[i].team1,
        ),
        allocations(players, fixed, excluded)[i].team1.submap_of(players),
        allocations(players, fixed, excluded)[i].team1.contains_key(fixed),
        allocations(players, fixed, excluded)[i].team1.dom().len() == team_size(players),
        excluded is Some && excluded->0 != fixed ==> !allocations(
            players,
            fixed,
            excluded,
        )[i].team1.contains_key(excluded->0),
{
    let teams = candidate_teams(players, fixed, excluded);
    let keyed = keyed_candidates(players, fixed, excluded);
    lemma_sort_by_key_items(keyed);
    lemma_sorted_member(keyed, i);
    let p = sort_by_key(keyed)[i];
    let q = choose|q: int| 0 <= q < keyed.len() && keyed[q] == p;
    assert(p.0 as int == q);
    lemma_candidate_team(players, fixed, excluded, q);
}

/// Allocations come best balanced first: the deviation from ideal never
/// decreases along the list.
pub proof fn lemma_allocations_ordered(
    players: Map<u64, i64>,
    fixed: u64,
    excluded: Option<u64>,
    i: int,
    j: int,
)
    requires
        players.dom().finite(),
        players.dom().len() <= usize::MAX,
        players.contains_key(fixed),
        allocations(players, fixed, excluded).len() <= usize::MAX,
        0 <= i < j < allocations(players, fixed, excluded).len(),
    ensures
        deviation_key(map_total(players), allocations(players, fixed, excluded)[i].team1_elo_sum)
            <= deviation_key(
            map_total(players),
            allocations(players, fixed, excluded)[j].team1_elo_sum,
        ),
{
    let teams = candidate_teams(players, fixed, excluded);
    let keyed = keyed_candidates(players, fixed, excluded);
    let sorted = sort_by_key(keyed);
    lemma_sort_by_key_items(keyed);
    assert(sorted[i].1 <= sorted[j].1);
    lemma_sorted_member(keyed, i);
    lemma_sorted_member(keyed, j);
    let qi = choose|q: int| 0 <= q < keyed.len() && keyed[q] == sorted[i];
    let qj = choose|q: int| 0 <= q < keyed.len() && keyed[q] == sorted[j];
    lemma_candidate_team(players, fixed, excluded, qi);
    lemma_candidate_team(players, fixed, excluded, qj);
    assert(sorted[i].0 as int == qi);
    assert(sorted[j].0 as int == qj);
    lemma_in_range(players, teams[qi]);
    lemma_in_range(players, teams[qj]);
    assert(allocations(players, fixed, excluded)[i] == split_of(players, teams[qi]));
    assert(allocations(players, fixed, excluded)[j] == split_of(players, teams[qj]));
}

/// `keys_except` keeps every key of the list other than `fixed` and
/// `excluded`.
proof fn lemma_keys_except_complete(s: Seq<(u64, i64)>, fixed: u64, excluded: Option<u64>, k: u64)
    requires
        has_key(s, k),
        k != fixed,
        excluded != Some(k),
    ensures
        keys_except(s, fixed, excluded).contains(k),
    decreases s.len(),
{
    let t = s.drop_last();
    let rest = keys_except(t, fixed, excluded);
    if s.last().0 == k {
        assert(rest.push(k)[rest.len() as int] == k);
    } else {
        let i = choose|i: int| 0 <= i < s.len() && s[i].0 == k;
        assert(t[i].0 == k);
        lemma_keys_except_complete(t, fixed, excluded, k);
        let j = choose|j: int| 0 <= j < rest.len() && rest[j] == k;
        if s.last().0 != fixed && excluded != Some(s.last().0) {
            assert(rest.push(s.last().0)[j] == k);
        }
    }
}

/// Keeping some items of a strictly increasing list leaves a strictly
/// increasing list of its items.
proof fn lemma_filter_increasing(s: Seq<u64>, pred: spec_fn(u64) -> bool)
    requires
        strictly_increasing(s),
    ensures
        strictly_increasing(s.filter(pred)),
        forall|j: int| 0 <= j < s.filter(pred).len() ==> s.contains(#[trigger] s.filter(pred)[j]),
    decreases s.len(),
{
    reveal(Seq::filter);
    if s.len() > 0 {
        let t = s.drop_last();
        assert(strictly_increasing(t)) by {
            assert forall|a: int, b: int| 0 <= a < b < t.len() implies #[trigger] t[a]
                < #[trigger] t[b] by {
                assert(s[a] < s[b]);
            }
        }
        lemma_filter_increasing(t, pred);
        let f = t.filter(pred);
        assert forall|j: int| 0 <= j < f.len() implies s.contains(#[trigger] f[j]) && f[j] < s.last() by {
            let q = choose|q: int| 0 <= q < t.len() && t[q] == f[j];
            assert(s[q] == f[j]);
            assert(s[q] < s[s.len() - 1]);
        }
        if pred(s.last()) {
            let g = f.push(s.last());
            assert(s.filter(pred) == g);
            assert forall|a: int, b: int| 0 <= a < b < g.len() implies #[trigger] g[a]
                < #[trigger] g[b] by {
                if b < f.len() {
                    assert(f[a] < f[b]);
                } else {
                    assert(f[a] < s.last());
                }
            }
            assert forall|j: int| 0 <= j < g.len() implies s.contains(#[trigger] g[j]) by {
                if j < f.len() {
                    assert(s.contains(f[j]));
                } else {
                    assert(s[s.len() - 1] == g[j]);
                }
            }
        } else {
            assert(s.filter(pred) == f);
        }
    }
}

/// No team with `fixed` and half the players, without `excluded`, is
/// better balanced than the first allocation: the list is every such team,
/// best balanced first.
pub proof fn lemma_first_allocation_optimal(
    players: Map<u64, i64>,
    fixed: u64,
    excluded: Option<u64>,
    team: Map<u64, i64>,
)
    requires
        players.dom().finite(),
        players.dom().len() <= usize::MAX,
        players.contains_key(fixed),
        allocations(players, fixed, excluded).len() <= usize::MAX,
        team.submap_of(players),
        team.contains_key(fixed),
        excluded is Some && excluded->0 != fixed ==> !team.contains_key(excluded->0),
        team.dom().len() == team_size(players),
    ensures
        allocations(players, fixed, excluded).len() > 0,
        allocations(players, fixed, excluded)[0].double_distance_from_ideal <= split_of(
            players,
            team,
        ).double_distance_from_ideal,
{
    broadcast use vstd::seq_lib::group_to_multiset_ensures;

    let e = listing(players);
    lemma_listing_exists(players);
    lemma_keys_except_members(e, players, fixed, excluded);
    let rest = keys_except(e, fixed, excluded);
    vstd::set_lib::lemma_set_subset_finite(players.dom(), team.dom());
    assert(team.dom().contains(fixed));
    assert(team_size(players) >= 1);
    let k = (team_size(players) - 1) as nat;
    let pred = |x: u64| team.contains_key(x);
    let c = rest.filter(pred);
    lemma_filter_increasing(rest, pred);
    assert(c.to_set() =~= team.dom().remove(fixed)) by {
        assert forall|x: u64| c.to_set().contains(x) implies team.dom().remove(fixed).contains(x) by {
            let j = choose|j: int| 0 <= j < c.len() && c[j] == x;
            rest.lemma_filter_pred(pred, j);
            assert(rest.contains(x));
            let q = choose|q: int| 0 <= q < rest.len() && rest[q] == x;
        }
        assert forall|x: u64| team.dom().remove(fixed).contains(x) implies c.to_set().contains(x) by {
            assert(players.contains_key(x));
            let i = choose|i: int| 0 <= i < e.len() && e[i].0 == x;
            assert(has_key(e, x));
            lemma_keys_except_complete(e, fixed, excluded, x);
            let q = choose|q: int| 0 <= q < rest.len() && rest[q] == x;
            rest.lemma_filter_contains(pred, q);
        }
    }
    assert(c.no_duplicates()) by {
        assert forall|a: int, b: int| 0 <= a < c.len() && 0 <= b < c.len() && a != b implies c[a]
            != c[b] by {
            if a < b {
                assert(c[a] < c[b]);
            } else {
                assert(c[b] < c[a]);
            }
        }
    }
    c.unique_seq_to_set();
    assert(c.len() == k);
    lemma_combination_complete(rest, c);
    let combos = combinations(rest, k);
    let q = choose|q: int| 0 <= q < combos.len() && combos[q] == c;
    let teams = candidate_teams(players, fixed, excluded);
    lemma_push_to_set(c, fixed);
    assert(c.push(fixed).to_set() =~= team.dom());
    assert(teams[q] =~= team);
    let keyed = keyed_candidates(players, fixed, excluded);
    let sorted = sort_by_key(keyed);
    lemma_sort_by_key_items(keyed);
    assert(keyed.len() == combos.len());
    assert(keyed.contains(keyed[q]));
    assert(keyed.to_multiset().count(keyed[q]) > 0);
    assert(sorted.to_multiset().count(keyed[q]) > 0);
    assert(sorted.contains(keyed[q]));
    let p = choose|p: int| 0 <= p < sorted.len() && sorted[p] == keyed[q];
    if p > 0 {
        assert(sorted[0].1 <= sorted[p].1);
    }
    lemma_sorted_member(keyed, 0);
    let q0 = choose|r: int| 0 <= r < keyed.len() && keyed[r] == sorted[0];
    assert(sorted[0].0 as int == q0);
    lemma_candidate_team(players, fixed, excluded, q0);
    lemma_in_range(players, teams[q0]);
    lemma_in_range(players, team);
    assert(allocations(players, fixed, excluded)[0] == split_of(players, teams[q0]));
}

/// `weighted_allocation` is best balanced first: no team holding the
/// highest-scored player and half the players is better balanced than the
/// first split it offers.
pub proof fn lemma_weighted_first_optimal(players: Map<u64, i64>, team: Map<u64, i64>)
    requires
        players.dom().finite(),
        players.dom().len() <= usize::MAX,
        weighted_allocations(players).len() <= usize::MAX,
        players.dom().len() > 0,
        team.submap_of(players),
        team.contains_key(nth_highest(players, 0)->0),
        team.dom().len() == team_size(players),
    ensures
        weighted_allocations(players).len() > 0,
        weighted_allocations(players)[0].double_distance_from_ideal <= split_of(
            players,
            team,
        ).double_distance_from_ideal,
{
    lemma_nth_highest_top(players);
    lemma_first_allocation_optimal(players, nth_highest(players, 0)->0, None, team);
}

/// `hybrid_draft_weighted_allocation` is best balanced first: no team with
/// the top-ranked player, without the second-ranked one, and with half the
/// players is better balanced than the first split it offers.
pub proof fn lemma_hybrid_draft_first_optimal(players: Map<u64, i64>, team: Map<u64, i64>)
    requires
        players.dom().finite(),
        players.dom().len() <= usize::MAX,
        hybrid_draft_allocations(players).len() <= usize::MAX,
        players.dom().len() >= 2,
        team.submap_of(players),
        team.contains_key(nth_highest(players, 0)->0),
        !team.contains_key(nth_highest(players, 1)->0),
        team.dom().len() == team_size(players),
    ensures
        hybrid_draft_allocations(players).len() > 0,
        hybrid_draft_allocations(players)[0].double_distance_from_ideal <= split_of(
            players,
            team,
        ).double_distance_from_ideal,
{
    lemma_captains_distinct(players);
    lemma_nth_highest_top(players);
    lemma_first_allocation_optimal(
        players,
        nth_highest(players, 0)->0,
        nth_highest(players, 1),
        team,
    );
}

/// The deviation key of a team of the pool fits in an `i128`.
proof fn lemma_in_range(players: Map<u64, i64>, team: Map<u64, i64>)
    requires
        players.dom().finite(),
        players.dom().len() <= usize::MAX,
        team.submap_of(players),
    ensures
        i128::MIN < deviation_key(map_total(players), map_total(team)) < i128::MAX,
{
    lemma_map_magnitude_bound(players);
    vstd::set_lib::lemma_set_subset_finite(players.dom(), team.dom());
    assert(players.remove_keys(team.dom()).dom() =~= players.dom().difference(team.dom()));
    lemma_map_total_split(players, team.dom());
    assert(players.restrict(team.dom()) =~= team);
    lemma_map_total_bound(team);
    lemma_map_total_bound(players.remove_keys(team.dom()));
    assert(players.dom().len() * 0x8000_0000_0000_0000 <= 0xffff_ffff_ffff_ffff
        * 0x8000_0000_0000_0000);
}

pub open spec fn has_key(s: Seq<(u64, i64)>, k: u64) -> bool {
    exists|i: int| 0 <= i < s.len() && s[i].0 == k
}

/// Leaving out `fixed` and `excluded` drops one entry for each of them that
/// the list holds.
pub proof fn lemma_keys_except_len(s: Seq<(u64, i64)>, fixed: u64, excluded: Option<u64>)
    requires
        forall|i: int, j: int| 0 <= i < j < s.len() ==> #[trigger] s[i].0 < #[trigger] s[j].0,
    ensures
        keys_except(s, fixed, excluded).len() + (if has_key(s, fixed) {
            1int
        } else {
            0int
        }) + (if excluded is Some && excluded->0 != fixed && has_key(s, excluded->0) {
            1int
        } else {
            0int
        }) == s.len(),
    decreases s.len(),
{
    if s.len() > 0 {
        let t = s.drop_last();
        let k = s.last().0;
        assert forall|i: int, j: int| 0 <= i < j < t.len() implies #[trigger] t[i].0
            < #[trigger] t[j].0 by {
            assert(s[i].0 < s[j].0);
        }
        lemma_keys_except_len(t, fixed, excluded);
        assert forall|q: u64| #[trigger] has_key(s, q) == (has_key(t, q) || q == k) by {
            if has_key(s, q) {
                let i = choose|i: int| 0 <= i < s.len() && s[i].0 == q;
                if i < t.len() {
                    assert(t[i].0 == q);
                }
            }
            if has_key(t, q) {
                let i = choose|i: int| 0 <= i < t.len() && t[i].0 == q;
                assert(s[i].0 == q);
            }
            if q == k {
                assert(s[s.len() - 1].0 == q);
            }
        }
        assert(!has_key(t, k)) by {
            if has_key(t, k) {
                let i = choose|i: int| 0 <= i < t.len() && t[i].0 == k;
                assert(s[i].0 < s[s.len() - 1].0);
            }
        }
    }
}

/// The number of allocations around `fixed`, leaving out `excluded`: the
/// other members of team1 are chosen from the players left.
pub proof fn lemma_allocations_count(players: Map<u64, i64>, fixed: u64, excluded: Option<u64>)
    requires
        players.dom().finite(),
        players.contains_key(fixed),
        team_size(players) >= 1,
    ensures
        allocations(players, fixed, excluded).len() == binomial(
            (players.dom().len() - 1 - (if excluded is Some && excluded->0 != fixed
                && players.contains_key(excluded->0) {
                1int
            } else {
                0int
            })) as nat,
            (team_size(players) - 1) as nat,
        ),
{
    let e = listing(players);
    lemma_listing_exists(players);
    lemma_listing_len(e, players);
    lemma_keys_except_len(e, fixed, excluded);
    assert(has_key(e, fixed)) by {
        let i = choose|i: int| 0 <= i < e.len() && e[i].0 == fixed;
    }
    if let Some(x) = excluded {
        if players.contains_key(x) {
            assert(has_key(e, x)) by {
                let i = choose|i: int| 0 <= i < e.len() && e[i].0 == x;
            }
        } else {
            if has_key(e, x) {
                let i = choose|i: int| 0 <= i < e.len() && e[i].0 == x;
                assert(players.contains_key(e[i].0));
            }
        }
    }
    let rest = keys_except(e, fixed, excluded);
    lemma_combinations_count(rest, (team_size(players) - 1) as nat);
    lemma_sort_by_key_items(keyed_candidates(players, fixed, excluded));
}

/// The top-ranked player holds the highest score of the pool.
pub proof fn lemma_nth_highest_top(players: Map<u64, i64>)
    requires
        players.dom().finite(),
        players.dom().len() > 0,
    ensures
        nth_highest(players, 0) is Some,
        players.contains_key(nth_highest(players, 0)->0),
        forall|k: u64| #[trigger] players.contains_key(k) ==> players[k] <= players[nth_highest(
            players,
            0,
        )->0],
{
    broadcast use vstd::seq_lib::group_to_multiset_ensures;

    let e = listing(players);
    lemma_listing_exists(players);
    lemma_listing_len(e, players);
    lemma_nth_highest_member(players, 0);
    let keyed = e.map_values(|x: (u64, i64)| (x, (-(x.1 as int)) as i128));
    let sorted = sort_by_key(keyed);
    lemma_sort_by_key_items(keyed);
    assert(sorted.len() == e.len());
    lemma_sorted_member(keyed, 0);
    let q0 = choose|q: int| 0 <= q < keyed.len() && keyed[q] == sorted[0];
    assert(by_score_descending(e)[0] == sorted[0].0);
    assert forall|k: u64| #[trigger] players.contains_key(k) implies players[k] <= players[nth_highest(
        players,
        0,
    )->0] by {
        let q = choose|q: int| 0 <= q < e.len() && e[q].0 == k;
        assert(keyed.contains(keyed[q]));
        assert(keyed.to_multiset().count(keyed[q]) > 0);
        assert(sorted.to_multiset().count(keyed[q]) > 0);
        assert(sorted.contains(keyed[q]));
        let p = choose|p: int| 0 <= p < sorted.len() && sorted[p] == keyed[q];
        if p > 0 {
            assert(sorted[0].1 <= sorted[p].1);
        }
        assert(players.contains_key(e[q0].0));
    }
}

/// `weighted_allocation`: every split keeps the highest-scored player in
/// team1 with half the pool, the other players on team2.
pub proof fn lemma_weighted_allocation_split(players: Map<u64, i64>, i: int)
    requires
        players.dom().finite(),
        weighted_allocations(players).len() <= usize::MAX,
        0 <= i < weighted_allocations(players).len(),
    ensures
        nth_highest(players, 0) is Some,
        weighted_allocations(players)[i].team1.contains_key(nth_highest(players, 0)->0),
        weighted_allocations(players)[i].team1.submap_of(players),
        weighted_allocations(players)[i].team1.dom().len() == team_size(players),
        weighted_allocations(players)[i] == split_of(players, weighted_allocations(players)[i].team1),
{
    lemma_listing_exists(players);
    lemma_nth_highest_member(players, 0);
    let h = nth_highest(players, 0)->0;
    lemma_allocation_shape(players, h, None, i);
}

/// `weighted_allocation` lists every split with the highest-scored player
/// in team1: `n - 1` choose `n / 2 - 1` of them for `n >= 2` players.
pub proof fn lemma_weighted_allocation_count(players: Map<u64, i64>)
    requires
        players.dom().finite(),
        players.dom().len() >= 2,
    ensures
        weighted_allocations(players).len() == binomial(
            (players.dom().len() - 1) as nat,
            (team_size(players) - 1) as nat,
        ),
{
    lemma_nth_highest_top(players);
    lemma_allocations_count(players, nth_highest(players, 0)->0, None);
}

/// `weighted_allocation` comes best balanced first.
pub proof fn lemma_weighted_allocation_ordered(players: Map<u64, i64>, i: int, j: int)
    requires
        players.dom().finite(),
        players.dom().len() <= usize::MAX,
        weighted_allocations(players).len() <= usize::MAX,
        0 <= i < j < weighted_allocations(players).len(),
    ensures
        deviation_key(map_total(players), weighted_allocations(players)[i].team1_elo_sum)
            <= deviation_key(map_total(players), weighted_allocations(players)[j].team1_elo_sum),
{
    lemma_listing_exists(players);
    lemma_nth_highest_member(players, 0);
    lemma_allocations_ordered(players, nth_highest(players, 0)->0, None, i, j);
}

/// The two top-ranked players are different players.
pub proof fn lemma_captains_distinct(players: Map<u64, i64>)
    requires
        players.dom().finite(),
        players.dom().len() >= 2,
    ensures
        nth_highest(players, 0) is Some,
        nth_highest(players, 1) is Some,
        nth_highest(players, 0)->0 != nth_highest(players, 1)->0,
        players.contains_key(nth_highest(players, 0)->0),
        players.contains_key(nth_highest(players, 1)->0),
{
    broadcast use vstd::seq_lib::group_to_multiset_ensures;

    let e = listing(players);
    lemma_listing_exists(players);
    lemma_listing_len(e, players);
    lemma_nth_highest_member(players, 0);
    lemma_nth_highest_member(players, 1);
    let keyed = e.map_values(|x: (u64, i64)| (x, (-(x.1 as int)) as i128));
    let sorted = sort_by_key(keyed);
    lemma_sort_by_key_items(keyed);
    lemma_sorted_member(keyed, 0);
    lemma_sorted_member(keyed, 1);
    let a = choose|q: int| 0 <= q < keyed.len() && keyed[q] == sorted[0];
    let b = choose|q: int| 0 <= q < keyed.len() && keyed[q] == sorted[1];
    assert(keyed.no_duplicates()) by {
        assert forall|x: int, y: int| 0 <= x < keyed.len() && 0 <= y < keyed.len() && x != y
            implies keyed[x] != keyed[y] by {
            assert(e[x] != e[y]);
        }
    }
    keyed.lemma_multiset_has_no_duplicates();
    sorted.lemma_multiset_has_no_duplicates_conv();
    assert(sorted[0] != sorted[1]);
    if a == b {
        assert(false);
    } else if a < b {
        assert(e[a].0 < e[b].0);
    } else {
        assert(e[b].0 < e[a].0);
    }
}

/// `hybrid_draft_weighted_allocation`: every split has the top-ranked player
/// in team1 and the second-ranked one in team2, with half the pool in team1.
pub proof fn lemma_hybrid_draft_split(players: Map<u64, i64>, i: int)
    requires
        players.dom().finite(),
        hybrid_draft_allocations(players).len() <= usize::MAX,
        0 <= i < hybrid_draft_allocations(players).len(),
    ensures
        nth_highest(players, 0) is Some,
        nth_highest(players, 1) is Some,
        hybrid_draft_allocations(players)[i].team1.contains_key(nth_highest(players, 0)->0),
        hybrid_draft_allocations(players)[i].team2.contains_key(nth_highest(players, 1)->0),
        hybrid_draft_allocations(players)[i].team1.submap_of(players),
        hybrid_draft_allocations(players)[i].team1.dom().len() == team_size(players),
        hybrid_draft_allocations(players)[i] == split_of(
            players,
            hybrid_draft_allocations(players)[i].team1,
        ),
{
    lemma_listing_exists(players);
    lemma_listing_len(listing(players), players);
    let keyed = listing(players).map_values(|x: (u64, i64)| (x, (-(x.1 as int)) as i128));
    lemma_sort_by_key_items(keyed);
    assert(players.dom().len() >= 2);
    lemma_captains_distinct(players);
    let c1 = nth_highest(players, 0)->0;
    let c2 = nth_highest(players, 1)->0;
    lemma_allocation_shape(players, c1, Some(c2), i);
}

/// `hybrid_draft_weighted_allocation` lists every split with the captains
/// apart: `n - 2` choose `n / 2 - 1` of them for `n >= 2` players.
pub proof fn lemma_hybrid_draft_count(players: Map<u64, i64>)
    requires
        players.dom().finite(),
        players.dom().len() >= 2,
    ensures
        hybrid_draft_allocations(players).len() == binomial(
            (players.dom().len() - 2) as nat,
            (team_size(players) - 1) as nat,
        ),
{
    lemma_captains_distinct(players);
    lemma_allocations_count(players, nth_highest(players, 0)->0, nth_highest(players, 1));
}

/// Ranking a table by score names each player once.
pub proof fn lemma_ranked_keys_distinct(players: Map<u64, i64>)
    requires
        players.dom().finite(),
    ensures
        by_score_ascending(listing(players)).len() == players.dom().len(),
        forall|a: int, b: int|
            0 <= a < by_score_ascending(listing(players)).len() && 0 <= b < by_score_ascending(
                listing(players),
            ).len() && a != b ==> #[trigger] by_score_ascending(listing(players))[a].0
                != #[trigger] by_score_ascending(listing(players))[b].0,
        forall|a: int|
            0 <= a < by_score_ascending(listing(players)).len() ==> players.contains_key(
                #[trigger] by_score_ascending(listing(players))[a].0,
            ),
{
    broadcast use vstd::seq_lib::group_to_multiset_ensures;

    let e = listing(players);
    lemma_listing_exists(players);
    lemma_listing_len(e, players);
    let ranked = by_score_ascending(e);
    lemma_by_score_ascending_items(e);
    e.lemma_multiset_has_no_duplicates();
    ranked.lemma_multiset_has_no_duplicates_conv();
    assert forall|a: int| 0 <= a < ranked.len() implies exists|q: int|
        0 <= q < e.len() && e[q] == #[trigger] ranked[a] by {
        assert(ranked.contains(ranked[a]));
        assert(ranked.to_multiset().count(ranked[a]) > 0);
        assert(e.to_multiset().count(ranked[a]) > 0);
        assert(e.contains(ranked[a]));
    }
    assert forall|a: int, b: int|
        0 <= a < ranked.len() && 0 <= b < ranked.len() && a != b implies #[trigger] ranked[a].0
        != #[trigger] ranked[b].0 by {
        let p = choose|q: int| 0 <= q < e.len() && e[q] == ranked[a];
        let q = choose|q: int| 0 <= q < e.len() && e[q] == ranked[b];
        assert(ranked[a] != ranked[b]);
        if p < q {
            assert(e[p].0 < e[q].0);
        } else if q < p {
            assert(e[q].0 < e[p].0);
        }
    }
    assert forall|a: int| 0 <= a < ranked.len() implies players.contains_key(
        #[trigger] ranked[a].0,
    ) by {
        let p = choose|q: int| 0 <= q < e.len() && e[q] == ranked[a];
        assert(players.contains_key(e[p].0));
    }
}

/// The draft: ranked by increasing score and paired off in order, the
/// stronger of each pair (the later one) joins team1 and the weaker one
/// does not; team1 holds half the pool.
pub proof fn lemma_draft_team(players: Map<u64, i64>)
    requires
        players.dom().finite(),
    ensures
        draft_team(players).submap_of(players),
        draft_team(players).dom().len() == team_size(players),
        forall|i: int|
            0 <= i < team_size(players) ==> {
                &&& draft_team(players).contains_key(
                    #[trigger] by_score_ascending(listing(players))[2 * i + 1].0,
                )
                &&& !draft_team(players).contains_key(by_score_ascending(listing(players))[2 * i].0)
                &&& by_score_ascending(listing(players))[2 * i].1 <= by_score_ascending(
                    listing(players),
                )[2 * i + 1].1
            },
{
    let e = listing(players);
    lemma_ranked_keys_distinct(players);
    lemma_by_score_ascending_items(e);
    let ranked = by_score_ascending(e);
    let picks = Seq::new(ranked.len() / 2, |i: int| ranked[2 * i + 1].0);
    assert(picks.no_duplicates()) by {
        assert forall|a: int, b: int| 0 <= a < picks.len() && 0 <= b < picks.len() && a != b
            implies picks[a] != picks[b] by {
            assert(ranked[2 * a + 1].0 != ranked[2 * b + 1].0);
        }
    }
    picks.unique_seq_to_set();
    assert forall|k: u64| picks.to_set().contains(k) implies players.contains_key(k) by {
        let a = choose|a: int| 0 <= a < picks.len() && picks[a] == k;
        assert(players.contains_key(ranked[2 * a + 1].0));
    }
    assert(draft_team(players).dom() =~= picks.to_set());
    assert forall|i: int| 0 <= i < team_size(players) implies {
        &&& draft_team(players).contains_key(#[trigger] by_score_ascending(listing(players))[2 * i + 1].0)
        &&& !draft_team(players).contains_key(ranked[2 * i].0)
        &&& ranked[2 * i].1 <= ranked[2 * i + 1].1
    } by {
        assert(picks[i] == ranked[2 * i + 1].0);
        assert(picks.contains(picks[i]));
        if draft_team(players).contains_key(ranked[2 * i].0) {
            assert(picks.contains(ranked[2 * i].0));
            let a = choose|a: int| 0 <= a < picks.len() && picks[a] == ranked[2 * i].0;
            assert(ranked[2 * a + 1].0 == ranked[2 * i].0);
        }
    }
}

/// Sum of a list of lobby sizes.
pub open spec fn sizes_total(s: Seq<usize>) -> int
    decreases s.len(),
{
    if s.len() == 0 {
        0
    } else {
        sizes_total(s.drop_last()) + s.last()
    }
}

pub open spec fn repeated(count: nat, size: usize) -> Seq<usize> {
    Seq::new(count, |i: int| size)
}

proof fn lemma_sizes_total_repeat(count: nat, size: usize)
    ensures
        sizes_total(repeated(count, size)) == count * size,
    decreases count,
{
    if count > 0 {
        lemma_sizes_total_repeat((count - 1) as nat, size);
        let s = repeated(count, size);
        assert(s.drop_last() =~= repeated((count - 1) as nat, size));
        assert(s.last() == size);
        assert(count * size == (count - 1) * size + size) by (nonlinear_arith);
    } else {
        assert(count * size == 0) by (nonlinear_arith)
            requires
                count == 0,
        ;
    }
}

proof fn lemma_sizes_total_concat(a: Seq<usize>, b: Seq<usize>)
    ensures
        sizes_total(a + b) == sizes_total(a) + sizes_total(b),
    decreases b.len(),
{
    if b.len() == 0 {
        assert(a + b =~= a);
    } else {
        lemma_sizes_total_concat(a, b.drop_last());
        assert((a + b).drop_last() =~= a + b.drop_last());
    }
}

/// Lobbies hold 8 or 6 players, and together every player but an odd one
/// out, whenever the even part of the count is not 2, 4 or 10 (too few for
/// the 8/6 pattern, where the sizes overshoot).
pub proof fn lemma_lobbies_cover(number_of_players: nat)
    ensures
        forall|i: int|
            0 <= i < lobby_sizes(number_of_players).len() ==> #[trigger] lobby_sizes(
                number_of_players,
            )[i] == 8 || lobby_sizes(number_of_players)[i] == 6,
        ({
            let even = number_of_players - number_of_players % 2;
            even != 2 && even != 4 && even != 10 ==> sizes_total(lobby_sizes(number_of_players))
                == even
        }),
{
    let (a, b) = lobby_counts(number_of_players);
    lemma_sizes_total_repeat(a, 8);
    lemma_sizes_total_repeat(b, 6);
    assert(lobby_sizes(number_of_players) =~= repeated(a, 8) + repeated(b, 6));
    lemma_sizes_total_concat(repeated(a, 8), repeated(b, 6));
}

/// No way of seating the players (all but an odd one out) in lobbies of
/// eight and six uses more lobbies of eight than the division does, so it
/// uses as few lobbies as any.
pub proof fn lemma_lobbies_most_eights(number_of_players: nat, eights: nat, sixes: nat)
    requires
        8 * eights + 6 * sixes == number_of_players - number_of_players % 2,
    ensures
        eights <= lobby_counts(number_of_players).0,
        lobby_counts(number_of_players).0 + lobby_counts(number_of_players).1 <= eights + sixes,
{
    let n = (number_of_players - number_of_players % 2) as nat;
    let q = n / 8;
    assert(n == 8 * q + n % 8);
    assert(n % 8 == 0 || n % 8 == 2 || n % 8 == 4 || n % 8 == 6);
}

} // verus!
