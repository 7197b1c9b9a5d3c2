//! Splitting a lobby into two teams whose score sums are as close as
//! possible, and cutting a crowd into lobbies.
//!
//! Scores are fixed-point integers (`SCORE_SCALE` units per point), so sums
//! are exact; they are added up in `i128`, which holds the sum of any table.

use vstd::prelude::*;
use std::collections::BTreeMap;
use rand::seq::SliceRandom;
use crate::listing::{abs, entries, is_listing, listing, map_total, table_total, lemma_map_total_split, lemma_map_total_bound, listed_keys, lemma_listed_keys, lemma_listed_keys_push};
use crate::ordering::{sort_by_key, sorted_by_key, lemma_sort_by_key_items};
use crate::combinations::{combinations, combinations_of, views, strictly_increasing, lemma_combination_shape};
use crate::text::str_eq;

verus! {

/// A player's score for one game mode, in units of `1 / SCORE_SCALE` points.
pub type Score = i64;

/// Score units per point.
pub const SCORE_SCALE: i64 = 1_000_000_000;

/// Player scores for a single game mode, keyed by discord id.
pub type PlayersElos = BTreeMap<u64, i64>;

#[derive(Debug, Clone, Copy, PartialEq, Eq, Structural)]
pub enum SortMethod {
    Random,
    Score,
}

/// Orders a list of entries by increasing score, keeping ties in list order.
pub open spec fn by_score_ascending(s: Seq<(u64, i64)>) -> Seq<(u64, i64)> {
    sort_by_key(s.map_values(|x: (u64, i64)| (x, x.1 as i128))).map_values(
        |p: ((u64, i64), i128)| p.0,
    )
}

/// Orders a list of entries by decreasing score, keeping ties in list order.
pub open spec fn by_score_descending(s: Seq<(u64, i64)>) -> Seq<(u64, i64)> {
    sort_by_key(s.map_values(|x: (u64, i64)| (x, (-(x.1 as int)) as i128))).map_values(
        |p: ((u64, i64), i128)| p.0,
    )
}

fn keyed_by_score(v: &Vec<(u64, i64)>, descending: bool) -> (r: Vec<((u64, i64), i128)>)
    ensures
        !descending ==> r@ == v@.map_values(|x: (u64, i64)| (x, x.1 as i128)),
        descending ==> r@ == v@.map_values(|x: (u64, i64)| (x, (-(x.1 as int)) as i128)),
{
    let mut r: Vec<((u64, i64), i128)> = Vec::new();
    let mut i: usize = 0;
    while i < v.len()
        invariant
            i <= v@.len(),
            !descending ==> r@ == v@.take(i as int).map_values(
                |x: (u64, i64)| (x, x.1 as i128),
            ),
            descending ==> r@ == v@.take(i as int).map_values(
                |x: (u64, i64)| (x, (-(x.1 as int)) as i128),
            ),
        decreases v@.len() - i,
    {
        let x = v[i];
        let key: i128 = if descending {
            -(x.1 as i128)
        } else {
            x.1 as i128
        };
        r.push((x, key));
        i += 1;
        proof {
            assert(v@.take(i as int).drop_last() =~= v@.take(i as int - 1));
            if descending {
                assert(r@ =~= v@.take(i as int).map_values(
                    |x: (u64, i64)| (x, (-(x.1 as int)) as i128),
                ));
            } else {
                assert(r@ =~= v@.take(i as int).map_values(|x: (u64, i64)| (x, x.1 as i128)));
            }
        }
    }
    assert(v@.take(v@.len() as int) =~= v@);
    r
}

fn drop_keys(v: &Vec<((u64, i64), i128)>) -> (r: Vec<(u64, i64)>)
    ensures
        r@ == v@.map_values(|p: ((u64, i64), i128)| p.0),
{
    let mut r: Vec<(u64, i64)> = Vec::new();
    let mut i: usize = 0;
    while i < v.len()
        invariant
            i <= v@.len(),
            r@ == v@.take(i as int).map_values(|p: ((u64, i64), i128)| p.0),
        decreases v@.len() - i,
    {
        r.push(v[i].0);
        i += 1;
        proof {
            assert(r@ =~= v@.take(i as int).map_values(|p: ((u64, i64), i128)| p.0));
        }
    }
    assert(v@.take(v@.len() as int) =~= v@);
    r
}

/// Entries ordered by increasing score, ties kept in list order.
pub fn sorted_by_score(v: &Vec<(u64, i64)>) -> (r: Vec<(u64, i64)>)
    ensures
        r@ == by_score_ascending(v@),
{
    let keyed = keyed_by_score(v, false);
    let sorted = sorted_by_key(&keyed);
    drop_keys(&sorted)
}

/// Entries ordered by decreasing score, ties kept in list order.
pub fn sorted_by_score_descending(v: &Vec<(u64, i64)>) -> (r: Vec<(u64, i64)>)
    ensures
        r@ == by_score_descending(v@),
{
    let keyed = keyed_by_score(v, true);
    let sorted = sorted_by_key(&keyed);
    drop_keys(&sorted)
}

/// Puts the items of `v` in a random order, with rand's
/// `SliceRandom::shuffle` (a Fisher-Yates shuffle made of swaps) driven by
/// the thread-local generator `rand::rng()`. Claimed: afterwards `v` holds
/// the same items, each as often as before. Which order comes out rests on
/// chance and is left unsaid.
#[verifier::external_body]
fn shuffle_in_place<T>(v: &mut Vec<T>)
    ensures
        final(v)@.to_multiset() == old(v)@.to_multiset(),
{
    v.shuffle(&mut rand::rng());
}

/// The sort method whose wire name is `n`, if any.
pub open spec fn sort_method_named(n: Seq<char>) -> Option<SortMethod> {
    if n == "random"@ {
        Some(SortMethod::Random)
    } else if n == "score"@ {
        Some(SortMethod::Score)
    } else {
        None
    }
}

/// Reading back the wire name of a sort method gives that method.
pub proof fn lemma_sort_method_round_trip(m: SortMethod)
    ensures
        sort_method_named(m.spec_name()) == Some(m),
{
    reveal_strlit("random");
    reveal_strlit("score");
    if m == SortMethod::Score {
        assert("score"@ != "random"@) by {
            assert("score"@[0] != "random"@[0]);
        }
    }
}

impl SortMethod {
    /// The wire name of a method, as used in commands and button ids.
    pub open spec fn spec_name(self) -> Seq<char> {
        match self {
            SortMethod::Random => "random"@,
            SortMethod::Score => "score"@,
        }
    }

    /// The method whose wire name is `name`, if any.
    pub fn from_name(name: &str) -> (r: Option<SortMethod>)
        ensures
            r == sort_method_named(name@),
    {
        if str_eq(name, "random") {
            Some(SortMethod::Random)
        } else if str_eq(name, "score") {
            Some(SortMethod::Score)
        } else {
            None
        }
    }

    pub fn name(&self) -> (r: &'static str)
        ensures
            r@ == self.spec_name(),
    {
        match self {
            SortMethod::Random => "random",
            SortMethod::Score => "score",
        }
    }

    /// Orders players before dividing them into lobbies: by increasing score
    /// (ties keep their order), or at random.
    pub fn sort(&self, players: &mut Vec<(u64, i64)>)
        ensures
            final(players)@.to_multiset() == old(players)@.to_multiset(),
            *self == SortMethod::Score ==> final(players)@ == by_score_ascending(old(players)@),
    {
        match self {
            SortMethod::Random => shuffle_in_place(players),
            SortMethod::Score => {
                let sorted = sorted_by_score(players);
                proof {
                    lemma_by_score_ascending_items(players@);
                }
                *players = sorted;
            },
        }
    }
}

/// Ordering by score keeps the entries.
pub proof fn lemma_by_score_ascending_items(s: Seq<(u64, i64)>)
    ensures
        by_score_ascending(s).to_multiset() == s.to_multiset(),
        by_score_ascending(s).len() == s.len(),
        forall|i: int, j: int|
            0 <= i < j < s.len() ==> #[trigger] by_score_ascending(s)[i].1
                <= #[trigger] by_score_ascending(s)[j].1,
{
    broadcast use vstd::seq_lib::group_to_multiset_ensures;

    let keyed = s.map_values(|x: (u64, i64)| (x, x.1 as i128));
    let sorted = sort_by_key(keyed);
    lemma_sort_by_key_items(keyed);
    let f = |p: ((u64, i64), i128)| p.0;
    lemma_multiset_map(sorted, keyed, f);
    assert(keyed.map_values(f) =~= s);
    assert forall|i: int| 0 <= i < sorted.len() implies #[trigger] sorted[i].1 == sorted[i].0.1 by {
        assert(sorted.contains(sorted[i]));
        assert(sorted.to_multiset().count(sorted[i]) > 0);
        assert(keyed.to_multiset().count(sorted[i]) > 0);
        assert(keyed.contains(sorted[i]));
        let a = choose|a: int| 0 <= a < keyed.len() && keyed[a] == sorted[i];
    }
    assert forall|i: int, j: int| 0 <= i < j < s.len() implies #[trigger] by_score_ascending(
        s,
    )[i].1 <= #[trigger] by_score_ascending(s)[j].1 by {
        assert(sorted[i].1 <= sorted[j].1);
        assert(sorted[i].1 == sorted[i].0.1);
        assert(sorted[j].1 == sorted[j].0.1);
    }
}

/// Mapping both sides of a multiset equality keeps it.
pub proof fn lemma_multiset_map<A, B>(s: Seq<A>, t: Seq<A>, f: spec_fn(A) -> B)
    requires
        s.to_multiset() == t.to_multiset(),
    ensures
        s.map_values(f).to_multiset() == t.map_values(f).to_multiset(),
    decreases s.len(),
{
    broadcast use vstd::seq_lib::group_to_multiset_ensures;

    if s.len() == 0 {
        assert(s.to_multiset().len() == 0);
        assert(t.to_multiset().len() == t.len());
        assert(t.len() == 0);
        assert(s.map_values(f) =~= Seq::<B>::empty());
        assert(t.map_values(f) =~= Seq::<B>::empty());
    } else {
        let x = s.last();
        assert(s.contains(x));
        assert(s.to_multiset().count(x) > 0);
        assert(t.contains(x));
        let i = choose|i: int| 0 <= i < t.len() && t[i] == x;
        let t2 = t.remove(i);
        let s2 = s.drop_last();
        assert(s =~= s2.push(x));
        assert(t2.to_multiset() =~= t.to_multiset().remove(x));
        assert(s2.to_multiset() =~= s.to_multiset().remove(x));
        lemma_multiset_map(s2, t2, f);
        assert(s.map_values(f) =~= s2.map_values(f).push(f(x)));
        assert(t.map_values(f) =~= t2.map_values(f).insert(i, f(x)));
        assert(t2.map_values(f).insert(i, f(x)).to_multiset() =~= t2.map_values(f).to_multiset().insert(f(x)));
    }
}

/// Two teams cut from one pool, with their score sums.
#[derive(Debug)]
pub struct TeamSplit {
    pub team1: PlayersElos,
    pub team1_elo_sum: i128,
    pub team2: PlayersElos,
    pub team2_elo_sum: i128,
    /// Twice the gap between team1's sum and the ideal half of the pool,
    /// `|pool - 2 * team1_elo_sum|`; doubled so that it stays whole.
    pub double_distance_from_ideal: i128,
}

/// What a split states: the two teams and the numbers derived from them.
pub ghost struct SplitView {
    pub team1: Map<u64, i64>,
    pub team1_elo_sum: int,
    pub team2: Map<u64, i64>,
    pub team2_elo_sum: int,
    pub double_distance_from_ideal: int,
}

impl View for TeamSplit {
    type V = SplitView;

    open spec fn view(&self) -> SplitView {
        SplitView {
            team1: self.team1@,
            team1_elo_sum: self.team1_elo_sum as int,
            team2: self.team2@,
            team2_elo_sum: self.team2_elo_sum as int,
            double_distance_from_ideal: self.double_distance_from_ideal as int,
        }
    }
}

/// The split of `players` that puts `team1` on one side and everyone else
/// on the other.
pub open spec fn split_of(players: Map<u64, i64>, team1: Map<u64, i64>) -> SplitView {
    let team2 = players.remove_keys(team1.dom());
    SplitView {
        team1: team1,
        team1_elo_sum: map_total(team1),
        team2: team2,
        team2_elo_sum: map_total(team2),
        double_distance_from_ideal: abs(map_total(players) - 2 * map_total(team1)),
    }
}

/// The sum of a team's scores.
pub fn team_elo(team: &PlayersElos) -> (r: i128)
    ensures
        r == map_total(team@),
{
    table_total(team)
}

/// Half the total score of the pool: what each team would hold in a
/// perfect split, rounded toward zero to a whole score unit.
pub fn ideal_team_elo(players_elos: &PlayersElos) -> (r: i128)
    ensures
        r == if map_total(players_elos@) >= 0 {
            map_total(players_elos@) / 2
        } else {
            -((-map_total(players_elos@)) / 2)
        },
{
    // A table holds at most `usize::MAX` players, which bounds the total.
    let count = players_elos.len();
    let total = table_total(players_elos);
    proof {
        assert(players_elos@.len() == count);
    }
    if total >= 0 {
        total / 2
    } else {
        -((-total) / 2)
    }
}

/// Players of `all` who are not in `team1`.
pub fn complementary_team(all: &PlayersElos, team1: &PlayersElos) -> (r: PlayersElos)
    ensures
        r@ == all@.remove_keys(team1@.dom()),
{
    let e = entries(all);
    let mut r: PlayersElos = BTreeMap::new();
    let mut i: usize = 0;
    proof {
        assert(all@.restrict(listed_keys(e@.take(0))).remove_keys(team1@.dom()) =~= r@);
    }
    while i < e.len()
        invariant
            i <= e@.len(),
            is_listing(e@, all@),
            r@ == all@.restrict(listed_keys(e@.take(i as int))).remove_keys(team1@.dom()),
        decreases e@.len() - i,
    {
        let (k, v) = e[i];
        proof {
            lemma_listed_keys_push(e@, i as int);
            assert(all@.contains_key(e@[i as int].0));
        }
        if !team1.contains_key(&k) {
            r.insert(k, v);
        }
        i += 1;
        proof {
            assert(r@ =~= all@.restrict(listed_keys(e@.take(i as int))).remove_keys(team1@.dom()));
        }
    }
    proof {
        assert(e@.take(e@.len() as int) =~= e@);
        lemma_listed_keys(e@, all@);
        assert(all@.restrict(all@.dom()) =~= all@);
    }
    r
}

/// Cuts `players` into `team1` and the rest, with the sums of both sides.
pub fn split_into_teams(players: &PlayersElos, team1: PlayersElos) -> (r: TeamSplit)
    requires
        team1@.submap_of(players@),
    ensures
        r@ == split_of(players@, team1@),
{
    let n = players.len();
    let pool = table_total(players);
    let team2 = complementary_team(players, &team1);
    let team1_elo_sum = table_total(&team1);
    let team2_elo_sum = table_total(&team2);
    proof {
        lemma_map_total_split(players@, team1@.dom());
        assert(players@.restrict(team1@.dom()) =~= team1@);
        lemma_map_total_bound(team1@);
        lemma_map_total_bound(team2@);
        lemma_map_total_bound(players@);
    }
    let gap: i128 = team2_elo_sum - team1_elo_sum;
    let double_distance_from_ideal: i128 = if gap < 0 { -gap } else { gap };
    TeamSplit { team1, team1_elo_sum, team2, team2_elo_sum, double_distance_from_ideal }
}

/// A copy of a split.
pub fn copy_split(s: &TeamSplit) -> (r: TeamSplit)
    ensures
        r@ == s@,
{
    TeamSplit {
        team1: s.team1.clone(),
        team1_elo_sum: s.team1_elo_sum,
        team2: s.team2.clone(),
        team2_elo_sum: s.team2_elo_sum,
        double_distance_from_ideal: s.double_distance_from_ideal,
    }
}

/// The id at position `rank` when the players are ranked by decreasing
/// score, ties going to the lower id.
pub open spec fn nth_highest(players: Map<u64, i64>, rank: int) -> Option<u64> {
    let ranked = by_score_descending(listing(players));
    if 0 <= rank < ranked.len() {
        Some(ranked[rank].0)
    } else {
        None
    }
}

/// The player at position `rank` (from 0) by decreasing score.
pub fn nth_highest_elo_player(players_elos: &PlayersElos, rank: usize) -> (r: Option<u64>)
    ensures
        r == nth_highest(players_elos@, rank as int),
{
    let e = entries(players_elos);
    let ranked = sorted_by_score_descending(&e);
    if rank < ranked.len() {
        Some(ranked[rank].0)
    } else {
        None
    }
}

/// The keys of `s`, in order, leaving out `fixed` and `excluded`.
pub open spec fn keys_except(s: Seq<(u64, i64)>, fixed: u64, excluded: Option<u64>) -> Seq<u64>
    decreases s.len(),
{
    if s.len() == 0 {
        Seq::<u64>::empty()
    } else {
        let rest = keys_except(s.drop_last(), fixed, excluded);
        let k = s.last().0;
        if k != fixed && excluded != Some(k) {
            rest.push(k)
        } else {
            rest
        }
    }
}

fn keys_except_exec(e: &Vec<(u64, i64)>, fixed: u64, excluded: Option<u64>) -> (r: Vec<u64>)
    ensures
        r@ == keys_except(e@, fixed, excluded),
{
    let mut r: Vec<u64> = Vec::new();
    let mut i: usize = 0;
    while i < e.len()
        invariant
            i <= e@.len(),
            r@ == keys_except(e@.take(i as int), fixed, excluded),
        decreases e@.len() - i,
    {
        proof {
            assert(e@.take(i as int + 1).drop_last() =~= e@.take(i as int));
        }
        let k = e[i].0;
        let keep = match excluded {
            Some(x) => k != fixed && k != x,
            None => k != fixed,
        };
        if keep {
            r.push(k);
        }
        i += 1;
    }
    proof {
        assert(e@.take(e@.len() as int) =~= e@);
    }
    r
}

/// The team made of the players `ids` and `fixed`.
fn team_of(players: &PlayersElos, ids: &Vec<u64>, fixed: u64) -> (r: PlayersElos)
    requires
        players@.contains_key(fixed),
        forall|j: int| 0 <= j < ids@.len() ==> players@.contains_key(#[trigger] ids@[j]),
    ensures
        r@ == players@.restrict(ids@.push(fixed).to_set()),
{
    let mut r: PlayersElos = BTreeMap::new();
    let mut i: usize = 0;
    proof {
        assert(players@.restrict(ids@.take(0).to_set()) =~= r@);
    }
    while i < ids.len()
        invariant
            i <= ids@.len(),
            forall|j: int| 0 <= j < ids@.len() ==> players@.contains_key(#[trigger] ids@[j]),
            r@ == players@.restrict(ids@.take(i as int).to_set()),
        decreases ids@.len() - i,
    {
        let id = ids[i];
        let score = *players.get(&id).unwrap();
        r.insert(id, score);
        proof {
            assert(ids@.take(i as int + 1) =~= ids@.take(i as int).push(id));
            lemma_push_to_set(ids@.take(i as int), id);
        }
        i += 1;
        proof {
            assert(r@ =~= players@.restrict(ids@.take(i as int).to_set()));
        }
    }
    let score = *players.get(&fixed).unwrap();
    r.insert(fixed, score);
    proof {
        assert(ids@.take(ids@.len() as int) =~= ids@);
        lemma_push_to_set(ids@, fixed);
        assert(r@ =~= players@.restrict(ids@.push(fixed).to_set()));
    }
    r
}

/// How far a split is from ideal, the key splits are ordered by, best
/// balanced first: twice the gap between team1's sum and half the pool,
/// `|pool - 2 * team1|`. Where the pool is positive this orders as the
/// relative deviation `|ideal - team1| / ideal` does.
pub open spec fn deviation_key(pool: int, team1_total: int) -> int {
    abs(pool - 2 * team1_total)
}

/// The size of team1 in a split of `players`: half of them, rounded down.
pub open spec fn team_size(players: Map<u64, i64>) -> nat {
    players.dom().len() / 2
}

/// Every team1 holding `fixed`, not holding `excluded`, and half the
/// players, in lexicographic order of the other members' ids.
pub open spec fn candidate_teams(players: Map<u64, i64>, fixed: u64, excluded: Option<u64>) -> Seq<
    Map<u64, i64>,
> {
    combinations(
        keys_except(listing(players), fixed, excluded),
        (team_size(players) - 1) as nat,
    ).map_values(|c: Seq<u64>| players.restrict(c.push(fixed).to_set()))
}

/// Candidate positions paired with their sort keys, in candidate order.
pub open spec fn keyed_candidates(players: Map<u64, i64>, fixed: u64, excluded: Option<u64>) -> Seq<
    (usize, i128),
> {
    let teams = candidate_teams(players, fixed, excluded);
    Seq::new(
        teams.len(),
        |i: int| (i as usize, deviation_key(map_total(players), map_total(teams[i])) as i128),
    )
}

/// The candidate splits, best balanced first; equally good ones stay in
/// candidate order.
pub open spec fn allocations(players: Map<u64, i64>, fixed: u64, excluded: Option<u64>) -> Seq<
    SplitView,
> {
    if team_size(players) == 0 {
        Seq::<SplitView>::empty()
    } else {
        let teams = candidate_teams(players, fixed, excluded);
        sort_by_key(keyed_candidates(players, fixed, excluded)).map_values(
            |p: (usize, i128)| split_of(players, teams[p.0 as int]),
        )
    }
}

/// Splits as values.
pub open spec fn split_views(v: Seq<TeamSplit>) -> Seq<SplitView> {
    v.map_values(|s: TeamSplit| s@)
}

/// All splits where team1 holds `fixed` and not `excluded`, best balanced
/// first. Fixing one player in team1 also drops mirror-image splits.
fn constrained_allocations(players_elos: &PlayersElos, fixed: u64, excluded: Option<u64>) -> (r:
    Vec<TeamSplit>)
    requires
        players_elos@.contains_key(fixed),
    ensures
        split_views(r@) == allocations(players_elos@, fixed, excluded),
{
    let e = entries(players_elos);
    let n = players_elos.len();
    let size = e.len() / 2;
    if size == 0 {
        let r: Vec<TeamSplit> = Vec::new();
        assert(split_views(r@) =~= Seq::<SplitView>::empty());
        return r;
    }
    let pool = table_total(players_elos);
    let rest = keys_except_exec(&e, fixed, excluded);
    let combos = combinations_of(&rest, size - 1);
    let ghost teams = candidate_teams(players_elos@, fixed, excluded);
    let ghost keyed_spec = keyed_candidates(players_elos@, fixed, excluded);
    proof {
        lemma_keys_except_members(e@, players_elos@, fixed, excluded);
        assert(views(combos@).len() == combos@.len());
    }
    let mut splits: Vec<TeamSplit> = Vec::new();
    let mut keyed: Vec<(usize, i128)> = Vec::new();
    let mut i: usize = 0;
    while i < combos.len()
        invariant
            i <= combos@.len(),
            views(combos@) == combinations(rest@, (size - 1) as nat),
            rest@ == keys_except(e@, fixed, excluded),
            strictly_increasing(rest@),
            forall|j: int| 0 <= j < rest@.len() ==> players_elos@.contains_key(#[trigger] rest@[j]),
            players_elos@.contains_key(fixed),
            e@ == listing(players_elos@),
            size == players_elos@.dom().len() / 2,
            size > 0,
            pool == map_total(players_elos@),
            teams == candidate_teams(players_elos@, fixed, excluded),
            keyed_spec == keyed_candidates(players_elos@, fixed, excluded),
            teams.len() == combos@.len(),
            keyed_spec.len() == combos@.len(),
            splits@.len() == i,
            forall|j: int| 0 <= j < i ==> (#[trigger] splits@[j])@ == split_of(players_elos@, teams[j]),
            keyed@ == keyed_spec.take(i as int),
        decreases combos@.len() - i,
    {
        proof {
            assert(views(combos@)[i as int] == combos@[i as int]@);
            lemma_combination_members(rest@, (size - 1) as nat, i as int, players_elos@);
        }
        let team = team_of(players_elos, &combos[i], fixed);
        proof {
            assert(team@ == teams[i as int]);
            assert forall|k: u64| team@.contains_key(k) implies players_elos@.contains_key(k)
                && team@[k] == players_elos@[k] by {}
        }
        let split = split_into_teams(players_elos, team);
        let key: i128 = split.double_distance_from_ideal;
        keyed.push((i, key));
        splits.push(split);
        i += 1;
        proof {
            assert(keyed@ =~= keyed_spec.take(i as int));
        }
    }
    proof {
        assert(keyed_spec.take(combos@.len() as int) =~= keyed_spec);
        lemma_sort_by_key_items(keyed@);
    }
    let order = sorted_by_key(&keyed);
    let mut r: Vec<TeamSplit> = Vec::new();
    let mut j: usize = 0;
    while j < order.len()
        invariant
            j <= order@.len(),
            order@ == sort_by_key(keyed@),
            order@.to_multiset() == keyed@.to_multiset(),
            keyed@ == keyed_spec,
            keyed_spec == keyed_candidates(players_elos@, fixed, excluded),
            teams == candidate_teams(players_elos@, fixed, excluded),
            splits@.len() == teams.len(),
            keyed_spec.len() == teams.len(),
            forall|q: int| 0 <= q < splits@.len() ==> (#[trigger] splits@[q])@ == split_of(players_elos@, teams[q]),
            split_views(r@) == sort_by_key(keyed_spec).take(j as int).map_values(
                |p: (usize, i128)| split_of(players_elos@, teams[p.0 as int]),
            ),
        decreases order@.len() - j,
    {
        let idx = order[j].0;
        proof {
            broadcast use vstd::seq_lib::group_to_multiset_ensures;
            assert(order@.contains(order@[j as int]));
            assert(order@.to_multiset().count(order@[j as int]) > 0);
            assert(keyed@.to_multiset().count(order@[j as int]) > 0);
            assert(keyed@.contains(order@[j as int]));
            let q = choose|q: int| 0 <= q < keyed@.len() && keyed@[q] == order@[j as int];
            assert(keyed_spec[q].0 == q as usize);
        }
        let s = copy_split(&splits[idx]);
        let ghost prev = r@;
        r.push(s);
        j += 1;
        proof {
            assert(split_views(r@) =~= split_views(prev).push(s@));
            assert(sort_by_key(keyed_spec)[j - 1] == order@[j - 1]);
            assert(split_views(r@) =~= sort_by_key(keyed_spec).take(j as int).map_values(
                |p: (usize, i128)| split_of(players_elos@, teams[p.0 as int]),
            ));
        }
    }
    proof {
        assert(sort_by_key(keyed_spec).take(order@.len() as int) =~= sort_by_key(keyed_spec));
    }
    r
}

/// The ids left after taking out `fixed` and `excluded` are ids of the list,
/// strictly increasing.
pub proof fn lemma_keys_except_members(
    s: Seq<(u64, i64)>,
    m: Map<u64, i64>,
    fixed: u64,
    excluded: Option<u64>,
)
    requires
        forall|i: int, j: int| 0 <= i < j < s.len() ==> #[trigger] s[i].0 < #[trigger] s[j].0,
        forall|i: int| 0 <= i < s.len() ==> #[trigger] m.contains_key(s[i].0),
    ensures
        forall|j: int|
            0 <= j < keys_except(s, fixed, excluded).len() ==> m.contains_key(
                #[trigger] keys_except(s, fixed, excluded)[j],
            ),
        forall|j: int|
            0 <= j < keys_except(s, fixed, excluded).len() ==> exists|q: int|
                0 <= q < s.len() && s[q].0 == #[trigger] keys_except(s, fixed, excluded)[j],
        strictly_increasing(keys_except(s, fixed, excluded)),
        forall|j: int|
            0 <= j < keys_except(s, fixed, excluded).len() ==> #[trigger] keys_except(
                s,
                fixed,
                excluded,
            )[j] != fixed && excluded != Some(keys_except(s, fixed, excluded)[j]),
    decreases s.len(),
{
    if s.len() > 0 {
        let t = s.drop_last();
        assert forall|i: int, j: int| 0 <= i < j < t.len() implies #[trigger] t[i].0
            < #[trigger] t[j].0 by {
            assert(s[i].0 < s[j].0);
        }
        assert forall|i: int| 0 <= i < t.len() implies #[trigger] m.contains_key(t[i].0) by {
            assert(m.contains_key(s[i].0));
        }
        lemma_keys_except_members(t, m, fixed, excluded);
        let r = keys_except(t, fixed, excluded);
        let k = s.last().0;
        assert(m.contains_key(s[s.len() - 1].0));
        if k != fixed && excluded != Some(k) {
            let r2 = r.push(k);
            assert forall|j: int| 0 <= j < r2.len() implies exists|q: int|
                0 <= q < s.len() && s[q].0 == #[trigger] r2[j] by {
                if j < r.len() {
                    let q = choose|q: int| 0 <= q < t.len() && t[q].0 == r[j];
                    assert(s[q].0 == r2[j]);
                } else {
                    assert(s[s.len() - 1].0 == r2[j]);
                }
            }
            assert forall|a: int, b: int| 0 <= a < b < r2.len() implies #[trigger] r2[a]
                < #[trigger] r2[b] by {
                if b == r.len() {
                    let q = choose|q: int| 0 <= q < t.len() && t[q].0 == r[a];
                    assert(s[q].0 < s[s.len() - 1].0);
                }
            }
        } else {
            assert forall|j: int| 0 <= j < r.len() implies exists|q: int|
                0 <= q < s.len() && s[q].0 == #[trigger] r[j] by {
                let q = choose|q: int| 0 <= q < t.len() && t[q].0 == r[j];
                assert(s[q].0 == r[j]);
            }
        }
    }
}

/// Appending an item to a list adds it to the list's set of items.
pub proof fn lemma_push_to_set(s: Seq<u64>, x: u64)
    ensures
        s.push(x).to_set() == s.to_set().insert(x),
{
    assert forall|a: u64| s.push(x).to_set().contains(a) implies s.to_set().insert(x).contains(
        a,
    ) by {
        assert(s.push(x).contains(a));
        let i = choose|i: int| 0 <= i < s.len() + 1 && s.push(x)[i] == a;
        if i < s.len() {
            assert(s[i] == a);
            assert(s.contains(a));
        }
    }
    assert forall|a: u64| s.to_set().insert(x).contains(a) implies s.push(x).to_set().contains(
        a,
    ) by {
        if a == x {
            assert(s.push(x)[s.len() as int] == x);
            assert(s.push(x).contains(x));
        } else {
            assert(s.contains(a));
            let i = choose|i: int| 0 <= i < s.len() && s[i] == a;
            assert(s.push(x)[i] == a);
            assert(s.push(x).contains(a));
        }
    }
    assert(s.push(x).to_set() =~= s.to_set().insert(x));
}

/// The members of a selection of ids of a table are ids of the table.
pub proof fn lemma_combination_members(ids: Seq<u64>, k: nat, i: int, m: Map<u64, i64>)
    requires
        strictly_increasing(ids),
        forall|j: int| 0 <= j < ids.len() ==> m.contains_key(#[trigger] ids[j]),
        0 <= i < combinations(ids, k).len(),
    ensures
        forall|j: int|
            0 <= j < combinations(ids, k)[i].len() ==> m.contains_key(
                #[trigger] combinations(ids, k)[i][j],
            ),
{
    lemma_combination_shape(ids, k, i);
    assert forall|j: int| 0 <= j < combinations(ids, k)[i].len() implies m.contains_key(
        #[trigger] combinations(ids, k)[i][j],
    ) by {
        let q = choose|q: int| 0 <= q < ids.len() && ids[q] == combinations(ids, k)[i][j];
    }
}

/// The splits `weighted_allocation` gives for a table.
pub open spec fn weighted_allocations(players: Map<u64, i64>) -> Seq<SplitView> {
    match nth_highest(players, 0) {
        Some(highest) => allocations(players, highest, None),
        None => Seq::<SplitView>::empty(),
    }
}

/// The splits `hybrid_draft_weighted_allocation` gives for a table.
pub open spec fn hybrid_draft_allocations(players: Map<u64, i64>) -> Seq<SplitView> {
    match (nth_highest(players, 0), nth_highest(players, 1)) {
        (Some(c1), Some(c2)) => allocations(players, c1, Some(c2)),
        _ => Seq::<SplitView>::empty(),
    }
}

/// The id `nth_highest` names is a key of the table.
pub proof fn lemma_nth_highest_member(players: Map<u64, i64>, rank: int)
    requires
        is_listing(listing(players), players),
    ensures
        nth_highest(players, rank) matches Some(id) ==> players.contains_key(id),
{
    broadcast use vstd::seq_lib::group_to_multiset_ensures;

    let e = listing(players);
    let keyed = e.map_values(|x: (u64, i64)| (x, (-(x.1 as int)) as i128));
    let sorted = sort_by_key(keyed);
    lemma_sort_by_key_items(keyed);
    if 0 <= rank < sorted.len() {
        assert(sorted.contains(sorted[rank]));
        assert(sorted.to_multiset().count(sorted[rank]) > 0);
        assert(keyed.to_multiset().count(sorted[rank]) > 0);
        assert(keyed.contains(sorted[rank]));
        let q = choose|q: int| 0 <= q < keyed.len() && keyed[q] == sorted[rank];
        assert(players.contains_key(e[q].0));
    }
}

/// Every split of the pool with the highest-scored player in team1, best
/// balanced first.
pub fn weighted_allocation(players_elos: &PlayersElos) -> (r: Vec<TeamSplit>)
    ensures
        split_views(r@) == weighted_allocations(players_elos@),
{
    let _e = entries(players_elos);
    match nth_highest_elo_player(players_elos, 0) {
        Some(highest) => {
            proof {
                lemma_nth_highest_member(players_elos@, 0);
            }
            constrained_allocations(players_elos, highest, None)
        },
        None => {
            let r: Vec<TeamSplit> = Vec::new();
            assert(split_views(r@) =~= Seq::<SplitView>::empty());
            r
        },
    }
}

/// Like `weighted_allocation`, but the two highest-scored players
/// (captains) are put on opposing teams.
pub fn hybrid_draft_weighted_allocation(players_elos: &PlayersElos) -> (r: Vec<TeamSplit>)
    ensures
        split_views(r@) == hybrid_draft_allocations(players_elos@),
{
    let _e = entries(players_elos);
    let captain1 = nth_highest_elo_player(players_elos, 0);
    let captain2 = nth_highest_elo_player(players_elos, 1);
    match (captain1, captain2) {
        (Some(c1), Some(c2)) => {
            proof {
                lemma_nth_highest_member(players_elos@, 0);
            }
            constrained_allocations(players_elos, c1, Some(c2))
        },
        _ => {
            let r: Vec<TeamSplit> = Vec::new();
            assert(split_views(r@) =~= Seq::<SplitView>::empty());
            r
        },
    }
}

/// Team1 of the draft: the players ranked by increasing score are paired
/// off in order, and the stronger of each pair goes to team1; an odd one
/// out stays on team2.
pub open spec fn draft_team(players: Map<u64, i64>) -> Map<u64, i64> {
    let ranked = by_score_ascending(listing(players));
    let picks = Seq::new(ranked.len() / 2, |i: int| ranked[2 * i + 1].0);
    players.restrict(picks.to_set())
}

/// The entries of an ordering of a table's listing are entries of the table.
pub proof fn lemma_ranked_members(players: Map<u64, i64>)
    requires
        is_listing(listing(players), players),
    ensures
        forall|i: int|
            0 <= i < by_score_ascending(listing(players)).len() ==> players.contains_key(
                #[trigger] by_score_ascending(listing(players))[i].0,
            ) && players[by_score_ascending(listing(players))[i].0]
                == by_score_ascending(listing(players))[i].1,
{
    broadcast use vstd::seq_lib::group_to_multiset_ensures;

    let e = listing(players);
    let ranked = by_score_ascending(e);
    lemma_by_score_ascending_items(e);
    assert forall|i: int| 0 <= i < ranked.len() implies players.contains_key(
        #[trigger] ranked[i].0,
    ) && players[ranked[i].0] == ranked[i].1 by {
        assert(ranked.contains(ranked[i]));
        assert(ranked.to_multiset().count(ranked[i]) > 0);
        assert(e.to_multiset().count(ranked[i]) > 0);
        assert(e.contains(ranked[i]));
        let q = choose|q: int| 0 <= q < e.len() && e[q] == ranked[i];
        assert(players.contains_key(e[q].0));
    }
}

/// Ranks the players by increasing score, pairs them off, and gives the
/// stronger of each pair to team1.
pub fn draft_allocation(players_elos: &PlayersElos) -> (r: TeamSplit)
    ensures
        r@ == split_of(players_elos@, draft_team(players_elos@)),
{
    let e = entries(players_elos);
    let ranked = sorted_by_score(&e);
    let ghost picks = Seq::new(ranked@.len() / 2, |i: int| ranked@[2 * i + 1].0);
    proof {
        lemma_ranked_members(players_elos@);
    }
    let mut team1: PlayersElos = BTreeMap::new();
    let mut i: usize = 0;
    proof {
        assert(players_elos@.restrict(picks.take(0).to_set()) =~= team1@);
    }
    while i < ranked.len() / 2
        invariant
            i <= ranked@.len() / 2,
            ranked@ == by_score_ascending(listing(players_elos@)),
            picks == Seq::new(ranked@.len() / 2, |i: int| ranked@[2 * i + 1].0),
            forall|q: int|
                0 <= q < ranked@.len() ==> players_elos@.contains_key(#[trigger] ranked@[q].0)
                    && players_elos@[ranked@[q].0] == ranked@[q].1,
            team1@ == players_elos@.restrict(picks.take(i as int).to_set()),
        decreases ranked@.len() / 2 - i,
    {
        let stronger = ranked[2 * i + 1];
        team1.insert(stronger.0, stronger.1);
        proof {
            assert(picks.take(i as int + 1) =~= picks.take(i as int).push(stronger.0));
            lemma_push_to_set(picks.take(i as int), stronger.0);
            assert(players_elos@.contains_key(ranked@[2 * i + 1].0));
        }
        i += 1;
        proof {
            assert(team1@ =~= players_elos@.restrict(picks.take(i as int).to_set()));
        }
    }
    proof {
        assert(picks.take(picks.len() as int) =~= picks);
        assert forall|k: u64| team1@.contains_key(k) implies players_elos@.contains_key(k)
            && team1@[k] == players_elos@[k] by {}
    }
    split_into_teams(players_elos, team1)
}

fn keys_of(e: &Vec<(u64, i64)>) -> (r: Vec<u64>)
    ensures
        r@ == e@.map_values(|x: (u64, i64)| x.0),
{
    let mut r: Vec<u64> = Vec::new();
    let mut i: usize = 0;
    while i < e.len()
        invariant
            i <= e@.len(),
            r@ == e@.take(i as int).map_values(|x: (u64, i64)| x.0),
        decreases e@.len() - i,
    {
        r.push(e[i].0);
        i += 1;
        proof {
            assert(r@ =~= e@.take(i as int).map_values(|x: (u64, i64)| x.0));
        }
    }
    assert(e@.take(e@.len() as int) =~= e@);
    r
}

/// The split whose team1 is the first half of `ids` (half the players,
/// rounded down), for an order `ids` of the players' ids.
pub fn split_from_order(players_elos: &PlayersElos, ids: &Vec<u64>) -> (r: TeamSplit)
    requires
        ids@.len() == players_elos@.dom().len(),
        forall|q: int| 0 <= q < ids@.len() ==> players_elos@.contains_key(#[trigger] ids@[q]),
    ensures
        r@ == split_of(players_elos@, players_elos@.restrict(ids@.take(team_size(players_elos@) as int).to_set())),
        r.team1@ == players_elos@.restrict(ids@.take(team_size(players_elos@) as int).to_set()),
{
    let size = players_elos.len() / 2;
    let mut team1: PlayersElos = BTreeMap::new();
    let mut i: usize = 0;
    proof {
        assert(players_elos@.restrict(ids@.take(0).to_set()) =~= team1@);
    }
    while i < size
        invariant
            i <= size,
            size == team_size(players_elos@),
            size <= ids@.len(),
            forall|q: int| 0 <= q < ids@.len() ==> players_elos@.contains_key(#[trigger] ids@[q]),
            team1@ == players_elos@.restrict(ids@.take(i as int).to_set()),
        decreases size - i,
    {
        let id = ids[i];
        let score = *players_elos.get(&id).unwrap();
        team1.insert(id, score);
        proof {
            assert(ids@.take(i as int + 1) =~= ids@.take(i as int).push(id));
            lemma_push_to_set(ids@.take(i as int), id);
        }
        i += 1;
        proof {
            assert(team1@ =~= players_elos@.restrict(ids@.take(i as int).to_set()));
        }
    }
    proof {
        assert forall|k: u64| team1@.contains_key(k) implies players_elos@.contains_key(k)
            && team1@[k] == players_elos@[k] by {}
    }
    split_into_teams(players_elos, team1)
}

/// A random split into two teams, team1 taking half the players: the ids
/// in a shuffled order, cut by `split_from_order`.
pub fn shuffle_list(players_elos: &PlayersElos) -> (r: TeamSplit)
    ensures
        r.team1@.submap_of(players_elos@),
        r.team1@.dom().len() == team_size(players_elos@),
        r@ == split_of(players_elos@, r.team1@),
{
    broadcast use vstd::seq_lib::group_to_multiset_ensures;

    let e = entries(players_elos);
    let mut ids = keys_of(&e);
    let ghost keys = ids@;
    proof {
        assert forall|a: int, b: int| 0 <= a < keys.len() && 0 <= b < keys.len() && a != b
            implies keys[a] != keys[b] by {
            if a < b {
                assert(e@[a].0 < e@[b].0);
            } else {
                assert(e@[b].0 < e@[a].0);
            }
        }
        assert(keys.no_duplicates());
        keys.lemma_multiset_has_no_duplicates();
    }
    shuffle_in_place(&mut ids);
    proof {
        ids@.lemma_multiset_has_no_duplicates_conv();
        assert forall|q: int| 0 <= q < ids@.len() implies players_elos@.contains_key(
            #[trigger] ids@[q],
        ) by {
            assert(ids@.contains(ids@[q]));
            assert(ids@.to_multiset().count(ids@[q]) > 0);
            assert(keys.to_multiset().count(ids@[q]) > 0);
            assert(keys.contains(ids@[q]));
            let p = choose|p: int| 0 <= p < keys.len() && keys[p] == ids@[q];
            assert(players_elos@.contains_key(e@[p].0));
        }
        assert(ids@.len() == keys.len()) by {
            assert(ids@.to_multiset().len() == keys.to_multiset().len());
        }
    }
    let r = split_from_order(players_elos, &ids);
    proof {
        let size = team_size(players_elos@);
        let chosen = ids@.take(size as int);
        assert(chosen.no_duplicates());
        chosen.unique_seq_to_set();
        assert forall|k: u64| chosen.to_set().contains(k) implies players_elos@.contains_key(k) by {
            let q = choose|q: int| 0 <= q < chosen.len() && chosen[q] == k;
            assert(ids@[q] == k);
        }
        assert(r.team1@.dom() =~= chosen.to_set());
    }
    r
}

/// How many 8-player and 6-player lobbies `division_into_lobbies` makes.
pub open spec fn lobby_counts(number_of_players: nat) -> (nat, nat) {
    let n = (number_of_players - number_of_players % 2) as nat;
    let q = n / 8;
    if n % 8 == 0 {
        (q, 0)
    } else if n % 8 == 2 {
        (if q >= 2 { (q - 2) as nat } else { 0 }, 3)
    } else if n % 8 == 4 {
        (if q >= 1 { (q - 1) as nat } else { 0 }, 2)
    } else {
        (q, 1)
    }
}

/// The lobby sizes for a number of players: the eights, then the sixes.
pub open spec fn lobby_sizes(number_of_players: nat) -> Seq<usize> {
    let (a, b) = lobby_counts(number_of_players);
    Seq::new(a, |i: int| 8usize) + Seq::new(b, |i: int| 6usize)
}

/// Lobby sizes (eights, then sixes) for `number_of_players`, an odd one
/// out left over.
pub fn division_into_lobbies(number_of_players: usize) -> (r: Vec<usize>)
    ensures
        r@ == lobby_sizes(number_of_players as nat),
{
    let n = number_of_players - number_of_players % 2;
    let n_mod_8 = n % 8;
    let n_div_8 = n / 8;
    let (a, b): (usize, usize) = if n_mod_8 == 0 {
        (n_div_8, 0)
    } else if n_mod_8 == 2 {
        (n_div_8.saturating_sub(2), 3)
    } else if n_mod_8 == 4 {
        (n_div_8.saturating_sub(1), 2)
    } else {
        (n_div_8, 1)
    };
    let ghost eights = Seq::new(a as nat, |i: int| 8usize);
    let ghost sixes = Seq::new(b as nat, |i: int| 6usize);
    proof {
        assert(lobby_counts(number_of_players as nat) == (a as nat, b as nat));
    }
    let mut r: Vec<usize> = Vec::new();
    let mut i: usize = 0;
    while i < a
        invariant
            i <= a,
            r@ == eights.take(i as int),
            eights == Seq::new(a as nat, |i: int| 8usize),
        decreases a - i,
    {
        r.push(8);
        i += 1;
        proof {
            assert(r@ =~= eights.take(i as int));
        }
    }
    let mut j: usize = 0;
    proof {
        assert(eights.take(a as int) =~= eights);
    }
    while j < b
        invariant
            j <= b,
            r@ == eights + sixes.take(j as int),
            sixes == Seq::new(b as nat, |i: int| 6usize),
        decreases b - j,
    {
        r.push(6);
        j += 1;
        proof {
            assert(r@ =~= eights + sixes.take(j as int));
        }
    }
    proof {
        assert(sixes.take(b as int) =~= sixes);
    }
    r
}

} // verus!
