//! Team suggestions for the players gathered to play: the best-balanced
//! options for one lobby, and the division of a hub into lobbies of
//! balanced teams.

use vstd::prelude::*;
use vstd::string::*;
use std::collections::{BTreeMap, BTreeSet};
use crate::balancing::{team_size, lemma_multiset_map, PlayersElos, SplitView, split_views, hybrid_draft_weighted_allocation, hybrid_draft_allocations, weighted_allocation, weighted_allocations, division_into_lobbies, lobby_sizes, by_score_descending, SortMethod, by_score_ascending};
use crate::listing::{listing, lemma_listing_exists, lemma_listing_len};
use crate::ordering::{sort_by_key, lemma_sort_by_key_items};
use crate::combinations::binomial;
use crate::balancing_laws::{sizes_total, lemma_lobbies_cover, lemma_hybrid_draft_count, lemma_hybrid_draft_split};
use crate::discord::team_members_by_score;
use crate::players::{NamedElo, shown_name, decimal, decimal_text};
use crate::custom_id::string_views;

verus! {

/// Scores by id of a list of players; a later entry for an id wins.
pub open spec fn score_table(s: Seq<NamedElo>) -> Map<u64, i64>
    decreases s.len(),
{
    if s.len() == 0 {
        Map::empty()
    } else {
        score_table(s.drop_last()).insert(s.last().id, s.last().score)
    }
}

/// Names by id of a list of players; a later entry for an id wins.
pub open spec fn name_table(s: Seq<NamedElo>) -> Map<u64, String>
    decreases s.len(),
{
    if s.len() == 0 {
        Map::empty()
    } else {
        name_table(s.drop_last()).insert(s.last().id, s.last().name)
    }
}

/// The score and name tables of `players[lo..hi]`.
fn tables_of(players: &Vec<NamedElo>, lo: usize, hi: usize) -> (r: (PlayersElos, BTreeMap<u64, String>))
    requires
        lo <= hi <= players@.len(),
    ensures
        r.0@ == score_table(players@.subrange(lo as int, hi as int)),
        r.1@ == name_table(players@.subrange(lo as int, hi as int)),
{
    let mut scores: PlayersElos = BTreeMap::new();
    let mut names: BTreeMap<u64, String> = BTreeMap::new();
    let mut j: usize = lo;
    proof {
        assert(players@.subrange(lo as int, lo as int) =~= Seq::<NamedElo>::empty());
    }
    while j < hi
        invariant
            lo <= j <= hi <= players@.len(),
            scores@ == score_table(players@.subrange(lo as int, j as int)),
            names@ == name_table(players@.subrange(lo as int, j as int)),
        decreases hi - j,
    {
        proof {
            assert(players@.subrange(lo as int, j + 1).drop_last() =~= players@.subrange(
                lo as int,
                j as int,
            ));
            assert(players@.subrange(lo as int, j + 1).last() == players@[j as int]);
        }
        scores.insert(players[j].id, players[j].score);
        names.insert(players[j].id, players[j].name.clone());
        j += 1;
    }
    (scores, names)
}

/// A team's member names, highest score first (equal scores by lower id);
/// an id with no name shows in decimal.
pub open spec fn member_names(team: Map<u64, i64>, names: Map<u64, String>) -> Seq<Seq<char>> {
    by_score_descending(listing(team)).map_values(|x: (u64, i64)| shown_name(names, x.0))
}

/// A team's member names, highest score first.
fn team_member_names(team: &PlayersElos, names: &BTreeMap<u64, String>) -> (r: Vec<String>)
    ensures
        string_views(r@) == member_names(team@, names@),
{
    let ids = team_members_by_score(team);
    let ghost ranked = by_score_descending(listing(team@));
    let mut r: Vec<String> = Vec::new();
    let mut i: usize = 0;
    while i < ids.len()
        invariant
            i <= ids@.len(),
            ids@ == ranked.map_values(|x: (u64, i64)| x.0),
            string_views(r@) == ranked.take(i as int).map_values(
                |x: (u64, i64)| shown_name(names@, x.0),
            ),
        decreases ids@.len() - i,
    {
        let id = ids[i];
        let name = match names.get(&id) {
            Some(n) => n.clone(),
            None => decimal_text(id),
        };
        let ghost prev = r@;
        let ghost nv = name@;
        assert(nv == shown_name(names@, id));
        r.push(name);
        i += 1;
        proof {
            assert(ranked[i - 1].0 == id);
            assert(string_views(r@) =~= string_views(prev).push(nv));
            assert(ranked.take(i as int) =~= ranked.take(i - 1).push(ranked[i - 1]));
            assert(string_views(r@) =~= ranked.take(i as int).map_values(
                |x: (u64, i64)| shown_name(names@, x.0),
            ));
        }
    }
    assert(ranked.take(ranked.len() as int) =~= ranked);
    r
}

/// One team option: both teams' member names, highest score first, and
/// their score sums.
#[derive(Debug)]
pub struct TeamOption {
    pub team1: Vec<String>,
    pub team1_elo_sum: i128,
    pub team2: Vec<String>,
    pub team2_elo_sum: i128,
}

pub ghost struct TeamOptionView {
    pub team1: Seq<Seq<char>>,
    pub team1_elo_sum: int,
    pub team2: Seq<Seq<char>>,
    pub team2_elo_sum: int,
}

/// The team option a split gives, with member names from `names`.
pub open spec fn option_of(split: SplitView, names: Map<u64, String>) -> TeamOptionView {
    TeamOptionView {
        team1: member_names(split.team1, names),
        team1_elo_sum: split.team1_elo_sum,
        team2: member_names(split.team2, names),
        team2_elo_sum: split.team2_elo_sum,
    }
}

/// Team options as values.
pub open spec fn option_views(v: Seq<TeamOption>) -> Seq<TeamOptionView> {
    v.map_values(
        |o: TeamOption|
            TeamOptionView {
                team1: string_views(o.team1@),
                team1_elo_sum: o.team1_elo_sum as int,
                team2: string_views(o.team2@),
                team2_elo_sum: o.team2_elo_sum as int,
            },
    )
}

/// The first three of a list, or all of it if shorter.
pub open spec fn first_three<A>(s: Seq<A>) -> Seq<A> {
    if s.len() < 3 {
        s
    } else {
        s.take(3)
    }
}

/// The three best-balanced team options for the players, best first: the
/// highest-scored player's team, and the rest, as `weighted_allocation`
/// ranks the splits.
pub fn balance_options(players: &Vec<NamedElo>) -> (r: Vec<TeamOption>)
    ensures
        option_views(r@) == first_three(weighted_allocations(score_table(players@))).map_values(
            |s: SplitView| option_of(s, name_table(players@)),
        ),
{
    let (scores, names) = tables_of(players, 0, players.len());
    proof {
        assert(players@.subrange(0, players@.len() as int) =~= players@);
    }
    let splits = weighted_allocation(&scores);
    let ghost wanted = first_three(weighted_allocations(score_table(players@)));
    let count = if splits.len() < 3 {
        splits.len()
    } else {
        3
    };
    let mut r: Vec<TeamOption> = Vec::new();
    let mut i: usize = 0;
    while i < count
        invariant
            i <= count,
            count == wanted.len(),
            count <= splits@.len(),
            split_views(splits@) == weighted_allocations(score_table(players@)),
            wanted == first_three(weighted_allocations(score_table(players@))),
            names@ == name_table(players@),
            option_views(r@) == wanted.take(i as int).map_values(
                |s: SplitView| option_of(s, name_table(players@)),
            ),
        decreases count - i,
    {
        let split = &splits[i];
        let team1 = team_member_names(&split.team1, &names);
        let team2 = team_member_names(&split.team2, &names);
        let ghost prev = r@;
        let ghost view = TeamOptionView {
            team1: string_views(team1@),
            team1_elo_sum: split.team1_elo_sum as int,
            team2: string_views(team2@),
            team2_elo_sum: split.team2_elo_sum as int,
        };
        assert(view == option_of(split@, name_table(players@)));
        r.push(
            TeamOption {
                team1,
                team1_elo_sum: split.team1_elo_sum,
                team2,
                team2_elo_sum: split.team2_elo_sum,
            },
        );
        i += 1;
        proof {
            assert(wanted[i - 1] == split_views(splits@)[i - 1]);
            assert(option_views(r@) =~= option_views(prev).push(view));
            assert(wanted.take(i as int) =~= wanted.take(i - 1).push(wanted[i - 1]));
            assert(option_views(r@) =~= wanted.take(i as int).map_values(
                |s: SplitView| option_of(s, name_table(players@)),
            ));
        }
    }
    assert(wanted.take(count as int) =~= wanted);
    r
}

/// One lobby of a division: its place in the lobby sizes (from 0), the
/// names of its two teams, and their members' names, highest score first.
#[derive(Debug)]
pub struct LobbyTeams {
    pub index: usize,
    pub team1_name: String,
    pub team2_name: String,
    pub team1: Vec<String>,
    pub team2: Vec<String>,
}

pub ghost struct LobbyView {
    pub index: int,
    pub team1_name: Seq<char>,
    pub team2_name: Seq<char>,
    pub team1: Seq<Seq<char>>,
    pub team2: Seq<Seq<char>>,
}

/// Lobbies as values.
pub open spec fn lobby_views(v: Seq<LobbyTeams>) -> Seq<LobbyView> {
    v.map_values(
        |l: LobbyTeams|
            LobbyView {
                index: l.index as int,
                team1_name: l.team1_name@,
                team2_name: l.team2_name@,
                team1: string_views(l.team1@),
                team2: string_views(l.team2@),
            },
    )
}

/// A division of players into lobbies: the lobbies with teams, and the
/// names of the players left over past the lobby sizes.
#[derive(Debug)]
pub struct LobbyPlan {
    pub lobbies: Vec<LobbyTeams>,
    pub leftover: Vec<String>,
}

/// The sum of the first `k` sizes.
pub open spec fn size_total(sizes: Seq<usize>, k: int) -> int
    decreases k,
{
    if k <= 0 {
        0
    } else {
        size_total(sizes, k - 1) + sizes[k - 1]
    }
}

/// `a`, but at most `n`.
pub open spec fn clip(a: int, n: int) -> int {
    if a < n {
        a
    } else {
        n
    }
}

/// The name of a lobby's team where no voice channel is paired for it,
/// such as `Lobby 2 Team 1`.
pub open spec fn default_team_name(k: int, suffix: Seq<char>) -> Seq<char> {
    "Lobby "@ + decimal((k + 1) as nat) + suffix
}

/// The team names of lobby `k`: the paired voice channels where there are
/// enough, else `Lobby <k+1> Team 1` and `Lobby <k+1> Team 2`.
pub open spec fn lobby_team_names(lobby_names: Seq<(String, String)>, k: int) -> (
    Seq<char>,
    Seq<char>,
) {
    if 0 <= k < lobby_names.len() {
        (lobby_names[k].0@, lobby_names[k].1@)
    } else {
        (default_team_name(k, " Team 1"@), default_team_name(k, " Team 2"@))
    }
}

/// Lobby `k` of the division of `players`, in their order: the players
/// its size takes (as many as remain), split by the best hybrid draft; none
/// where it takes nobody or the draft has no split.
pub open spec fn planned_lobby(
    players: Seq<NamedElo>,
    lobby_names: Seq<(String, String)>,
    k: int,
) -> Option<LobbyView> {
    let sizes = lobby_sizes(players.len());
    let n = players.len() as int;
    let lobby = players.subrange(clip(size_total(sizes, k), n), clip(size_total(sizes, k + 1), n));
    let splits = hybrid_draft_allocations(score_table(lobby));
    if lobby.len() == 0 || splits.len() == 0 {
        None
    } else {
        let names = name_table(lobby);
        let (t1, t2) = lobby_team_names(lobby_names, k);
        Some(
            LobbyView {
                index: k,
                team1_name: t1,
                team2_name: t2,
                team1: member_names(splits[0].team1, names),
                team2: member_names(splits[0].team2, names),
            },
        )
    }
}

/// The values that are present, in order.
pub open spec fn somes<A>(s: Seq<Option<A>>) -> Seq<A>
    decreases s.len(),
{
    if s.len() == 0 {
        Seq::empty()
    } else {
        match s.last() {
            Some(a) => somes(s.drop_last()).push(a),
            None => somes(s.drop_last()),
        }
    }
}

fn default_name(k: usize, suffix: &str) -> (r: String)
    requires
        k < usize::MAX,
    ensures
        r@ == default_team_name(k as int, suffix@),
{
    let mut r = String::from_str("Lobby ");
    let number = decimal_text((k + 1) as u64);
    r.append(number.as_str());
    r.append(suffix);
    proof {
        reveal_strlit("Lobby ");
    }
    r
}

/// Divides players, already in the order to fill lobbies in, into lobbies
/// of eight, then six (`division_into_lobbies`), balancing each with the
/// hybrid draft; see `planned_lobby`. The players past the lobby sizes are
/// left over.
pub fn plan_lobbies(players: &Vec<NamedElo>, lobby_names: &Vec<(String, String)>) -> (r: LobbyPlan)
    ensures
        lobby_views(r.lobbies@) == somes(
            Seq::new(
                lobby_sizes(players@.len()).len(),
                |k: int| planned_lobby(players@, lobby_names@, k),
            ),
        ),
        string_views(r.leftover@) == players@.skip(
            clip(
                size_total(lobby_sizes(players@.len()), lobby_sizes(players@.len()).len() as int),
                players@.len() as int,
            ),
        ).map_values(|p: NamedElo| p.name@),
{
    let n = players.len();
    let sizes = division_into_lobbies(n);
    let ghost f = |k: int| planned_lobby(players@, lobby_names@, k);
    let mut lobbies: Vec<LobbyTeams> = Vec::new();
    let mut start: usize = 0;
    let mut k: usize = 0;
    proof {
        assert(Seq::new(0, f) =~= Seq::<Option<LobbyView>>::empty());
        assert(lobby_views(lobbies@) =~= Seq::<LobbyView>::empty());
    }
    while k < sizes.len()
        invariant
            n == players@.len(),
            sizes@ == lobby_sizes(n as nat),
            k <= sizes@.len(),
            start == clip(size_total(sizes@, k as int), n as int),
            f == |k: int| planned_lobby(players@, lobby_names@, k),
            lobby_views(lobbies@) == somes(Seq::new(k as nat, f)),
        decreases sizes@.len() - k,
    {
        let size = sizes[k];
        let take = if size < n - start {
            size
        } else {
            n - start
        };
        let hi = start + take;
        let ghost prev = lobbies@;
        proof {
            assert(hi == clip(size_total(sizes@, k + 1), n as int));
            assert(Seq::new((k + 1) as nat, f).drop_last() =~= Seq::new(k as nat, f));
            assert(Seq::new((k + 1) as nat, f).last() == f(k as int));
        }
        if take > 0 {
            let (scores, names) = tables_of(players, start, hi);
            let splits = hybrid_draft_weighted_allocation(&scores);
            if splits.len() > 0 {
                let team1 = team_member_names(&splits[0].team1, &names);
                let team2 = team_member_names(&splits[0].team2, &names);
                let (team1_name, team2_name) = if k < lobby_names.len() {
                    (lobby_names[k].0.clone(), lobby_names[k].1.clone())
                } else {
                    (default_name(k, " Team 1"), default_name(k, " Team 2"))
                };
                let ghost view = LobbyView {
                    index: k as int,
                    team1_name: team1_name@,
                    team2_name: team2_name@,
                    team1: string_views(team1@),
                    team2: string_views(team2@),
                };
                proof {
                    assert(split_views(splits@)[0] == splits@[0]@);
                    assert(f(k as int) == Some(view));
                }
                lobbies.push(LobbyTeams { index: k, team1_name, team2_name, team1, team2 });
                proof {
                    assert(lobby_views(lobbies@) =~= lobby_views(prev).push(view));
                }
            } else {
                proof {
                    assert(split_views(splits@).len() == 0);
                    assert(f(k as int) is None);
                }
            }
        } else {
            proof {
                assert(f(k as int) is None);
            }
        }
        start = hi;
        k += 1;
    }
    let mut leftover: Vec<String> = Vec::new();
    let mut j: usize = start;
    while j < n
        invariant
            n == players@.len(),
            start <= j <= n,
            string_views(leftover@) == players@.subrange(start as int, j as int).map_values(
                |p: NamedElo| p.name@,
            ),
        decreases n - j,
    {
        let ghost prev = leftover@;
        leftover.push(players[j].name.clone());
        j += 1;
        proof {
            assert(string_views(leftover@) =~= string_views(prev).push(players@[j - 1].name@));
            assert(players@.subrange(start as int, j as int) =~= players@.subrange(start as int, j - 1).push(players@[j - 1]));
            assert(string_views(leftover@) =~= players@.subrange(start as int, j as int).map_values(
                |p: NamedElo| p.name@,
            ));
        }
    }
    proof {
        assert(players@.subrange(start as int, n as int) =~= players@.skip(start as int));
    }
    LobbyPlan { lobbies, leftover }
}

/// The players to divide: those tagged in and those in the caller's voice
/// channel, without those tagged as spectators.
pub fn active_players(
    manual_entries: &BTreeSet<u64>,
    members: &Vec<u64>,
    ignored_players: &BTreeSet<u64>,
) -> (r: BTreeSet<u64>)
    ensures
        forall|id: u64| #[trigger]
            r@.contains(id) <==> ((manual_entries@.contains(id) || members@.contains(id))
                && !ignored_players@.contains(id)),
{
    let listed = crate::custom_id::set_members(manual_entries);
    let mut r: BTreeSet<u64> = BTreeSet::new();
    let mut i: usize = 0;
    while i < listed.len()
        invariant
            i <= listed@.len(),
            listed@.to_set() == manual_entries@,
            forall|id: u64| #[trigger]
                r@.contains(id) <==> (listed@.take(i as int).contains(id)
                    && !ignored_players@.contains(id)),
        decreases listed@.len() - i,
    {
        let id = listed[i];
        if !ignored_players.contains(&id) {
            r.insert(id);
        }
        i += 1;
        proof {
            assert(listed@.take(i as int) =~= listed@.take(i - 1).push(id));
            lemma_push_contains(listed@.take(i - 1), id);
        }
    }
    proof {
        assert(listed@.take(listed@.len() as int) =~= listed@);
        assert forall|id: u64| listed@.contains(id) <==> manual_entries@.contains(id) by {
            assert(listed@.to_set().contains(id) <==> listed@.contains(id));
        }
    }
    let mut j: usize = 0;
    while j < members.len()
        invariant
            j <= members@.len(),
            forall|id: u64| #[trigger]
                r@.contains(id) <==> ((manual_entries@.contains(id) || members@.take(
                    j as int,
                ).contains(id)) && !ignored_players@.contains(id)),
        decreases members@.len() - j,
    {
        let id = members[j];
        if !ignored_players.contains(&id) {
            r.insert(id);
        }
        j += 1;
        proof {
            assert(members@.take(j as int) =~= members@.take(j - 1).push(id));
            lemma_push_contains(members@.take(j - 1), id);
        }
    }
    assert(members@.take(members@.len() as int) =~= members@);
    r
}

/// Whether there are enough players to divide into lobbies: more than eleven.
pub fn enough_to_divide(player_count: usize) -> (r: bool)
    ensures
        r == (player_count > 11),
{
    player_count > 11
}

/// The ids of a list of players, in order.
pub open spec fn ids_of(s: Seq<NamedElo>) -> Seq<u64> {
    s.map_values(|p: NamedElo| p.id)
}

/// The (id, score) pairs of a list of players, in order.
pub open spec fn pairs_of(s: Seq<NamedElo>) -> Seq<(u64, i64)> {
    s.map_values(|p: NamedElo| (p.id, p.score))
}

/// The last player in `s` with the id `id`.
pub open spec fn latest_with_id(s: Seq<NamedElo>, id: u64) -> Option<NamedElo>
    decreases s.len(),
{
    if s.len() == 0 {
        None
    } else if s.last().id == id {
        Some(s.last())
    } else {
        latest_with_id(s.drop_last(), id)
    }
}

fn find_latest(players: &Vec<NamedElo>, id: u64) -> (r: Option<NamedElo>)
    ensures
        r == latest_with_id(players@, id),
{
    let mut i: usize = players.len();
    assert(players@.take(players@.len() as int) =~= players@);
    while i > 0
        invariant
            i <= players@.len(),
            latest_with_id(players@, id) == latest_with_id(players@.take(i as int), id),
        decreases i,
    {
        proof {
            assert(players@.take(i as int).drop_last() =~= players@.take(i - 1));
            assert(players@.take(i as int).last() == players@[i - 1]);
        }
        if players[i - 1].id == id {
            let p = &players[i - 1];
            return Some(NamedElo { id: p.id, name: p.name.clone(), score: p.score });
        }
        i -= 1;
    }
    proof {
        assert(players@.take(0) =~= Seq::<NamedElo>::empty());
    }
    assert(players@.take(players@.len() as int) =~= players@);
    None
}

/// The players named by `ids`, in the order of `ids`: for each id its last
/// entry in `players`, none where no entry has that id.
pub open spec fn players_for_ids(players: Seq<NamedElo>, ids: Seq<u64>) -> Seq<NamedElo>
    decreases ids.len(),
{
    if ids.len() == 0 {
        Seq::empty()
    } else {
        let front = players_for_ids(players, ids.drop_last());
        match latest_with_id(players, ids.last()) {
            Some(p) => front.push(p),
            None => front,
        }
    }
}

/// The players named by `ids`, in the order of `ids`, each by its last
/// entry in `players`; ids with no entry are passed over.
pub fn players_by_ids(players: &Vec<NamedElo>, ids: &Vec<u64>) -> (r: Vec<NamedElo>)
    ensures
        r@ == players_for_ids(players@, ids@),
{
    let mut r: Vec<NamedElo> = Vec::new();
    let mut k: usize = 0;
    while k < ids.len()
        invariant
            k <= ids@.len(),
            r@ == players_for_ids(players@, ids@.take(k as int)),
        decreases ids@.len() - k,
    {
        proof {
            assert(ids@.take(k + 1).drop_last() =~= ids@.take(k as int));
            assert(ids@.take(k + 1).last() == ids@[k as int]);
        }
        match find_latest(players, ids[k]) {
            Some(p) => {
                r.push(p);
            },
            None => {},
        }
        k += 1;
    }
    assert(ids@.take(ids@.len() as int) =~= ids@);
    r
}

/// The last entry with an id carries that id.
proof fn lemma_latest_id(s: Seq<NamedElo>, id: u64)
    ensures
        latest_with_id(s, id) is Some ==> latest_with_id(s, id)->0.id == id,
    decreases s.len(),
{
    if s.len() > 0 {
        lemma_latest_id(s.drop_last(), id);
    }
}

/// Where every id has an entry, the players picked for `ids` carry exactly
/// those ids, each the last entry with its id.
proof fn lemma_players_for_ids(players: Seq<NamedElo>, ids: Seq<u64>)
    requires
        forall|q: int| 0 <= q < ids.len() ==> (#[trigger] latest_with_id(players, ids[q])) is Some,
    ensures
        ids_of(players_for_ids(players, ids)) == ids,
        forall|i: int|
            0 <= i < players_for_ids(players, ids).len() ==> latest_with_id(
                players,
                (#[trigger] players_for_ids(players, ids)[i]).id,
            ) == Some(players_for_ids(players, ids)[i]),
    decreases ids.len(),
{
    if ids.len() > 0 {
        let front = ids.drop_last();
        assert forall|q: int| 0 <= q < front.len() implies (#[trigger] latest_with_id(
            players,
            front[q],
        )) is Some by {
            assert(front[q] == ids[q]);
        }
        lemma_players_for_ids(players, front);
        lemma_latest_id(players, ids.last());
        assert(latest_with_id(players, ids[ids.len() - 1]) is Some);
        let r = players_for_ids(players, ids);
        assert(ids_of(r) =~= ids_of(players_for_ids(players, front)).push(ids.last()));
        assert(ids =~= front.push(ids.last()));
    } else {
        assert(ids_of(players_for_ids(players, ids)) =~= ids);
    }
}

/// Puts the players in the order to fill lobbies in: at random, or by
/// increasing score with equal scores in their given order. Where an id
/// occurs twice, its last entry stands for it. The order of ids is drawn
/// first; `players_by_ids` then picks the players in that order.
pub fn order_players(players: &Vec<NamedElo>, sort_method: SortMethod) -> (r: Vec<NamedElo>)
    ensures
        ids_of(r@).to_multiset() == ids_of(players@).to_multiset(),
        sort_method == SortMethod::Score ==> ids_of(r@) == by_score_ascending(
            pairs_of(players@),
        ).map_values(|x: (u64, i64)| x.0),
        forall|i: int| 0 <= i < r@.len() ==> latest_with_id(players@, (#[trigger] r@[i]).id) == Some(r@[i]),
{
    let mut pairs: Vec<(u64, i64)> = Vec::new();
    let mut i: usize = 0;
    while i < players.len()
        invariant
            i <= players@.len(),
            pairs@ == pairs_of(players@.take(i as int)),
        decreases players@.len() - i,
    {
        pairs.push((players[i].id, players[i].score));
        i += 1;
        proof {
            assert(pairs@ =~= pairs_of(players@.take(i as int)));
        }
    }
    assert(players@.take(players@.len() as int) =~= players@);
    let ghost before = pairs@;
    sort_method.sort(&mut pairs);
    let mut ids: Vec<u64> = Vec::new();
    let mut k: usize = 0;
    while k < pairs.len()
        invariant
            k <= pairs@.len(),
            ids@ == pairs@.take(k as int).map_values(|x: (u64, i64)| x.0),
        decreases pairs@.len() - k,
    {
        ids.push(pairs[k].0);
        k += 1;
        proof {
            assert(ids@ =~= pairs@.take(k as int).map_values(|x: (u64, i64)| x.0));
        }
    }
    proof {
        broadcast use vstd::seq_lib::group_to_multiset_ensures;
        assert(pairs@.take(pairs@.len() as int) =~= pairs@);
        assert forall|q: int| 0 <= q < ids@.len() implies (#[trigger] latest_with_id(
            players@,
            ids@[q],
        )) is Some by {
            assert(pairs@.contains(pairs@[q]));
            assert(pairs@.to_multiset().count(pairs@[q]) > 0);
            assert(before.contains(pairs@[q]));
            let a = choose|a: int| 0 <= a < before.len() && before[a] == pairs@[q];
            lemma_latest_exists(players@, a);
        }
        lemma_players_for_ids(players@, ids@);
    }
    let r = players_by_ids(players, &ids);
    proof {
        let f = |x: (u64, i64)| x.0;
        lemma_multiset_map(pairs@, before, f);
        assert(before.map_values(f) =~= ids_of(players@));
    }
    r
}

/// What a sequence holds after a push.
proof fn lemma_push_contains(s: Seq<u64>, x: u64)
    ensures
        forall|y: u64| #[trigger] s.push(x).contains(y) <==> (s.contains(y) || y == x),
{
    assert forall|y: u64| #[trigger] s.push(x).contains(y) <==> (s.contains(y) || y == x) by {
        if s.push(x).contains(y) {
            let k = choose|k: int| 0 <= k < s.len() + 1 && s.push(x)[k] == y;
            if k < s.len() {
                assert(s[k] == y);
            }
        }
        if s.contains(y) {
            let k = choose|k: int| 0 <= k < s.len() && s[k] == y;
            assert(s.push(x)[k] == y);
        }
        if y == x {
            assert(s.push(x)[s.len() as int] == y);
        }
    }
}

/// Some player holds the id of entry `a`, so a last one does.
proof fn lemma_latest_exists(s: Seq<NamedElo>, a: int)
    requires
        0 <= a < s.len(),
    ensures
        latest_with_id(s, s[a].id) is Some,
        latest_with_id(s, s[a].id)->0.id == s[a].id,
    decreases s.len(),
{
    if s.last().id != s[a].id {
        assert(a < s.len() - 1);
        assert(s.drop_last()[a] == s[a]);
        lemma_latest_exists(s.drop_last(), a);
    }
}

/// The prefix sums of the sizes are the sums of their prefixes.
proof fn lemma_size_total_prefix(s: Seq<usize>, k: int)
    requires
        0 <= k <= s.len(),
    ensures
        size_total(s, k) == sizes_total(s.take(k)),
    decreases k,
{
    if k > 0 {
        lemma_size_total_prefix(s, k - 1);
        assert(s.take(k).drop_last() =~= s.take(k - 1));
    } else {
        assert(s.take(0) =~= Seq::<usize>::empty());
    }
}

/// Prefix sums of sizes grow with the prefix.
proof fn lemma_size_total_grows(s: Seq<usize>, k: int, j: int)
    requires
        0 <= k <= j <= s.len(),
    ensures
        size_total(s, k) <= size_total(s, j),
    decreases j - k,
{
    if k < j {
        lemma_size_total_grows(s, k, j - 1);
    }
}

/// The ids of a list of players.
pub open spec fn id_set(s: Seq<NamedElo>) -> Set<u64> {
    Set::new(|id: u64| exists|i: int| 0 <= i < s.len() && s[i].id == id)
}

/// A score table holds one entry per id of its players.
proof fn lemma_score_table_ids(s: Seq<NamedElo>)
    requires
        forall|i: int, j: int| 0 <= i < j < s.len() ==> s[i].id != s[j].id,
    ensures
        score_table(s).dom().finite(),
        score_table(s).dom().len() == s.len(),
    decreases s.len(),
{
    if s.len() > 0 {
        let t = s.drop_last();
        assert forall|i: int, j: int| 0 <= i < j < t.len() implies t[i].id != t[j].id by {
            assert(t[i] == s[i]);
            assert(t[j] == s[j]);
        }
        lemma_score_table_ids(t);
        lemma_score_table_keys(t);
        assert(!score_table(t).dom().contains(s.last().id)) by {
            if score_table(t).dom().contains(s.last().id) {
                let i = choose|i: int| 0 <= i < t.len() && t[i].id == s.last().id;
                assert(t[i] == s[i]);
            }
        }
        assert(score_table(s).dom() =~= score_table(t).dom().insert(s.last().id));
    }
}

/// The keys of a score table are the ids of its players.
proof fn lemma_score_table_keys(s: Seq<NamedElo>)
    ensures
        score_table(s).dom() == id_set(s),
    decreases s.len(),
{
    if s.len() > 0 {
        let t = s.drop_last();
        lemma_score_table_keys(t);
        assert forall|id: u64| score_table(s).dom().contains(id) <==> id_set(s).contains(id) by {
            if id_set(t).contains(id) {
                let i = choose|i: int| 0 <= i < t.len() && t[i].id == id;
                assert(s[i] == t[i]);
            }
            if id_set(s).contains(id) && id != s.last().id {
                let i = choose|i: int| 0 <= i < s.len() && s[i].id == id;
                assert(i < t.len());
                assert(t[i] == s[i]);
            }
            if id == s.last().id {
                assert(s[s.len() - 1].id == id);
            }
        }
        assert(score_table(s).dom() =~= id_set(s));
    } else {
        assert(id_set(s) =~= Set::<u64>::empty());
        assert(score_table(s).dom() =~= Set::<u64>::empty());
    }
}

/// `n` choose `k` is at least one for `k <= n`.
proof fn lemma_binomial_positive(n: nat, k: nat)
    requires
        k <= n,
    ensures
        binomial(n, k) >= 1,
    decreases n,
{
    if k > 0 {
        lemma_binomial_positive((n - 1) as nat, (k - 1) as nat);
    }
}

/// Where every value is present, none is dropped.
proof fn lemma_somes_all<A>(s: Seq<Option<A>>)
    requires
        forall|i: int| 0 <= i < s.len() ==> (#[trigger] s[i]) is Some,
    ensures
        somes(s).len() == s.len(),
    decreases s.len(),
{
    if s.len() > 0 {
        let t = s.drop_last();
        assert forall|i: int| 0 <= i < t.len() implies (#[trigger] t[i]) is Some by {
            assert(t[i] == s[i]);
        }
        lemma_somes_all(t);
        assert(s.last() == s[s.len() - 1]);
    }
}

/// A team lists as many member names as it holds players.
proof fn lemma_member_names_len(team: Map<u64, i64>, names: Map<u64, String>)
    requires
        team.dom().finite(),
    ensures
        member_names(team, names).len() == team.dom().len(),
{
    lemma_listing_exists(team);
    lemma_listing_len(listing(team), team);
    let keyed = listing(team).map_values(|x: (u64, i64)| (x, (-(x.1 as int)) as i128));
    lemma_sort_by_key_items(keyed);
}

/// A planned lobby whose two teams each hold half of its `size` players.
pub open spec fn split_in_halves(lobby: Option<LobbyView>, size: usize) -> bool {
    match lobby {
        Some(v) => v.team1.len() == size / 2 && v.team2.len() == size / 2,
        None => false,
    }
}

/// Lobby `k` of a division of players with distinct ids, whose lobby sizes
/// fit the count, is planned: its 8 or 6 players split into two teams of
/// half each.
proof fn lemma_lobby_planned(players: Seq<NamedElo>, lobby_names: Seq<(String, String)>, k: int)
    requires
        forall|i: int, j: int| 0 <= i < j < players.len() ==> players[i].id != players[j].id,
        0 <= k < lobby_sizes(players.len()).len(),
        sizes_total(lobby_sizes(players.len())) <= players.len(),
        forall|i: int|
            0 <= i < lobby_sizes(players.len()).len() ==> #[trigger] lobby_sizes(players.len())[i]
                == 8 || lobby_sizes(players.len())[i] == 6,
    ensures
        split_in_halves(planned_lobby(players, lobby_names, k), lobby_sizes(players.len())[k]),
{
    let sizes = lobby_sizes(players.len());
    let n = players.len() as int;
    lemma_size_total_prefix(sizes, sizes.len() as int);
    assert(sizes.take(sizes.len() as int) =~= sizes);
    lemma_size_total_grows(sizes, k + 1, sizes.len() as int);
    lemma_size_total_grows(sizes, 0, k);
    let lo = size_total(sizes, k);
    let hi = size_total(sizes, k + 1);
    assert(hi == lo + sizes[k]);
    assert(clip(lo, n) == lo && clip(hi, n) == hi);
    let lobby = players.subrange(lo, hi);
    assert forall|i: int, j: int| 0 <= i < j < lobby.len() implies lobby[i].id != lobby[j].id by {
        assert(lobby[i] == players[lo + i]);
        assert(lobby[j] == players[lo + j]);
    }
    lemma_score_table_ids(lobby);
    let table = score_table(lobby);
    assert(table.dom().len() == sizes[k]);
    lemma_hybrid_draft_count(table);
    lemma_binomial_positive((table.dom().len() - 2) as nat, (team_size(table) - 1) as nat);
    let splits = hybrid_draft_allocations(table);
    assert(splits.len() >= 1);
    assert(splits.len() <= usize::MAX) by {
        reveal_with_fuel(binomial, 7);
        assert(binomial(6, 3) == 20);
        assert(binomial(4, 2) == 6);
        assert(sizes[k] == 8 || sizes[k] == 6);
    }
    lemma_hybrid_draft_split(table, 0);
    lemma_split_team_lengths(table, splits[0], name_table(lobby));
}

/// The two teams of a split whose team1 holds half of the pool list half
/// of its players, and the rest.
proof fn lemma_split_team_lengths(table: Map<u64, i64>, split: SplitView, names: Map<u64, String>)
    requires
        table.dom().finite(),
        split.team1.submap_of(table),
        split == crate::balancing::split_of(table, split.team1),
        split.team1.dom().len() == table.dom().len() / 2,
    ensures
        member_names(split.team1, names).len() == table.dom().len() / 2,
        member_names(split.team2, names).len() == table.dom().len() - table.dom().len() / 2,
{
    let a = table.dom();
    let b = split.team1.dom();
    assert(b.subset_of(a));
    vstd::set_lib::lemma_len_subset(b, a);
    lemma_member_names_len(split.team1, names);
    assert(split.team2.dom() =~= a.difference(b));
    vstd::set_lib::lemma_set_difference_len(a, b);
    assert(a.intersect(b) =~= b);
    lemma_member_names_len(split.team2, names);
}

/// With players of different ids, no lobby of the division is left out:
/// each splits its 8 or 6 players into two teams of half each, and only an
/// odd one out is left over. This holds for every count whose even part is
/// not 2, 4 or 10 (there the lobby sizes overshoot the count).
pub proof fn lemma_division_complete(players: Seq<NamedElo>, lobby_names: Seq<(String, String)>)
    requires
        ({
            let even = players.len() - players.len() % 2;
            even != 2 && even != 4 && even != 10
        }),
        forall|i: int, j: int| 0 <= i < j < players.len() ==> players[i].id != players[j].id,
    ensures
        ({
            let sizes = lobby_sizes(players.len());
            &&& forall|k: int|
                0 <= k < sizes.len() ==> split_in_halves(
                    #[trigger] planned_lobby(players, lobby_names, k),
                    sizes[k],
                )
            &&& somes(Seq::new(sizes.len(), |k: int| planned_lobby(players, lobby_names, k))).len()
                == sizes.len()
            &&& players.skip(clip(size_total(sizes, sizes.len() as int), players.len() as int)).len()
                == players.len() % 2
        }),
{
    let sizes = lobby_sizes(players.len());
    let n = players.len() as int;
    lemma_lobbies_cover(players.len());
    let even = n - n % 2;
    assert(sizes_total(sizes) == even);
    assert forall|k: int| 0 <= k < sizes.len() implies split_in_halves(
        #[trigger] planned_lobby(players, lobby_names, k),
        sizes[k],
    ) by {
        lemma_lobby_planned(players, lobby_names, k);
    }
    let all = Seq::new(sizes.len(), |k: int| planned_lobby(players, lobby_names, k));
    assert forall|i: int| 0 <= i < all.len() implies (#[trigger] all[i]) is Some by {
        lemma_lobby_planned(players, lobby_names, i);
    }
    lemma_somes_all(all);
    lemma_size_total_prefix(sizes, sizes.len() as int);
    assert(sizes.take(sizes.len() as int) =~= sizes);
}

} // verus!
