use qc_balance::balancing::{
    division_into_lobbies, draft_allocation, hybrid_draft_weighted_allocation, ideal_team_elo, team_elo,
    nth_highest_elo_player, shuffle_list, split_from_order, weighted_allocation, PlayersElos, SortMethod,
};
use std::collections::BTreeMap;

/// Scores are held in billionths of a point.
fn units(x: f64) -> i64 {
    (x * 1e9).round() as i64
}

fn table(entries: &[(u64, f64)]) -> PlayersElos {
    entries.iter().map(|(id, s)| (*id, units(*s))).collect()
}

// Mock elos keyed by fake discord ids.
fn mock_players() -> PlayersElos {
    table(&[
        (1, 5.9680834),
        (2, 3.723866),
        (3, 8.2246895),
        (4, 13.569449),
        (5, 7.8625717),
        (6, 4.702424),
        (7, 6.7005982),
        (8, 0.44074476),
    ])
}

#[test]
fn ideal_team_elo_halves_total() {
    let players = table(&[(1, 1.0), (2, 2.0), (3, 3.0), (4, 4.0), (5, 5.0), (6, 6.0)]);
    assert_eq!(ideal_team_elo(&players), units(10.5) as i128);
}

#[test]
fn team_elo_sums_and_ideal_rounds_toward_zero() {
    let players: PlayersElos = BTreeMap::from([(1, 3), (2, -8)]);
    assert_eq!(team_elo(&players), -5);
    assert_eq!(ideal_team_elo(&players), -2);
    let odd: PlayersElos = BTreeMap::from([(1, 5)]);
    assert_eq!(ideal_team_elo(&odd), 2);
    assert_eq!(team_elo(&BTreeMap::new()), 0);
}

#[test]
fn nth_highest_ranks_descending() {
    let players = mock_players();
    assert_eq!(nth_highest_elo_player(&players, 0), Some(4));
    assert_eq!(nth_highest_elo_player(&players, 1), Some(3));
    assert_eq!(nth_highest_elo_player(&players, 7), Some(8));
    assert_eq!(nth_highest_elo_player(&players, 8), None);
}

#[test]
fn weighted_allocation_is_sorted_and_complete() {
    let players = mock_players();
    let splits = weighted_allocation(&players);
    // highest player fixed in team1: C(7,3) = 35 splits
    assert_eq!(splits.len(), 35);
    for split in &splits {
        assert_eq!(split.team1.len(), 4);
        assert_eq!(split.team2.len(), 4);
        assert!(split.team1.contains_key(&4));
        // team1 + team2 == all players
        let mut all: Vec<u64> = split.team1.keys().chain(split.team2.keys()).copied().collect();
        all.sort();
        assert_eq!(all, vec![1, 2, 3, 4, 5, 6, 7, 8]);
    }
    // ordered best-first
    for pair in splits.windows(2) {
        assert!(pair[0].double_distance_from_ideal <= pair[1].double_distance_from_ideal);
    }
}

#[test]
fn hybrid_draft_separates_captains() {
    let players = mock_players();
    let splits = hybrid_draft_weighted_allocation(&players);
    // captain1 fixed, captain2 excluded: C(6,3) = 20 splits
    assert_eq!(splits.len(), 20);
    for split in &splits {
        assert!(split.team1.contains_key(&4));
        assert!(split.team2.contains_key(&3));
    }
}

#[test]
fn shuffle_list_splits_evenly() {
    let players = mock_players();
    let split = shuffle_list(&players);
    assert_eq!(split.team1.len(), 4);
    assert_eq!(split.team2.len(), 4);
}

#[test]
fn draft_allocation_takes_stronger_of_each_pair() {
    let players = table(&[(1, 1.0), (2, 2.0), (3, 3.0), (4, 4.0)]);
    let split = draft_allocation(&players);
    // pairs ascending: (1,2) (3,4) → team1 gets 2 and 4
    assert_eq!(split.team1.keys().copied().collect::<Vec<_>>(), vec![2, 4]);
    assert_eq!(split.team2.keys().copied().collect::<Vec<_>>(), vec![1, 3]);
}

#[test]
fn draft_allocation_odd_leftover_goes_to_team2() {
    let players = table(&[(1, 1.0), (2, 2.0), (3, 3.0), (4, 4.0), (5, 5.0)]);
    let split = draft_allocation(&players);
    // pairs ascending: (1,2) (3,4), 5 left over → complement team
    assert_eq!(split.team1.keys().copied().collect::<Vec<_>>(), vec![2, 4]);
    assert_eq!(split.team2.keys().copied().collect::<Vec<_>>(), vec![1, 3, 5]);
}

#[test]
fn split_metrics_are_consistent() {
    let players = mock_players();
    let split = weighted_allocation(&players).into_iter().next().unwrap();
    let total: i128 = players.values().map(|s| *s as i128).sum();
    assert_eq!(split.team1_elo_sum + split.team2_elo_sum, total);
    assert_eq!(split.double_distance_from_ideal, (total - 2 * split.team1_elo_sum).abs());
}

#[test]
fn lobby_division_covers_even_counts() {
    assert_eq!(division_into_lobbies(6), vec![6]);
    assert_eq!(division_into_lobbies(8), vec![8]);
    assert_eq!(division_into_lobbies(12), vec![6, 6]);
    assert_eq!(division_into_lobbies(14), vec![8, 6]);
    assert_eq!(division_into_lobbies(16), vec![8, 8]);
    assert_eq!(division_into_lobbies(18), vec![6, 6, 6]);
    assert_eq!(division_into_lobbies(20), vec![8, 6, 6]);
    assert_eq!(division_into_lobbies(22), vec![8, 8, 6]);
    assert_eq!(division_into_lobbies(24), vec![8, 8, 8]);
    // odd leftover dropped
    assert_eq!(division_into_lobbies(15), vec![8, 6]);
}

#[test]
fn lobby_division_of_small_counts() {
    assert_eq!(division_into_lobbies(0), Vec::<usize>::new());
    assert_eq!(division_into_lobbies(2), vec![6, 6, 6]);
    assert_eq!(division_into_lobbies(4), vec![6, 6]);
    assert_eq!(division_into_lobbies(10), vec![6, 6, 6]);
    assert_eq!(division_into_lobbies(26), vec![8, 6, 6, 6]);
}

#[test]
fn sort_method_score_orders_ascending() {
    let mut players = vec![(1, units(5.0)), (2, units(1.0)), (3, units(3.0))];
    SortMethod::Score.sort(&mut players);
    assert_eq!(players, vec![(2, units(1.0)), (3, units(3.0)), (1, units(5.0))]);
}

#[test]
fn sort_by_score_keeps_ties_in_order() {
    let mut players = vec![(5, 2), (1, 1), (3, 2), (2, 1)];
    SortMethod::Score.sort(&mut players);
    assert_eq!(players, vec![(1, 1), (2, 1), (5, 2), (3, 2)]);
}

#[test]
fn random_sort_keeps_the_players_and_moves_them() {
    let listed: Vec<(u64, i64)> = (0..20).map(|i| (i, i as i64)).collect();
    let mut moved = false;
    for _ in 0..10 {
        let mut players = listed.clone();
        SortMethod::Random.sort(&mut players);
        let mut back = players.clone();
        back.sort();
        assert_eq!(back, listed);
        moved |= players != listed;
    }
    assert!(moved);
}

#[test]
fn sort_method_names_round_trip() {
    for m in [SortMethod::Random, SortMethod::Score] {
        assert_eq!(SortMethod::from_name(m.name()), Some(m));
    }
    assert_eq!(SortMethod::from_name("elo"), None);
}

#[test]
fn allocations_of_tiny_tables() {
    let empty: PlayersElos = BTreeMap::new();
    assert!(weighted_allocation(&empty).is_empty());
    assert!(hybrid_draft_weighted_allocation(&empty).is_empty());
    let one = table(&[(1, 1.0)]);
    assert!(weighted_allocation(&one).is_empty());
    assert!(hybrid_draft_weighted_allocation(&one).is_empty());
    let two = table(&[(1, 1.0), (2, 3.0)]);
    let splits = weighted_allocation(&two);
    assert_eq!(splits.len(), 1);
    assert_eq!(splits[0].team1.keys().copied().collect::<Vec<_>>(), vec![2]);
    assert_eq!(splits[0].double_distance_from_ideal, units(2.0) as i128);
}

#[test]
fn split_from_order_takes_the_first_half() {
    let players = table(&[(1, 1.0), (2, 2.0), (3, 3.0), (4, 4.0), (5, 5.0)]);
    let split = split_from_order(&players, &vec![4, 1, 5, 2, 3]);
    assert_eq!(split.team1.keys().copied().collect::<Vec<_>>(), vec![1, 4]);
    assert_eq!(split.team2.keys().copied().collect::<Vec<_>>(), vec![2, 3, 5]);
    assert_eq!(split.team1_elo_sum, units(5.0) as i128);
    assert_eq!(split.team2_elo_sum, units(10.0) as i128);
    assert_eq!(split.double_distance_from_ideal, units(5.0) as i128);
}

/// `|pool - 2 * team1|` for every team of four holding `must` and not `never`.
fn every_team_deviation(players: &PlayersElos, must: u64, never: Option<u64>) -> Vec<i128> {
    let ids: Vec<u64> = players.keys().copied().collect();
    let pool: i128 = players.values().map(|v| *v as i128).sum();
    let mut out = Vec::new();
    for mask in 0u32..(1 << ids.len()) {
        let team: Vec<u64> = (0..ids.len()).filter(|b| mask & (1 << b) != 0).map(|b| ids[b]).collect();
        if team.len() == ids.len() / 2 && team.contains(&must) && never.map_or(true, |n| !team.contains(&n)) {
            let sum: i128 = team.iter().map(|id| players[id] as i128).sum();
            out.push((pool - 2 * sum).abs());
        }
    }
    out
}

#[test]
fn first_split_is_the_best_balanced_of_all_teams() {
    let players = mock_players();
    let weighted = weighted_allocation(&players);
    let best = *every_team_deviation(&players, 4, None).iter().min().unwrap();
    assert_eq!(weighted[0].double_distance_from_ideal, best);
    let hybrid = hybrid_draft_weighted_allocation(&players);
    let best = *every_team_deviation(&players, 4, Some(3)).iter().min().unwrap();
    assert_eq!(hybrid[0].double_distance_from_ideal, best);
}

#[test]
fn lobbies_use_as_many_eights_as_any_exact_seating() {
    for n in 0usize..80 {
        let even = n - n % 2;
        let sizes = division_into_lobbies(n);
        let eights = sizes.iter().filter(|s| **s == 8).count();
        let best = (0..=even / 8).filter(|e| (even - 8 * e) % 6 == 0).max();
        if let Some(best) = best {
            assert_eq!(eights, best, "players: {n}");
            assert_eq!(sizes.iter().sum::<usize>(), even);
        }
    }
}
