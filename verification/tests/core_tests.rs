use qc_balance::db::{decide_load, Db, LoadOutcome, NameIndex, PlayerElo, DEFAULT_SCORE};
use qc_balance::game_mode::GameMode;
use qc_balance::name_order::text_less;
use std::collections::BTreeMap;

/// Scores are held in billionths of a point.
fn units(x: f64) -> i64 {
    (x * 1e9).round() as i64
}

#[test]
fn game_mode_names_round_trip() {
    for mode in GameMode::ALL {
        assert_eq!(GameMode::from_name(mode.name()), Some(mode));
    }
}

#[test]
fn score_accessors_match_fields() {
    let mut elo = PlayerElo::new("x".to_string());
    elo.set_score(GameMode::Ctf, units(9.5));
    assert_eq!(elo.score(GameMode::Ctf), units(9.5));
    assert_eq!(elo.ctf, units(9.5));
    assert_eq!(elo.score(GameMode::Duel), DEFAULT_SCORE);
}

#[test]
fn quake_names_sorted_and_unique() {
    let mut db = Db::default();
    db.elos.insert(2, PlayerElo::new("zed".into()));
    db.elos.insert(1, PlayerElo::new("ace".into()));
    assert_eq!(db.quake_names(), vec!["ace".to_string(), "zed".to_string()]);
}

#[test]
fn score_for_looks_up_by_name() {
    let mut db = Db::default();
    let mut elo = PlayerElo::new("rapha".into());
    elo.set_score(GameMode::Ctf, units(12.0));
    db.register(1, elo);
    assert_eq!(db.score_for("rapha", GameMode::Ctf), Some(units(12.0)));
    assert_eq!(db.score_for("nobody", GameMode::Ctf), None);

    // rename keeps the index consistent: old name misses, new name hits.
    db.rename(1, "rapha2".into());
    assert_eq!(db.score_for("rapha", GameMode::Ctf), None);
    assert_eq!(db.score_for("rapha2", GameMode::Ctf), Some(units(12.0)));
}

#[test]
fn decide_load_prefers_local_then_remote_then_empty() {
    // Each source is given as the table parsed from it; a corrupt file
    // parses to nothing.
    let good = || Some(Db::default());
    let corrupt = || None::<Db>;

    assert!(matches!(decide_load(good(), corrupt()), LoadOutcome::Local(_)));
    assert!(matches!(decide_load(corrupt(), good()), LoadOutcome::Remote(_)));
    assert!(matches!(decide_load(None, good()), LoadOutcome::Remote(_)));
    assert!(matches!(decide_load(corrupt(), corrupt()), LoadOutcome::Empty));
    assert!(matches!(decide_load(None, None), LoadOutcome::Empty));
}

#[test]
fn decide_load_hands_back_the_chosen_table() {
    let mut local = Db::default();
    local.register(7, PlayerElo::new("local".into()));
    let mut remote = Db::default();
    remote.register(8, PlayerElo::new("remote".into()));
    match decide_load(Some(local), Some(remote)) {
        LoadOutcome::Local(db) => assert!(db.elos.contains_key(&7)),
        other => panic!("unexpected {:?}", other),
    }
}

#[test]
fn game_mode_labels() {
    assert_eq!(GameMode::Tdm2v2.label(), "TDM 2v2");
    assert_eq!(GameMode::SacrificeTournament.label(), "Sacrifice Tournament");
    assert_eq!(GameMode::Ctf.label(), "CTF");
    assert_eq!(GameMode::from_name("nope"), None);
    assert_eq!(GameMode::ALL.len(), 12);
    assert_eq!(GameMode::ALL[0], GameMode::SacrificeTournament);
}

#[test]
fn with_score_sets_every_mode() {
    let elo = PlayerElo::with_score("x".into(), units(7.25));
    for mode in GameMode::ALL {
        assert_eq!(elo.score(mode), units(7.25));
    }
    assert_eq!(PlayerElo::new("y".into()).score(GameMode::Ffa), units(5.0));
}

#[test]
fn register_replaces_the_old_name() {
    let mut db = Db::default();
    db.register(1, PlayerElo::new("old".into()));
    db.register(1, PlayerElo::new("new".into()));
    assert!(db.by_quake_name("old").is_none());
    assert_eq!(db.by_quake_name("new").unwrap().quake_name, "new");
    assert_eq!(db.elos.len(), 1);
}

#[test]
fn rename_of_unknown_player_changes_nothing() {
    let mut db = Db::default();
    db.register(1, PlayerElo::new("a".into()));
    assert_eq!(db.rename(2, "b".into()), None);
    assert!(db.by_quake_name("b").is_none());
    assert_eq!(db.rename(1, "b".into()), Some("a".to_string()));
    assert_eq!(db.elos[&1].quake_name, "b");
}

#[test]
fn reindex_gives_a_shared_name_to_the_highest_id() {
    let mut elos = BTreeMap::new();
    elos.insert(3, PlayerElo::with_score("twin".into(), units(1.0)));
    elos.insert(9, PlayerElo::with_score("twin".into(), units(2.0)));
    elos.insert(5, PlayerElo::with_score("solo".into(), units(3.0)));
    let db = Db::from_elos(elos);
    assert_eq!(db.score_for("twin", GameMode::Duel), Some(units(2.0)));
    assert_eq!(db.score_for("solo", GameMode::Duel), Some(units(3.0)));

    let mut unindexed = Db::default();
    unindexed.elos.insert(4, PlayerElo::new("late".into()));
    assert!(unindexed.by_quake_name("late").is_none());
    unindexed.reindex();
    assert_eq!(unindexed.by_quake_name("late").unwrap().quake_name, "late");
}

#[test]
fn quake_names_drop_duplicates_and_sort_by_code_point() {
    let mut db = Db::default();
    db.elos.insert(1, PlayerElo::new("b".into()));
    db.elos.insert(2, PlayerElo::new("abc".into()));
    db.elos.insert(3, PlayerElo::new("ab".into()));
    db.elos.insert(4, PlayerElo::new("b".into()));
    db.elos.insert(5, PlayerElo::new("B".into()));
    assert_eq!(db.quake_names(), vec!["B", "ab", "abc", "b"]);
    assert!(Db::default().quake_names().is_empty());
}

#[test]
fn text_order_matches_string_order() {
    let words = ["", "a", "ab", "abc", "b", "B", "é", "z"];
    for x in words {
        for y in words {
            assert_eq!(text_less(x, y), x < y, "{x:?} < {y:?}");
        }
    }
}

#[test]
fn name_index_insert_remove_get() {
    let mut index = NameIndex::new();
    index.insert("a".into(), 1);
    index.insert("b".into(), 2);
    index.insert("a".into(), 3);
    assert_eq!(index.get("a"), Some(3));
    assert_eq!(index.get("b"), Some(2));
    index.remove("a");
    assert_eq!(index.get("a"), None);
    assert_eq!(index.get("b"), Some(2));
}
