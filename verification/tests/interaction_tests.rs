use qc_balance::balancing::SortMethod;
use qc_balance::codec::{decode_base, encode_base};
use qc_balance::components::{
    balance_button_id, balance_pick, component_kind, may_press, player_button_id, reshuffle_id,
    reshuffle_request, select_all_styles, selected_players, toggle_styles, BalancePick,
    ButtonSpec, ButtonStyle, ComponentError, ComponentKind,
};
use qc_balance::custom_id::{custom_id_type, custom_id_value, ids_from_custom_id, split_sections, tag_ids};
use qc_balance::db::{Db, PlayerElo, DEFAULT_SCORE};
use qc_balance::discord::{chunk_rows, sibling_lobby_pairs, str_to_id, team_members_by_score};
use qc_balance::game_mode::GameMode;
use qc_balance::players::{decimal_text, display_name, named_elos, unregistered_ids};
use qc_balance::pubobot::{is_start_announcement, mention_ids, queue_game_mode, started_queue, started_queue_mode};
use std::collections::{BTreeMap, BTreeSet};

#[test]
fn base_codec_round_trips() {
    for n in [0u64, 1, 84, 85, 12345, 88533822521507840, u64::MAX] {
        assert_eq!(decode_base(&encode_base(n)), Some(n), "n = {}", n);
    }
}

#[test]
fn encoded_id_is_short() {
    // 18-digit discord ids must compress well below the custom_id budget
    assert!(encode_base(88533822521507840).len() <= 10);
}

#[test]
fn tags_round_trip_through_custom_id() {
    let ignored = BTreeSet::from([111u64, 222]);
    let manual = BTreeSet::from([333u64]);
    let mut sections = vec!["reshuffle!".to_string(), "ctf".into(), "random".into()];
    sections.extend(tag_ids("o", &ignored));
    sections.extend(tag_ids("i", &manual));
    let custom_id = sections.join("/");

    assert_eq!(custom_id_type(&custom_id), "reshuffle!");
    assert_eq!(ids_from_custom_id(&custom_id, "o"), ignored);
    assert_eq!(ids_from_custom_id(&custom_id, "i"), manual);
}

#[test]
fn custom_id_helpers_split_on_slash() {
    assert_eq!(custom_id_type("toggle-primary-secondary/12345"), "toggle-primary-secondary");
    assert_eq!(custom_id_value("toggle-primary-secondary/12345"), "12345");
}

#[test]
fn queue_names_map_to_modes() {
    assert_eq!(queue_game_mode("sac"), Some(GameMode::Sacrifice));
    assert_eq!(queue_game_mode("ca4v4"), Some(GameMode::Killing));
    assert_eq!(queue_game_mode("2v2"), Some(GameMode::Tdm2v2));
    assert_eq!(queue_game_mode("duel"), None);
}

#[test]
fn player_ids_parse_from_mentions() {
    let value = "<@111> <@2222> 1 <@333>";
    let ids = mention_ids(value);
    assert_eq!(ids, BTreeSet::from([111, 2222, 333]));
}

#[test]
fn codec_edges() {
    assert_eq!(encode_base(0), "0");
    assert_eq!(encode_base(84), "_");
    assert_eq!(encode_base(85), "10");
    assert_eq!(decode_base(""), Some(0));
    assert_eq!(decode_base("~"), None);
    // one past u64::MAX overflows
    let max = encode_base(u64::MAX);
    assert_eq!(decode_base(&format!("{max}0")), None);
}

#[test]
fn custom_id_edges() {
    assert_eq!(custom_id_type(""), "");
    assert_eq!(custom_id_value(""), "");
    assert_eq!(custom_id_type("a/b/c"), "a");
    assert_eq!(custom_id_value("a/b/c"), "c");
    assert_eq!(split_sections("a//b/"), vec!["a", "", "b", ""]);
    assert_eq!(ids_from_custom_id("x/:o:1/:o:~/:i:2", "o"), BTreeSet::from([1]));
}

#[test]
fn mentions_and_ids() {
    assert_eq!(str_to_id("<@123>").unwrap(), 123);
    assert_eq!(str_to_id("456").unwrap(), 456);
    let err = str_to_id("<@abc>").unwrap_err();
    assert_eq!(err.text, "<@abc>");
    assert_eq!(err.message(), "Invalid ID: <@abc>");
    assert_eq!(str_to_id("<@!123>").unwrap_err().message(), "Invalid ID: <@!123>");
    assert_eq!(str_to_id("abc").unwrap_err().message(), "Invalid ID: abc");
    assert_eq!(str_to_id("123").unwrap(), 123);
    assert!(str_to_id("").is_err());
    assert_eq!(mention_ids("<@1> x <@22>\t<@33>"), BTreeSet::from([22, 33]));
}

#[test]
fn start_announcements_name_their_queue() {
    let title = "**SAC** has started";
    assert!(is_start_announcement(title));
    assert_eq!(started_queue(title), Some("sac".to_string()));
    assert_eq!(started_queue_mode(title), Some(GameMode::Sacrifice));
    assert_eq!(started_queue_mode("**CA4V4** has started"), Some(GameMode::Killing));
    assert_eq!(started_queue_mode("**duel** has started"), None);
    assert_eq!(started_queue_mode("**SAC** was cancelled"), None);
    assert_eq!(started_queue("SAC has started"), None);
}

#[test]
fn buttons_pack_in_rows_of_five() {
    let rows = chunk_rows((1..=12).collect::<Vec<u32>>());
    assert_eq!(rows, vec![vec![1, 2, 3, 4, 5], vec![6, 7, 8, 9, 10], vec![11, 12]]);
    assert!(chunk_rows(Vec::<u32>::new()).is_empty());
}

#[test]
fn lobby_channels_pair_up_by_position() {
    let channels = vec![
        (3, "c".to_string()),
        (0, "hub".to_string()),
        (1, "a".to_string()),
        (2, "b".to_string()),
        (4, "d".to_string()),
        (5, "e".to_string()),
    ];
    assert_eq!(
        sibling_lobby_pairs(&channels),
        vec![("a".to_string(), "b".to_string()), ("c".to_string(), "d".to_string())]
    );
}

#[test]
fn team_members_rank_by_score() {
    let team: BTreeMap<u64, i64> = BTreeMap::from([(1, 5), (2, 9), (3, 5)]);
    assert_eq!(team_members_by_score(&team), vec![2, 1, 3]);
}

#[test]
fn decimal_text_matches_to_string() {
    for n in [0u64, 7, 10, 99, 100, 1234567890, u64::MAX] {
        assert_eq!(decimal_text(n), n.to_string());
    }
}

#[test]
fn display_names_prefer_nick_then_global_then_user() {
    assert_eq!(
        display_name(Some("NiCk".into()), Some("Global".into()), Some("user".into())),
        Some("nick".to_string())
    );
    assert_eq!(display_name(None, Some("GLOBAL".into()), Some("user".into())), Some("global".to_string()));
    assert_eq!(display_name(None, None, Some("UsEr".into())), Some("user".to_string()));
    assert_eq!(display_name(None, None, None), None);
}

fn sample_db() -> Db {
    let mut db = Db::default();
    let mut a = PlayerElo::with_score("alpha".into(), 7_000_000_000);
    a.set_score(GameMode::Ctf, 9_000_000_000);
    db.register(10, a);
    db.register(20, PlayerElo::with_score("beta".into(), 3_000_000_000));
    db
}

#[test]
fn named_elos_resolve_registered_and_unknown_players() {
    let db = sample_db();
    let ids = BTreeSet::from([30, 10, 40]);
    assert_eq!(unregistered_ids(&db, &ids), vec![30, 40]);
    let names = BTreeMap::from([(30, "visitor".to_string())]);
    let (players, missing) = named_elos(&db, GameMode::Ctf, &ids, &names);
    let views: Vec<(u64, String, i64)> =
        players.iter().map(|p| (p.id, p.name.clone(), p.score)).collect();
    assert_eq!(
        views,
        vec![
            (10, "alpha".to_string(), 9_000_000_000),
            (30, "visitor".to_string(), DEFAULT_SCORE),
            (40, "40".to_string(), DEFAULT_SCORE),
        ]
    );
    assert_eq!(missing, vec!["visitor".to_string(), "40".to_string()]);
}

fn button(style: ButtonStyle, id: &str, label: &str) -> ButtonSpec {
    ButtonSpec { style, custom_id: Some(id.to_string()), label: Some(label.to_string()) }
}

#[test]
fn component_kinds_follow_the_first_section() {
    assert_eq!(component_kind("toggle-primary-secondary/1"), ComponentKind::Toggle);
    assert_eq!(component_kind("select-all-primary-secondary"), ComponentKind::SelectAll);
    assert_eq!(component_kind("balance!/ctf"), ComponentKind::Balance);
    assert_eq!(component_kind("reshuffle!/ctf/random"), ComponentKind::Reshuffle);
    assert_eq!(component_kind("other/1"), ComponentKind::Unknown);
}

#[test]
fn player_buttons_read_back_their_player() {
    let id = player_button_id(88533822521507840);
    assert_eq!(id, "toggle-primary-secondary/88533822521507840");
    assert_eq!(component_kind(&id), ComponentKind::Toggle);
    let picked = selected_players(&vec![button(ButtonStyle::Primary, &id, "owner")]);
    assert_eq!(picked, vec![(88533822521507840, "owner".to_string())]);
    assert_eq!(balance_button_id(GameMode::Tdm2v2), "balance!/tdm-2v2");
}

#[test]
fn toggling_and_selecting_buttons() {
    let buttons = vec![
        button(ButtonStyle::Secondary, "toggle-primary-secondary/1", "a"),
        button(ButtonStyle::Primary, "toggle-primary-secondary/2", "b"),
        button(ButtonStyle::Danger, "select-all-primary-secondary", "Select All"),
        button(ButtonStyle::Success, "balance!/ctf", "Balance!"),
    ];
    assert_eq!(
        toggle_styles(&buttons, "toggle-primary-secondary/1"),
        vec![ButtonStyle::Primary, ButtonStyle::Primary, ButtonStyle::Danger, ButtonStyle::Success]
    );
    assert_eq!(
        toggle_styles(&buttons, "toggle-primary-secondary/2"),
        vec![ButtonStyle::Secondary, ButtonStyle::Secondary, ButtonStyle::Danger, ButtonStyle::Success]
    );
    assert_eq!(
        select_all_styles(&buttons),
        vec![ButtonStyle::Primary, ButtonStyle::Primary, ButtonStyle::Danger, ButtonStyle::Success]
    );
}

#[test]
fn balance_presses() {
    let db = sample_db();
    let mut buttons: Vec<ButtonSpec> = (1..=3)
        .map(|i| button(ButtonStyle::Primary, &format!("toggle-primary-secondary/{i}"), &format!("p{i}")))
        .collect();
    buttons.push(button(ButtonStyle::Secondary, "toggle-primary-secondary/20", "beta"));
    buttons.push(button(ButtonStyle::Primary, "toggle-primary-secondary/x", "bad"));
    assert_eq!(balance_pick(&db, &buttons, "balance!").unwrap_err(), ComponentError::BalanceWithoutGameMode);
    assert_eq!(
        balance_pick(&db, &buttons, "balance!/nope").unwrap_err(),
        ComponentError::UnknownGameMode("nope".to_string())
    );
    assert!(matches!(balance_pick(&db, &buttons, "balance!/ctf"), Ok(BalancePick::NotEnoughPlayers)));
    buttons.push(button(ButtonStyle::Primary, "toggle-primary-secondary/10", "alpha-label"));
    match balance_pick(&db, &buttons, "balance!/ctf") {
        Ok(BalancePick::Players { game_mode, players }) => {
            assert_eq!(game_mode, GameMode::Ctf);
            let views: Vec<(u64, String, i64)> =
                players.iter().map(|p| (p.id, p.name.clone(), p.score)).collect();
            assert_eq!(
                views,
                vec![
                    (1, "p1".to_string(), DEFAULT_SCORE),
                    (2, "p2".to_string(), DEFAULT_SCORE),
                    (3, "p3".to_string(), DEFAULT_SCORE),
                    (10, "alpha".to_string(), 9_000_000_000),
                ]
            );
        }
        other => panic!("unexpected {:?}", other),
    }
}

#[test]
fn reshuffle_ids_round_trip() {
    let ignored = BTreeSet::from([111u64, 222]);
    let manual = BTreeSet::from([333u64]);
    let id = reshuffle_id(GameMode::Ctf, SortMethod::Score, &ignored, &manual);
    assert!(id.starts_with("reshuffle!/ctf/score/:o:"));
    let request = reshuffle_request(&id).unwrap();
    assert_eq!(request.game_mode, GameMode::Ctf);
    assert_eq!(request.sort_method, SortMethod::Score);
    assert_eq!(request.ignored_players, ignored);
    assert_eq!(request.manual_entries, manual);
}

#[test]
fn long_reshuffle_ids_drop_the_tags() {
    let ignored: BTreeSet<u64> = (0..20u64).map(|i| 88533822521507840 + i).collect();
    let id = reshuffle_id(GameMode::Tdm, SortMethod::Random, &ignored, &BTreeSet::new());
    assert_eq!(id, "reshuffle!/tdm/random");
    let request = reshuffle_request(&id).unwrap();
    assert!(request.ignored_players.is_empty());
}

#[test]
fn reshuffle_errors() {
    assert_eq!(reshuffle_request("reshuffle!").unwrap_err(), ComponentError::ReshuffleWithoutGameMode);
    assert_eq!(reshuffle_request("reshuffle!/nope/random").unwrap_err(), ComponentError::ReshuffleWithoutGameMode);
    assert_eq!(reshuffle_request("reshuffle!/ctf").unwrap_err(), ComponentError::ReshuffleWithoutSortMethod);
    assert_eq!(reshuffle_request("reshuffle!/ctf/elo").unwrap_err(), ComponentError::ReshuffleWithoutSortMethod);
}

#[test]
fn only_the_author_may_press() {
    assert!(may_press(Some(1), Some(1)));
    assert!(!may_press(Some(1), Some(2)));
    assert!(!may_press(None, Some(2)));
    assert!(may_press(None, None));
}

#[test]
fn toggling_twice_restores_the_buttons() {
    let buttons = vec![
        button(ButtonStyle::Secondary, "toggle-primary-secondary/1", "a"),
        button(ButtonStyle::Primary, "toggle-primary-secondary/2", "b"),
    ];
    let once = toggle_styles(&buttons, "toggle-primary-secondary/2");
    let pressed: Vec<ButtonSpec> = buttons
        .iter()
        .zip(once)
        .map(|(b, style)| ButtonSpec { style, custom_id: b.custom_id.clone(), label: b.label.clone() })
        .collect();
    let twice = toggle_styles(&pressed, "toggle-primary-secondary/2");
    assert_eq!(twice, buttons.iter().map(|b| b.style).collect::<Vec<_>>());
}

#[test]
fn backups_decode_from_base64_lines() {
    assert_eq!(qc_balance::backup::backup_bytes("aGVs\nbG8=\n"), Some(b"hello".to_vec()));
    assert_eq!(qc_balance::backup::backup_bytes(""), Some(Vec::new()));
    assert_eq!(qc_balance::backup::backup_bytes("aGVsbG8"), None);
    assert_eq!(qc_balance::backup::backup_bytes("not base64!"), None);
}

#[test]
fn reshuffle_ids_always_fit_in_a_button() {
    let many: BTreeSet<u64> = (0..30u64).map(|i| u64::MAX - i).collect();
    let id = reshuffle_id(GameMode::SacrificeTournament, SortMethod::Random, &many, &many);
    assert_eq!(id, "reshuffle!/sacrifice-tournament/random");
    assert!(id.len() < 100);
    let few: BTreeSet<u64> = BTreeSet::from([5]);
    let id = reshuffle_id(GameMode::SacrificeTournament, SortMethod::Score, &few, &BTreeSet::new());
    assert!(id.len() < 100);
    assert!(id.starts_with("reshuffle!/sacrifice-tournament/score/"));
}
