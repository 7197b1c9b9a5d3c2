use qc_balance::balancing::SortMethod;
use qc_balance::commands::{
    authorization, commands, mode_or_default, tag_ids, AdjustCommand, Authorization,
    BalanceCommand, BotCommand, DivideCommand, GameModeOption, Permission, QueryCommand,
    SortMethodOption, OWNER_ID,
};
use qc_balance::components::{balance_buttons, ButtonStyle};
use qc_balance::config::{mutation_log_line, GithubConfig};
use qc_balance::db::{Db, PlayerElo, DEFAULT_SCORE};
use qc_balance::game_mode::GameMode;
use qc_balance::invocation::{render_invocation, CommandOption, OptionValue};
use qc_balance::lobbies::{active_players, balance_options, enough_to_divide, order_players, plan_lobbies, players_by_ids};
use qc_balance::players::NamedElo;
use qc_balance::replies::{balance_reply, divide_reply, join_with};
use std::collections::{BTreeSet, HashSet};

/// Scores are held in billionths of a point.
fn units(x: f64) -> i64 {
    (x * 1e9).round() as i64
}

/// Guards the registry: every command's wire name must be non-empty and unique.
#[test]
fn command_names_unique_and_nonempty() {
    let mut seen = HashSet::new();
    for spec in commands() {
        assert!(!spec.name.is_empty(), "command has an empty name");
        assert!(seen.insert(spec.name), "duplicate command name: {}", spec.name);
    }
}

#[test]
fn command_registry_matches_the_commands() {
    let specs = commands();
    assert_eq!(specs.len(), 10);
    assert_eq!(specs[0].name, BalanceCommand::name());
    assert_eq!(specs[3].name, "query");
    assert_eq!(specs[3].permission, Permission::Admin);
    assert!(specs[3].is_ephemeral);
    assert!(!specs[3].is_mutating);
    assert_eq!(specs[9].name, "restore-db-backup");
    assert_eq!(specs[9].permission, Permission::Owner);
    assert_eq!(QueryCommand::permission(), Permission::Admin);
    assert!(!DivideCommand::is_mutating());
}

#[test]
fn authorization_by_tier() {
    assert_eq!(authorization(Permission::App, 1), Authorization::Granted);
    assert_eq!(authorization(Permission::Admin, OWNER_ID), Authorization::Granted);
    assert_eq!(authorization(Permission::Admin, 1), Authorization::NeedsAdminRole);
    assert_eq!(authorization(Permission::Owner, OWNER_ID), Authorization::Granted);
    assert_eq!(authorization(Permission::Owner, 1), Authorization::Denied);
}

#[test]
fn options_convert_to_modes_and_methods() {
    assert_eq!(GameMode::from(GameModeOption::Tdm2v2), GameMode::Tdm2v2);
    assert_eq!(mode_or_default(None), GameMode::SacrificeTournament);
    assert_eq!(mode_or_default(Some(GameModeOption::Ctf)), GameMode::Ctf);
    assert_eq!(SortMethod::from(SortMethodOption::Score), SortMethod::Score);
}

#[test]
fn mentions_name_their_user() {
    for id in [0u64, 9, 88533822521507840, u64::MAX] {
        let mention = Some(format!("<@{id}>"));
        let bare = Some(id.to_string());
        let none = None;
        assert_eq!(
            tag_ids([&mention, &bare, &none, &none, &none, &none, &none, &none]),
            BTreeSet::from([id])
        );
    }
}

#[test]
fn tags_skip_what_is_not_a_mention() {
    let a = Some("<@12>".to_string());
    let b = Some("nobody".to_string());
    let c = None;
    let d = Some("34".to_string());
    assert_eq!(tag_ids([&a, &b, &c, &d, &c, &c, &c, &a]), BTreeSet::from([12, 34]));
}

fn db_with_rapha() -> Db {
    let mut db = Db::default();
    let mut elo = PlayerElo::new("rapha".into());
    elo.set_score(GameMode::Ctf, units(12.0));
    db.register(42, elo);
    db
}

#[test]
fn query_finds_by_mention_id_or_name() {
    let db = db_with_rapha();
    for quaker in ["<@42>", "42", "rapha", "@rapha"] {
        let found = QueryCommand { quaker: quaker.to_string() }.find(&db);
        assert_eq!(found.map(|e| e.quake_name.clone()), Some("rapha".to_string()), "{quaker}");
    }
    assert!(QueryCommand { quaker: "<@43>".into() }.find(&db).is_none());
    assert!(QueryCommand { quaker: "raph".into() }.find(&db).is_none());
}

#[test]
fn adjust_sets_one_mode() {
    let mut db = db_with_rapha();
    let command = AdjustCommand { discord_id: 42, score: units(1.5), game_mode: None };
    assert_eq!(command.apply(&mut db), Some(DEFAULT_SCORE));
    assert_eq!(db.elos[&42].score(GameMode::SacrificeTournament), units(1.5));
    assert_eq!(db.elos[&42].score(GameMode::Ctf), units(12.0));
    let ctf = AdjustCommand { discord_id: 42, score: units(2.0), game_mode: Some(GameModeOption::Ctf) };
    assert_eq!(ctf.apply(&mut db), Some(units(12.0)));
    let missing = AdjustCommand { discord_id: 7, score: 0, game_mode: None };
    assert_eq!(missing.apply(&mut db), None);
    assert_eq!(db.elos.len(), 1);
}

#[test]
fn balance_and_divide_gather_their_players() {
    let balance = BalanceCommand {
        game_mode: None,
        player_tag1: Some("<@5>".into()),
        player_tag2: None,
        player_tag3: Some("junk".into()),
        player_tag4: None,
        player_tag5: None,
        player_tag6: None,
        player_tag7: None,
        player_tag8: Some("<@6>".into()),
    };
    assert_eq!(balance.found_players(&vec![6, 7]), BTreeSet::from([5, 6, 7]));

    let divide = DivideCommand {
        game_mode: Some(GameModeOption::Ctf),
        sort_by: None,
        spectator_tag1: Some("<@9>".into()),
        spectator_tag2: None,
        spectator_tag3: None,
        spectator_tag4: None,
        player_tag1: None,
        player_tag2: Some("<@8>".into()),
        player_tag3: None,
        player_tag4: None,
    };
    assert_eq!(divide.sort_method(), SortMethod::Random);
    let ignored = divide.ignored_players();
    let manual = divide.manual_entries();
    assert_eq!(ignored, BTreeSet::from([9]));
    assert_eq!(manual, BTreeSet::from([8]));
    assert_eq!(active_players(&manual, &vec![1, 9, 2], &ignored), BTreeSet::from([1, 2, 8]));
    assert!(!enough_to_divide(11));
    assert!(enough_to_divide(12));
}

fn player(id: u64, score: f64) -> NamedElo {
    NamedElo { id, name: format!("p{id}"), score: units(score) }
}

#[test]
fn players_are_ordered_by_score_keeping_ties() {
    let players = vec![player(1, 3.0), player(2, 1.0), player(3, 3.0), player(4, 2.0)];
    let ordered = order_players(&players, SortMethod::Score);
    assert_eq!(ordered.iter().map(|p| p.id).collect::<Vec<_>>(), vec![2, 4, 1, 3]);
    let shuffled = order_players(&players, SortMethod::Random);
    let mut ids: Vec<u64> = shuffled.iter().map(|p| p.id).collect();
    ids.sort();
    assert_eq!(ids, vec![1, 2, 3, 4]);
}

#[test]
fn hubs_divide_into_named_lobbies() {
    let players: Vec<NamedElo> = (1..=15).map(|i| player(i, i as f64)).collect();
    let names = vec![("Red".to_string(), "Blue".to_string())];
    let plan = plan_lobbies(&players, &names);
    assert_eq!(plan.lobbies.len(), 2);
    let first = &plan.lobbies[0];
    assert_eq!(first.index, 0);
    assert_eq!((first.team1_name.as_str(), first.team2_name.as_str()), ("Red", "Blue"));
    assert_eq!(first.team1.len() + first.team2.len(), 8);
    // the two highest of the lobby are captains on opposite teams
    assert!(first.team1.contains(&"p8".to_string()));
    assert!(first.team2.contains(&"p7".to_string()));
    let second = &plan.lobbies[1];
    assert_eq!(second.team1_name, "Lobby 2 Team 1");
    assert_eq!(second.team2_name, "Lobby 2 Team 2");
    assert_eq!(second.team1.len() + second.team2.len(), 6);
    assert_eq!(plan.leftover, vec!["p15".to_string()]);
}

#[test]
fn balance_offers_three_options() {
    let players: Vec<NamedElo> = (1..=8).map(|i| player(i, i as f64)).collect();
    let options = balance_options(&players);
    assert_eq!(options.len(), 3);
    for option in &options {
        assert_eq!(option.team1.len(), 4);
        assert_eq!(option.team1[0], "p8");
        assert_eq!(option.team1_elo_sum + option.team2_elo_sum, units(36.0) as i128);
    }
    // a perfect split exists for 1..=8 (18 each side)
    assert_eq!(options[0].team1_elo_sum, units(18.0) as i128);
    assert!(balance_options(&vec![player(1, 1.0)]).is_empty());
}

#[test]
fn backup_url_and_log_lines() {
    let config = GithubConfig {
        token: None,
        owner: "o".into(),
        repo: "r".into(),
        branch: "main".into(),
        path: "db.json".into(),
    };
    assert_eq!(config.raw_url(), "https://raw.githubusercontent.com/o/r/main/db.json");
    assert_eq!(mutation_log_line("/rename quake_name:x", 5, Some("a -> x")), "`/rename quake_name:x` run by <@5> (a -> x)");
    assert_eq!(mutation_log_line("/db-stats", 5, None), "`/db-stats` run by <@5>");
}

#[test]
fn invocations_render_as_typed() {
    let options = vec![
        CommandOption::Value { name: "discord_id".into(), value: OptionValue::User(123) },
        CommandOption::Value { name: "quake_name".into(), value: OptionValue::Text("foo".into()) },
        CommandOption::Value { name: "score".into(), value: OptionValue::Number(5.0f64.to_string()) },
    ];
    assert_eq!(render_invocation("register", &options), "/register discord_id:<@123> quake_name:foo score:5");

    let nested = vec![CommandOption::Group {
        name: "admin".into(),
        options: vec![
            CommandOption::Value { name: "n".into(), value: OptionValue::Integer(-42) },
            CommandOption::Value { name: "min".into(), value: OptionValue::Integer(i64::MIN) },
            CommandOption::Value { name: "on".into(), value: OptionValue::Boolean(true) },
            CommandOption::Value { name: "c".into(), value: OptionValue::Channel(7) },
            CommandOption::Value { name: "r".into(), value: OptionValue::Role(8) },
            CommandOption::Value { name: "a".into(), value: OptionValue::Attachment(9) },
        ],
    }];
    assert_eq!(
        render_invocation("tool", &nested),
        format!("/tool admin n:-42 min:{} on:true c:<#7> r:<@&8> a:9", i64::MIN)
    );
    assert_eq!(render_invocation("db-stats", &Vec::new()), "/db-stats");
}

#[test]
fn players_are_picked_in_the_order_of_ids() {
    let players = vec![player(1, 3.0), player(2, 1.0), player(1, 5.0), player(3, 2.0)];
    let picked = players_by_ids(&players, &vec![3, 1, 9, 2]);
    assert_eq!(picked.iter().map(|p| p.id).collect::<Vec<_>>(), vec![3, 1, 2]);
    assert_eq!(picked[1].score, units(5.0));
    assert!(players_by_ids(&players, &vec![]).is_empty());
}

#[test]
fn balance_reply_names_the_mode_and_the_unregistered() {
    assert_eq!(balance_reply(&vec![], GameMode::Ctf), "Balancing for ctf");
    assert_eq!(
        balance_reply(&vec!["Ann".to_string(), "Bob".to_string()], GameMode::SacrificeTournament),
        "Unregistered Users: Ann, Bob\nBalancing for sacrifice-tournament"
    );
    assert_eq!(join_with(&vec!["a".to_string()], ", "), "a");
    assert_eq!(join_with(&vec![], ", "), "");
}

#[test]
fn divide_reply_counts_players_and_warns_when_too_few() {
    assert_eq!(
        divide_reply(&vec![], GameMode::Tdm, SortMethod::Score, 11),
        "Balancing for tdm\nSorted by score\nFound 11 players\nNot Enough players to divide into teams"
    );
    assert_eq!(
        divide_reply(&vec!["Zed".to_string()], GameMode::Tdm, SortMethod::Random, 12),
        "Unregistered Users: Zed\nBalancing for tdm\nSorted by random\nFound 12 players"
    );
}

#[test]
fn balance_buttons_list_players_then_the_triggers() {
    let players = vec![player(7, 1.0), player(3, 2.0)];
    let buttons = balance_buttons(&players, GameMode::Ctf);
    let shown: Vec<(ButtonStyle, Option<String>, Option<String>)> =
        buttons.into_iter().map(|b| (b.style, b.custom_id, b.label)).collect();
    assert_eq!(
        shown,
        vec![
            (ButtonStyle::Secondary, Some("toggle-primary-secondary/7".to_string()), Some("p7".to_string())),
            (ButtonStyle::Secondary, Some("toggle-primary-secondary/3".to_string()), Some("p3".to_string())),
            (ButtonStyle::Danger, Some("select-all-primary-secondary".to_string()), Some("Select All".to_string())),
            (ButtonStyle::Success, Some("balance!/ctf".to_string()), Some("Balance!".to_string())),
        ]
    );
}
