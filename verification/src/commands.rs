//! The slash commands: their options, who may run them, and what their
//! handlers decide.

use vstd::prelude::*;
use std::collections::BTreeSet;
use crate::game_mode::{GameMode, mode_named};
use vstd::string::*;
use crate::balancing::SortMethod;
use crate::db::{Db, PlayerElo};
use crate::discord::{mention_id, str_to_id};
use crate::text::{chars_of, trim_char, trim_char_bounds, parse_u64, parse_u64_range};

verus! {

/// The bot owner, who passes every permission check.
pub const OWNER_ID: u64 = 88533822521507840;

/// Who may run a command.
#[derive(Debug, Clone, Copy, PartialEq, Eq, Structural)]
pub enum Permission {
    /// Anyone.
    App,
    /// Holders of the admin role in the home server, and the owner.
    Admin,
    /// The owner alone.
    Owner,
}

/// What a user's id alone says of whether they may run a command.
#[derive(Debug, Clone, Copy, PartialEq, Eq, Structural)]
pub enum Authorization {
    Granted,
    Denied,
    /// Granted exactly when the user holds the admin role in the home server.
    NeedsAdminRole,
}

/// Decides a permission check as far as the user's id decides it: the owner
/// passes every check, anyone passes `App`, and `Admin` otherwise turns on
/// the admin role.
pub fn authorization(permission: Permission, user_id: u64) -> (r: Authorization)
    ensures
        r == match permission {
            Permission::App => Authorization::Granted,
            Permission::Admin => if user_id == OWNER_ID {
                Authorization::Granted
            } else {
                Authorization::NeedsAdminRole
            },
            Permission::Owner => if user_id == OWNER_ID {
                Authorization::Granted
            } else {
                Authorization::Denied
            },
        },
{
    match permission {
        Permission::App => Authorization::Granted,
        Permission::Admin => if user_id == OWNER_ID {
            Authorization::Granted
        } else {
            Authorization::NeedsAdminRole
        },
        Permission::Owner => if user_id == OWNER_ID {
            Authorization::Granted
        } else {
            Authorization::Denied
        },
    }
}

/// The game modes offered as command choices.
#[derive(Debug, Clone, Copy, PartialEq, Eq, Structural)]
pub enum GameModeOption {
    Sacrifice,
    Objective,
    Killing,
    SacrificeTournament,
    Slipgate,
    Ctf,
    Tdm,
    Tdm2v2,
}

impl GameModeOption {
    /// The value the choice carries on the wire, as offered to Discord.
    pub open spec fn spec_value(self) -> Seq<char> {
        match self {
            GameModeOption::Sacrifice => "sacrifice"@,
            GameModeOption::Objective => "objective"@,
            GameModeOption::Killing => "killing"@,
            GameModeOption::SacrificeTournament => "sacrifice-tournament"@,
            GameModeOption::Slipgate => "slipgate"@,
            GameModeOption::Ctf => "ctf"@,
            GameModeOption::Tdm => "tdm"@,
            GameModeOption::Tdm2v2 => "tdm-2v2"@,
        }
    }

    /// The mode a choice stands for.
    pub open spec fn spec_mode(self) -> GameMode {
        match self {
            GameModeOption::Sacrifice => GameMode::Sacrifice,
            GameModeOption::Objective => GameMode::Objective,
            GameModeOption::Killing => GameMode::Killing,
            GameModeOption::SacrificeTournament => GameMode::SacrificeTournament,
            GameModeOption::Slipgate => GameMode::Slipgate,
            GameModeOption::Ctf => GameMode::Ctf,
            GameModeOption::Tdm => GameMode::Tdm,
            GameModeOption::Tdm2v2 => GameMode::Tdm2v2,
        }
    }
}

impl From<GameModeOption> for GameMode {
    fn from(option: GameModeOption) -> (r: GameMode)
        ensures
            r.spec_name() == option.spec_value(),
            mode_named(option.spec_value()) == Some(r),
    {
        proof {
            lemma_option_names_mode(option);
        }
        match option {
            GameModeOption::Sacrifice => GameMode::Sacrifice,
            GameModeOption::Objective => GameMode::Objective,
            GameModeOption::Killing => GameMode::Killing,
            GameModeOption::SacrificeTournament => GameMode::SacrificeTournament,
            GameModeOption::Slipgate => GameMode::Slipgate,
            GameModeOption::Ctf => GameMode::Ctf,
            GameModeOption::Tdm => GameMode::Tdm,
            GameModeOption::Tdm2v2 => GameMode::Tdm2v2,
        }
    }
}

impl vstd::std_specs::convert::FromSpecImpl<GameModeOption> for GameMode {
    open spec fn obeys_from_spec() -> bool {
        true
    }

    open spec fn from_spec(v: GameModeOption) -> GameMode {
        v.spec_mode()
    }
}

/// A choice stands for the game mode whose wire name is the choice's value.
pub proof fn lemma_option_names_mode(o: GameModeOption)
    ensures
        o.spec_mode().spec_name() == o.spec_value(),
        mode_named(o.spec_value()) == Some(o.spec_mode()),
{
    crate::game_mode::lemma_name_round_trip(o.spec_mode());
}

/// Different choices stand for different game modes.
pub proof fn lemma_option_modes_distinct(a: GameModeOption, b: GameModeOption)
    ensures
        a.spec_mode() == b.spec_mode() ==> a == b,
{
    lemma_option_names_mode(a);
    lemma_option_names_mode(b);
    reveal_strlit("sacrifice");
    reveal_strlit("objective");
    reveal_strlit("killing");
    reveal_strlit("sacrifice-tournament");
    reveal_strlit("slipgate");
    reveal_strlit("ctf");
    reveal_strlit("tdm");
    reveal_strlit("tdm-2v2");
    if a.spec_mode() == b.spec_mode() && a != b {
        assert(a.spec_value() == b.spec_value());
        assert(a.spec_value().len() == b.spec_value().len());
    }
}

/// The mode chosen, sacrifice tournament where none was.
pub open spec fn chosen_mode(option: Option<GameModeOption>) -> GameMode {
    match option {
        Some(o) => o.spec_mode(),
        None => GameMode::SacrificeTournament,
    }
}

/// The mode chosen, sacrifice tournament where none was.
pub fn mode_or_default(option: Option<GameModeOption>) -> (r: GameMode)
    ensures
        r == chosen_mode(option),
{
    match option {
        Some(o) => GameMode::from(o),
        None => GameMode::SacrificeTournament,
    }
}

/// The orders offered for `/divide`.
#[derive(Debug, Clone, Copy, PartialEq, Eq, Structural)]
pub enum SortMethodOption {
    Random,
    Score,
}

impl SortMethodOption {
    /// The sort method a choice stands for.
    pub open spec fn spec_method(self) -> SortMethod {
        match self {
            SortMethodOption::Random => SortMethod::Random,
            SortMethodOption::Score => SortMethod::Score,
        }
    }
}

impl From<SortMethodOption> for SortMethod {
    fn from(option: SortMethodOption) -> (r: SortMethod) {
        match option {
            SortMethodOption::Random => SortMethod::Random,
            SortMethodOption::Score => SortMethod::Score,
        }
    }
}

impl vstd::std_specs::convert::FromSpecImpl<SortMethodOption> for SortMethod {
    open spec fn obeys_from_spec() -> bool {
        true
    }

    open spec fn from_spec(v: SortMethodOption) -> SortMethod {
        v.spec_method()
    }
}

/// The tag is present and is a mention of the user `id`.
pub open spec fn tag_names(tag: Option<String>, id: u64) -> bool {
    match tag {
        Some(t) => mention_id(t@) == Some(id),
        None => false,
    }
}

/// The ids that the given tags mention; tags that are absent or are not
/// user mentions are skipped.
pub open spec fn mentioned(tags: Seq<Option<String>>) -> Set<u64> {
    Set::new(
        |id: u64|
            exists|i: int|
                0 <= i < tags.len() && #[trigger] tags[i] is Some && mention_id(tags[i]->0@) == Some(
                    id,
                ),
    )
}

/// The ids that the given tags mention; tags that are absent or are not
/// user mentions are skipped.
pub fn tag_ids(tags: [&Option<String>; 8]) -> (r: BTreeSet<u64>)
    ensures
        r@ == mentioned(tags@.map_values(|t: &Option<String>| *t)),
{
    let ghost all = tags@.map_values(|t: &Option<String>| *t);
    let mut r: BTreeSet<u64> = BTreeSet::new();
    let mut i: usize = 0;
    while i < 8
        invariant
            i <= 8,
            all == tags@.map_values(|t: &Option<String>| *t),
            all.len() == 8,
            r@ == mentioned(all.take(i as int)),
        decreases 8 - i,
    {
        let tag: &Option<String> = tags[i];
        let ghost before = r@;
        match tag {
            Some(text) => match str_to_id(text.as_str()) {
                Ok(id) => {
                    r.insert(id);
                },
                Err(_) => {},
            },
            None => {},
        }
        proof {
            let prefix = all.take(i as int);
            let next = all.take(i + 1);
            assert(next[i as int] == *tag);
            assert forall|id: u64| #[trigger] r@.contains(id) <==> mentioned(next).contains(id) by {
                if mentioned(prefix).contains(id) {
                    let k = choose|k: int|
                        0 <= k < prefix.len() && #[trigger] prefix[k] is Some && mention_id(
                            prefix[k]->0@,
                        ) == Some(id);
                    assert(next[k] == prefix[k]);
                }
                if mentioned(next).contains(id) {
                    let k = choose|k: int|
                        0 <= k < next.len() && #[trigger] next[k] is Some && mention_id(
                            next[k]->0@,
                        ) == Some(id);
                    if k < i {
                        assert(prefix[k] == next[k]);
                    }
                }
            }
            assert(r@ =~= mentioned(next));
        }
        i += 1;
    }
    proof {
        assert(all.take(8) =~= all);
    }
    r
}

/// A user mention `<@id>` names that user, as does the bare id.
pub proof fn lemma_mention_names_user(id: u64)
    ensures
        mention_id("<@"@ + crate::players::decimal(id as nat) + ">"@) == Some(id),
        mention_id(crate::players::decimal(id as nat)) == Some(id),
{
    let d = crate::players::decimal(id as nat);
    crate::players::lemma_decimal_digits(id as nat);
    crate::players::lemma_decimal_parses(id);
    reveal_strlit("<@");
    reveal_strlit(">");
    assert(crate::text::is_ascii_digit(d[0]));
    assert(crate::text::is_ascii_digit(d.last())) by {
        assert(d.last() == d[d.len() - 1]);
    }
    let full = "<@"@ + d + ">"@;
    let no_open = seq!['@'] + d + seq!['>'];
    assert(full.drop_first() =~= no_open);
    assert(trim_char(no_open, '<') == no_open) by {
        assert(no_open[0] == '@');
        assert(no_open.last() == '>');
    }
    assert(trim_char(full, '<') == no_open);
    let no_close = seq!['@'] + d;
    assert(no_open.drop_last() =~= no_close);
    assert(trim_char(no_close, '>') == no_close) by {
        assert(no_close[0] == '@');
        assert(no_close.last() == d.last());
    }
    assert(trim_char(no_open, '>') == no_close);
    assert(no_close.drop_first() =~= d);
    assert(trim_char(d, '@') == d);
    assert(trim_char(no_close, '@') == d);
    assert(trim_char(d, '<') == d);
    assert(trim_char(d, '>') == d);
}

/// The text of a mention with `<`, `>` and `@` trimmed from both ends.
pub open spec fn mention_text(s: Seq<char>) -> Seq<char> {
    trim_char(trim_char(trim_char(s, '<'), '>'), '@')
}

/// The player a `/query` argument names: a mention or a discord id is
/// looked up by id, anything else by quake name.
pub open spec fn query_target(db: Db, quaker: Seq<char>) -> Option<PlayerElo> {
    match parse_u64(mention_text(quaker)) {
        Some(id) => if db.elos@.contains_key(id) {
            Some(db.elos@[id])
        } else {
            None
        },
        None => db.spec_by_quake_name(mention_text(quaker)),
    }
}

/// What every slash command declares about itself.
pub trait BotCommand {
    /// The command's wire name.
    fn name() -> &'static str;

    /// Who may run it.
    fn permission() -> Permission;

    /// Whether only the invoking user sees the reply.
    fn is_ephemeral() -> bool;

    /// Whether it changes the table of players.
    fn is_mutating() -> bool;
}

/// `/query`: a player's scores.
pub struct QueryCommand {
    /// A discord mention or id, or a quake name.
    pub quaker: String,
}

impl QueryCommand {
    /// The player the argument names, if registered.
    pub fn find<'a>(&self, db: &'a Db) -> (r: Option<&'a PlayerElo>)
        ensures
            match r {
                Some(e) => query_target(*db, self.quaker@) == Some(*e),
                None => query_target(*db, self.quaker@) is None,
            },
    {
        let text = self.quaker.as_str();
        let v = chars_of(text);
        let (a, b) = trim_char_bounds(&v, 0, v.len(), '<');
        let (c, d) = trim_char_bounds(&v, a, b, '>');
        let (e, f) = trim_char_bounds(&v, c, d, '@');
        proof {
            assert(v@.subrange(0, v@.len() as int) =~= self.quaker@);
        }
        match parse_u64_range(&v, e, f) {
            Some(id) => db.elos.get(&id),
            None => {
                let name = text.substring_char(e, f);
                db.by_quake_name(name)
            },
        }
    }
}

impl BotCommand for QueryCommand {
    fn name() -> (r: &'static str)
        ensures
            r@ == "query"@,
    {
        "query"
    }

    fn permission() -> (r: Permission)
        ensures
            r == Permission::Admin,
    {
        Permission::Admin
    }

    fn is_ephemeral() -> (r: bool)
        ensures
            r == true,
    {
        true
    }

    fn is_mutating() -> (r: bool)
        ensures
            r == false,
    {
        false
    }
}

/// `/rename`: the caller renames themself.
pub struct RenameCommand {
    pub quake_name: String,
}

impl BotCommand for RenameCommand {
    fn name() -> (r: &'static str)
        ensures
            r@ == "rename"@,
    {
        "rename"
    }

    fn permission() -> (r: Permission)
        ensures
            r == Permission::App,
    {
        Permission::App
    }

    fn is_ephemeral() -> (r: bool)
        ensures
            r == true,
    {
        true
    }

    fn is_mutating() -> (r: bool)
        ensures
            r == true,
    {
        true
    }
}

/// `/rename-other`: an admin renames a player.
pub struct RenameOtherCommand {
    pub discord_id: u64,
    pub quake_name: String,
}

impl BotCommand for RenameOtherCommand {
    fn name() -> (r: &'static str)
        ensures
            r@ == "rename-other"@,
    {
        "rename-other"
    }

    fn permission() -> (r: Permission)
        ensures
            r == Permission::Admin,
    {
        Permission::Admin
    }

    fn is_ephemeral() -> (r: bool)
        ensures
            r == true,
    {
        true
    }

    fn is_mutating() -> (r: bool)
        ensures
            r == true,
    {
        true
    }
}

/// `/register`: an admin registers a player with one score for every mode.
pub struct RegisterCommand {
    pub discord_id: u64,
    pub quake_name: String,
    pub score: i64,
}

impl BotCommand for RegisterCommand {
    fn name() -> (r: &'static str)
        ensures
            r@ == "register"@,
    {
        "register"
    }

    fn permission() -> (r: Permission)
        ensures
            r == Permission::Admin,
    {
        Permission::Admin
    }

    fn is_ephemeral() -> (r: bool)
        ensures
            r == true,
    {
        true
    }

    fn is_mutating() -> (r: bool)
        ensures
            r == true,
    {
        true
    }
}

/// `/adjust`: an admin sets a player's score in one mode.
pub struct AdjustCommand {
    pub discord_id: u64,
    pub score: i64,
    /// Sacrifice tournament where absent.
    pub game_mode: Option<GameModeOption>,
}

impl AdjustCommand {
    /// Sets the score of the player in the chosen mode, giving back the score
    /// it replaced; `None`, changing nothing, if the player is not registered.
    pub fn apply(&self, db: &mut Db) -> (r: Option<i64>)
        ensures
            old(db).elos@.contains_key(self.discord_id) ==> {
                let before = old(db).elos@[self.discord_id];
                let after = final(db).elos@[self.discord_id];
                &&& r == Some(before.spec_score(chosen_mode(self.game_mode)))
                &&& final(db).elos@.dom() == old(db).elos@.dom()
                &&& forall|k: u64| k != self.discord_id ==> #[trigger] final(db).elos@.get(k) == old(db).elos@.get(k)
                &&& after.quake_name == before.quake_name
                &&& forall|m: GameMode| #[trigger] after.spec_score(m) == if m == chosen_mode(self.game_mode) {
                    self.score
                } else {
                    before.spec_score(m)
                }
            },
            !old(db).elos@.contains_key(self.discord_id) ==> r is None && final(db).elos@ == old(db).elos@,
            final(db).name_to_id@ == old(db).name_to_id@,
    {
        let mode = mode_or_default(self.game_mode);
        let mut updated = match db.elos.get(&self.discord_id) {
            Some(e) => e.duplicate(),
            None => {
                return None;
            },
        };
        let previous = updated.score(mode);
        updated.set_score(mode, self.score);
        db.elos.insert(self.discord_id, updated);
        proof {
            assert(final(db).elos@.dom() =~= old(db).elos@.dom());
        }
        Some(previous)
    }
}

impl BotCommand for AdjustCommand {
    fn name() -> (r: &'static str)
        ensures
            r@ == "adjust"@,
    {
        "adjust"
    }

    fn permission() -> (r: Permission)
        ensures
            r == Permission::Admin,
    {
        Permission::Admin
    }

    fn is_ephemeral() -> (r: bool)
        ensures
            r == true,
    {
        true
    }

    fn is_mutating() -> (r: bool)
        ensures
            r == true,
    {
        true
    }
}

/// `/db-stats`: how many players are registered.
pub struct DBStatsCommand {}

impl BotCommand for DBStatsCommand {
    fn name() -> (r: &'static str)
        ensures
            r@ == "db-stats"@,
    {
        "db-stats"
    }

    fn permission() -> (r: Permission)
        ensures
            r == Permission::Admin,
    {
        Permission::Admin
    }

    fn is_ephemeral() -> (r: bool)
        ensures
            r == true,
    {
        true
    }

    fn is_mutating() -> (r: bool)
        ensures
            r == false,
    {
        false
    }
}

/// `/balance`: offers the players in the caller's voice channel, and those
/// tagged, as buttons to pick teams from.
pub struct BalanceCommand {
    /// Sacrifice tournament where absent.
    pub game_mode: Option<GameModeOption>,
    pub player_tag1: Option<String>,
    pub player_tag2: Option<String>,
    pub player_tag3: Option<String>,
    pub player_tag4: Option<String>,
    pub player_tag5: Option<String>,
    pub player_tag6: Option<String>,
    pub player_tag7: Option<String>,
    pub player_tag8: Option<String>,
}

impl BalanceCommand {
    /// The eight player tags, in order.
    pub open spec fn spec_tags(&self) -> Seq<Option<String>> {
        seq![
            self.player_tag1,
            self.player_tag2,
            self.player_tag3,
            self.player_tag4,
            self.player_tag5,
            self.player_tag6,
            self.player_tag7,
            self.player_tag8,
        ]
    }

    /// Each of the eight tags, and nothing else, adds the user it mentions.
    pub proof fn lemma_found_tags(&self)
        ensures
            forall|id: u64| #[trigger] mentioned(self.spec_tags()).contains(id) <==> (tag_names(self.player_tag1, id)
                || tag_names(self.player_tag2, id) || tag_names(self.player_tag3, id) || tag_names(self.player_tag4, id)
                || tag_names(self.player_tag5, id) || tag_names(self.player_tag6, id) || tag_names(self.player_tag7, id)
                || tag_names(self.player_tag8, id)),
    {
        let t = self.spec_tags();
        assert forall|id: u64| #[trigger] mentioned(t).contains(id) <==> (tag_names(self.player_tag1, id)
            || tag_names(self.player_tag2, id) || tag_names(self.player_tag3, id) || tag_names(self.player_tag4, id)
            || tag_names(self.player_tag5, id) || tag_names(self.player_tag6, id) || tag_names(self.player_tag7, id)
            || tag_names(self.player_tag8, id)) by {
            if mentioned(t).contains(id) {
                let k = choose|k: int| 0 <= k < t.len() && #[trigger] t[k] is Some && mention_id(t[k]->0@) == Some(id);
                assert(tag_names(t[k], id));
            }
            assert(t[0] == self.player_tag1 && t[1] == self.player_tag2 && t[2] == self.player_tag3 && t[3] == self.player_tag4);
            assert(t[4] == self.player_tag5 && t[5] == self.player_tag6 && t[6] == self.player_tag7 && t[7] == self.player_tag8);
        }
    }

    /// The players to offer: those tagged and those in the caller's voice channel.
    pub fn found_players(&self, members: &Vec<u64>) -> (r: BTreeSet<u64>)
        ensures
            forall|id: u64| #[trigger] r@.contains(id) <==> (mentioned(self.spec_tags()).contains(id) || members@.contains(id)),
            forall|id: u64| #[trigger] r@.contains(id) <==> (members@.contains(id) || tag_names(self.player_tag1, id)
                || tag_names(self.player_tag2, id) || tag_names(self.player_tag3, id) || tag_names(self.player_tag4, id)
                || tag_names(self.player_tag5, id) || tag_names(self.player_tag6, id) || tag_names(self.player_tag7, id)
                || tag_names(self.player_tag8, id)),
    {
        proof {
            self.lemma_found_tags();
        }
        let tags = [
            &self.player_tag1,
            &self.player_tag2,
            &self.player_tag3,
            &self.player_tag4,
            &self.player_tag5,
            &self.player_tag6,
            &self.player_tag7,
            &self.player_tag8,
        ];
        let mut r = tag_ids(tags);
        proof {
            assert(tags@.map_values(|t: &Option<String>| *t) =~= self.spec_tags());
        }
        let ghost manual = r@;
        let mut i: usize = 0;
        while i < members.len()
            invariant
                i <= members@.len(),
                forall|id: u64| #[trigger] r@.contains(id) <==> (manual.contains(id) || members@.take(i as int).contains(id)),
            decreases members@.len() - i,
        {
            r.insert(members[i]);
            i += 1;
            proof {
                assert forall|id: u64| #[trigger] r@.contains(id) <==> (manual.contains(id) || members@.take(i as int).contains(id)) by {
                    if members@.take(i as int).contains(id) {
                        let k = choose|k: int| 0 <= k < i && #[trigger] members@.take(i as int)[k] == id;
                        if k < i - 1 {
                            assert(members@.take(i - 1)[k] == id);
                        }
                    }
                    if members@.take(i - 1).contains(id) {
                        let k = choose|k: int| 0 <= k < i - 1 && #[trigger] members@.take(i - 1)[k] == id;
                        assert(members@.take(i as int)[k] == id);
                    }
                    if id == members@[i - 1] {
                        assert(members@.take(i as int)[i - 1] == id);
                    }
                }
            }
        }
        assert(members@.take(members@.len() as int) =~= members@);
        r
    }
}

impl BotCommand for BalanceCommand {
    fn name() -> (r: &'static str)
        ensures
            r@ == "balance"@,
    {
        "balance"
    }

    fn permission() -> (r: Permission)
        ensures
            r == Permission::App,
    {
        Permission::App
    }

    fn is_ephemeral() -> (r: bool)
        ensures
            r == false,
    {
        false
    }

    fn is_mutating() -> (r: bool)
        ensures
            r == false,
    {
        false
    }
}

/// `/divide`: splits the caller's voice channel, and those tagged, into
/// lobbies of balanced teams.
pub struct DivideCommand {
    /// Sacrifice tournament where absent.
    pub game_mode: Option<GameModeOption>,
    /// Random where absent.
    pub sort_by: Option<SortMethodOption>,
    pub spectator_tag1: Option<String>,
    pub spectator_tag2: Option<String>,
    pub spectator_tag3: Option<String>,
    pub spectator_tag4: Option<String>,
    pub player_tag1: Option<String>,
    pub player_tag2: Option<String>,
    pub player_tag3: Option<String>,
    pub player_tag4: Option<String>,
}

impl DivideCommand {
    /// The four spectator tags, in order.
    pub open spec fn spectator_tags(&self) -> Seq<Option<String>> {
        seq![self.spectator_tag1, self.spectator_tag2, self.spectator_tag3, self.spectator_tag4]
    }

    /// The four player tags, in order.
    pub open spec fn player_tags(&self) -> Seq<Option<String>> {
        seq![self.player_tag1, self.player_tag2, self.player_tag3, self.player_tag4]
    }

    /// Each of the four spectator tags, and nothing else, names a spectator;
    /// each of the four player tags, and nothing else, names a player.
    pub proof fn lemma_divide_tags(&self)
        ensures
            forall|id: u64| #[trigger] mentioned(self.spectator_tags()).contains(id) <==> (tag_names(
                self.spectator_tag1,
                id,
            ) || tag_names(self.spectator_tag2, id) || tag_names(self.spectator_tag3, id) || tag_names(
                self.spectator_tag4,
                id,
            )),
            forall|id: u64| #[trigger] mentioned(self.player_tags()).contains(id) <==> (tag_names(
                self.player_tag1,
                id,
            ) || tag_names(self.player_tag2, id) || tag_names(self.player_tag3, id) || tag_names(
                self.player_tag4,
                id,
            )),
    {
        let s = self.spectator_tags();
        let p = self.player_tags();
        assert forall|id: u64| #[trigger] mentioned(s).contains(id) <==> (tag_names(self.spectator_tag1, id)
            || tag_names(self.spectator_tag2, id) || tag_names(self.spectator_tag3, id) || tag_names(
            self.spectator_tag4,
            id,
        )) by {
            if mentioned(s).contains(id) {
                let k = choose|k: int| 0 <= k < s.len() && #[trigger] s[k] is Some && mention_id(s[k]->0@) == Some(id);
                assert(tag_names(s[k], id));
            }
            assert(s[0] == self.spectator_tag1 && s[1] == self.spectator_tag2 && s[2] == self.spectator_tag3
                && s[3] == self.spectator_tag4);
        }
        assert forall|id: u64| #[trigger] mentioned(p).contains(id) <==> (tag_names(self.player_tag1, id)
            || tag_names(self.player_tag2, id) || tag_names(self.player_tag3, id) || tag_names(
            self.player_tag4,
            id,
        )) by {
            if mentioned(p).contains(id) {
                let k = choose|k: int| 0 <= k < p.len() && #[trigger] p[k] is Some && mention_id(p[k]->0@) == Some(id);
                assert(tag_names(p[k], id));
            }
            assert(p[0] == self.player_tag1 && p[1] == self.player_tag2 && p[2] == self.player_tag3
                && p[3] == self.player_tag4);
        }
    }

    /// The sort method chosen, random where none was.
    pub fn sort_method(&self) -> (r: SortMethod)
        ensures
            r == match self.sort_by {
                Some(o) => o.spec_method(),
                None => SortMethod::Random,
            },
    {
        match self.sort_by {
            Some(o) => SortMethod::from(o),
            None => SortMethod::Random,
        }
    }

    /// The players tagged as spectators.
    pub fn ignored_players(&self) -> (r: BTreeSet<u64>)
        ensures
            r@ == mentioned(self.spectator_tags()),
            forall|id: u64| #[trigger] r@.contains(id) <==> (tag_names(self.spectator_tag1, id) || tag_names(
                self.spectator_tag2,
                id,
            ) || tag_names(self.spectator_tag3, id) || tag_names(self.spectator_tag4, id)),
    {
        proof {
            self.lemma_divide_tags();
        }
        let none: Option<String> = None;
        let tags = [
            &self.spectator_tag1,
            &self.spectator_tag2,
            &self.spectator_tag3,
            &self.spectator_tag4,
            &none,
            &none,
            &none,
            &none,
        ];
        let r = tag_ids(tags);
        proof {
            lemma_mentioned_padded(self.spectator_tags(), tags@.map_values(|t: &Option<String>| *t));
        }
        r
    }

    /// The players tagged into the lobbies.
    pub fn manual_entries(&self) -> (r: BTreeSet<u64>)
        ensures
            r@ == mentioned(self.player_tags()),
            forall|id: u64| #[trigger] r@.contains(id) <==> (tag_names(self.player_tag1, id) || tag_names(
                self.player_tag2,
                id,
            ) || tag_names(self.player_tag3, id) || tag_names(self.player_tag4, id)),
    {
        proof {
            self.lemma_divide_tags();
        }
        let none: Option<String> = None;
        let tags = [
            &self.player_tag1,
            &self.player_tag2,
            &self.player_tag3,
            &self.player_tag4,
            &none,
            &none,
            &none,
            &none,
        ];
        let r = tag_ids(tags);
        proof {
            lemma_mentioned_padded(self.player_tags(), tags@.map_values(|t: &Option<String>| *t));
        }
        r
    }
}

/// Absent tags after the given ones mention nobody more.
proof fn lemma_mentioned_padded(given: Seq<Option<String>>, padded: Seq<Option<String>>)
    requires
        given.len() <= padded.len(),
        forall|i: int| 0 <= i < given.len() ==> #[trigger] padded[i] == given[i],
        forall|i: int| given.len() <= i < padded.len() ==> #[trigger] padded[i] is None,
    ensures
        mentioned(padded) == mentioned(given),
{
    assert forall|id: u64| mentioned(padded).contains(id) <==> mentioned(given).contains(id) by {
        if mentioned(padded).contains(id) {
            let k = choose|k: int| 0 <= k < padded.len() && #[trigger] padded[k] is Some && mention_id(padded[k]->0@) == Some(id);
            assert(given[k] == padded[k]);
        }
        if mentioned(given).contains(id) {
            let k = choose|k: int| 0 <= k < given.len() && #[trigger] given[k] is Some && mention_id(given[k]->0@) == Some(id);
            assert(padded[k] == given[k]);
        }
    }
    assert(mentioned(padded) =~= mentioned(given));
}

impl BotCommand for DivideCommand {
    fn name() -> (r: &'static str)
        ensures
            r@ == "divide"@,
    {
        "divide"
    }

    fn permission() -> (r: Permission)
        ensures
            r == Permission::App,
    {
        Permission::App
    }

    fn is_ephemeral() -> (r: bool)
        ensures
            r == false,
    {
        false
    }

    fn is_mutating() -> (r: bool)
        ensures
            r == false,
    {
        false
    }
}

/// `/backup-db`: uploads the table to the GitHub backup.
pub struct BackupDbCommand {}

impl BotCommand for BackupDbCommand {
    fn name() -> (r: &'static str)
        ensures
            r@ == "backup-db"@,
    {
        "backup-db"
    }

    fn permission() -> (r: Permission)
        ensures
            r == Permission::Owner,
    {
        Permission::Owner
    }

    fn is_ephemeral() -> (r: bool)
        ensures
            r == true,
    {
        true
    }

    fn is_mutating() -> (r: bool)
        ensures
            r == true,
    {
        true
    }
}

/// `/restore-db-backup`: replaces the table with the GitHub backup.
pub struct RestoreDBBackupCommand {}

impl BotCommand for RestoreDBBackupCommand {
    fn name() -> (r: &'static str)
        ensures
            r@ == "restore-db-backup"@,
    {
        "restore-db-backup"
    }

    fn permission() -> (r: Permission)
        ensures
            r == Permission::Owner,
    {
        Permission::Owner
    }

    fn is_ephemeral() -> (r: bool)
        ensures
            r == true,
    {
        true
    }

    fn is_mutating() -> (r: bool)
        ensures
            r == true,
    {
        true
    }
}

/// What the bot keeps of a slash command to register and dispatch it.
pub struct CommandSpec {
    pub name: &'static str,
    pub permission: Permission,
    pub is_ephemeral: bool,
    pub is_mutating: bool,
}

/// The commands in the order they are registered: (wire name, permission,
/// ephemeral, mutating).
pub open spec fn command_table() -> Seq<(Seq<char>, Permission, bool, bool)> {
    seq![
        ("balance"@, Permission::App, false, false),
        ("divide"@, Permission::App, false, false),
        ("rename"@, Permission::App, true, true),
        ("query"@, Permission::Admin, true, false),
        ("rename-other"@, Permission::Admin, true, true),
        ("register"@, Permission::Admin, true, true),
        ("adjust"@, Permission::Admin, true, true),
        ("db-stats"@, Permission::Admin, true, false),
        ("backup-db"@, Permission::Owner, true, true),
        ("restore-db-backup"@, Permission::Owner, true, true),
    ]
}

/// Every slash command the bot handles. No two share a wire name, and none
/// has an empty one.
pub fn commands() -> (r: Vec<CommandSpec>)
    ensures
        r@.len() == command_table().len(),
        forall|i: int| 0 <= i < r@.len() ==> {
            &&& (#[trigger] r@[i]).name@ == command_table()[i].0
            &&& r@[i].permission == command_table()[i].1
            &&& r@[i].is_ephemeral == command_table()[i].2
            &&& r@[i].is_mutating == command_table()[i].3
        },
        forall|i: int, j: int| 0 <= i < j < r@.len() ==> (#[trigger] r@[i]).name@ != (#[trigger] r@[j]).name@,
        forall|i: int| 0 <= i < r@.len() ==> (#[trigger] r@[i]).name@.len() > 0,
{
    let mut r: Vec<CommandSpec> = Vec::new();
    r.push(CommandSpec { name: BalanceCommand::name(), permission: BalanceCommand::permission(), is_ephemeral: BalanceCommand::is_ephemeral(), is_mutating: BalanceCommand::is_mutating() });
    r.push(CommandSpec { name: DivideCommand::name(), permission: DivideCommand::permission(), is_ephemeral: DivideCommand::is_ephemeral(), is_mutating: DivideCommand::is_mutating() });
    r.push(CommandSpec { name: RenameCommand::name(), permission: RenameCommand::permission(), is_ephemeral: RenameCommand::is_ephemeral(), is_mutating: RenameCommand::is_mutating() });
    r.push(CommandSpec { name: QueryCommand::name(), permission: QueryCommand::permission(), is_ephemeral: QueryCommand::is_ephemeral(), is_mutating: QueryCommand::is_mutating() });
    r.push(CommandSpec { name: RenameOtherCommand::name(), permission: RenameOtherCommand::permission(), is_ephemeral: RenameOtherCommand::is_ephemeral(), is_mutating: RenameOtherCommand::is_mutating() });
    r.push(CommandSpec { name: RegisterCommand::name(), permission: RegisterCommand::permission(), is_ephemeral: RegisterCommand::is_ephemeral(), is_mutating: RegisterCommand::is_mutating() });
    r.push(CommandSpec { name: AdjustCommand::name(), permission: AdjustCommand::permission(), is_ephemeral: AdjustCommand::is_ephemeral(), is_mutating: AdjustCommand::is_mutating() });
    r.push(CommandSpec { name: DBStatsCommand::name(), permission: DBStatsCommand::permission(), is_ephemeral: DBStatsCommand::is_ephemeral(), is_mutating: DBStatsCommand::is_mutating() });
    r.push(CommandSpec { name: BackupDbCommand::name(), permission: BackupDbCommand::permission(), is_ephemeral: BackupDbCommand::is_ephemeral(), is_mutating: BackupDbCommand::is_mutating() });
    r.push(CommandSpec { name: RestoreDBBackupCommand::name(), permission: RestoreDBBackupCommand::permission(), is_ephemeral: RestoreDBBackupCommand::is_ephemeral(), is_mutating: RestoreDBBackupCommand::is_mutating() });
    proof {
        lemma_command_names_distinct();
    }
    r
}

/// The wire names in the command table are distinct and nonempty.
pub proof fn lemma_command_names_distinct()
    ensures
        forall|i: int, j: int| 0 <= i < j < command_table().len() ==> #[trigger] command_table()[i].0 != #[trigger] command_table()[j].0,
        forall|i: int| 0 <= i < command_table().len() ==> (#[trigger] command_table()[i]).0.len() > 0,
{
    reveal_strlit("balance");
    reveal_strlit("divide");
    reveal_strlit("rename");
    reveal_strlit("query");
    reveal_strlit("rename-other");
    reveal_strlit("register");
    reveal_strlit("adjust");
    reveal_strlit("db-stats");
    reveal_strlit("backup-db");
    reveal_strlit("restore-db-backup");
    let t = command_table();
    assert forall|i: int, j: int| 0 <= i < j < t.len() implies #[trigger] t[i].0 != #[trigger] t[j].0 by {
        if t[i].0.len() == t[j].0.len() {
            assert(t[i].0[0] != t[j].0[0] || t[i].0[2] != t[j].0[2]);
        }
    }
}

} // verus!
