//! Presses on the buttons of the bot's messages: what a button id asks for,
//! which button styles change, and which players a press picks.

use vstd::prelude::*;
use vstd::string::*;
use vstd::utf8::encode_utf8;
use std::collections::BTreeSet;
use crate::game_mode::{GameMode, mode_named, lemma_name_round_trip};
use crate::balancing::{SortMethod, sort_method_named, lemma_sort_method_round_trip};
use crate::db::{Db, DEFAULT_SCORE};
use crate::custom_id::{sections, ids_in, split_sections, string_views, ids_from_custom_id, join_sections, tag_ids, tagged, set_listing, no_slash, no_colon, lemma_custom_id_round_trip, lemma_sections_join};
use crate::players::NamedElo;
use crate::text::{str_eq, parse_u64, chars_of, parse_u64_range};

verus! {

/// Only the user who ran the command that posted a message may press its
/// buttons; a press by anyone else is acknowledged and ignored.
pub fn may_press(message_author: Option<u64>, presser: Option<u64>) -> (r: bool)
    ensures
        r == (message_author == presser),
{
    match (message_author, presser) {
        (Some(a), Some(b)) => a == b,
        (None, None) => true,
        _ => false,
    }
}

/// How a button looks.
#[derive(Debug, Clone, Copy, PartialEq, Eq, Structural)]
pub enum ButtonStyle {
    Primary,
    Secondary,
    Success,
    Danger,
    Link,
    Premium,
    Unknown(u8),
}

/// The parts of a message button that the bot reads.
#[derive(Debug, Clone)]
pub struct ButtonSpec {
    pub style: ButtonStyle,
    pub custom_id: Option<String>,
    pub label: Option<String>,
}

/// What a button press asks for, by the kind in its id.
#[derive(Debug, Clone, Copy, PartialEq, Eq, Structural)]
pub enum ComponentKind {
    /// Select or unselect one player.
    Toggle,
    /// Select every player.
    SelectAll,
    /// Balance the selected players.
    Balance,
    /// Divide the hub again.
    Reshuffle,
    Unknown,
}

/// Why a button press could not be handled.
#[derive(Debug, Clone, PartialEq, Eq)]
pub enum ComponentError {
    /// A balance button whose id names no game mode.
    BalanceWithoutGameMode,
    /// A balance button naming a game mode that does not exist.
    UnknownGameMode(String),
    /// A reshuffle button whose id names no known game mode.
    ReshuffleWithoutGameMode,
    /// A reshuffle button whose id names no known sort method.
    ReshuffleWithoutSortMethod,
    /// A button of a kind the bot does not handle.
    UnknownComponent(String),
}

/// The kind a button id names by its first section.
pub open spec fn kind_of(custom_id: Seq<char>) -> ComponentKind {
    let k = sections(custom_id)[0];
    if k == "toggle-primary-secondary"@ {
        ComponentKind::Toggle
    } else if k == "select-all-primary-secondary"@ {
        ComponentKind::SelectAll
    } else if k == "balance!"@ {
        ComponentKind::Balance
    } else if k == "reshuffle!"@ {
        ComponentKind::Reshuffle
    } else {
        ComponentKind::Unknown
    }
}

/// The kind of a button, from the first section of its id.
pub fn component_kind(custom_id: &str) -> (r: ComponentKind)
    ensures
        r == kind_of(custom_id@),
{
    let k = crate::custom_id::custom_id_type(custom_id);
    if str_eq(k, "toggle-primary-secondary") {
        ComponentKind::Toggle
    } else if str_eq(k, "select-all-primary-secondary") {
        ComponentKind::SelectAll
    } else if str_eq(k, "balance!") {
        ComponentKind::Balance
    } else if str_eq(k, "reshuffle!") {
        ComponentKind::Reshuffle
    } else {
        ComponentKind::Unknown
    }
}

/// A player's button: its id's first section is `toggle-primary-secondary`.
pub open spec fn is_player_button(b: ButtonSpec) -> bool {
    b.custom_id is Some && sections(b.custom_id->0@)[0] == "toggle-primary-secondary"@
}

/// The button carries the id `id`.
pub open spec fn has_id(b: ButtonSpec, id: Seq<char>) -> bool {
    b.custom_id is Some && b.custom_id->0@ == id
}

/// Selected turns unselected; anything else turns selected.
pub open spec fn toggled(style: ButtonStyle) -> ButtonStyle {
    if style == ButtonStyle::Primary {
        ButtonStyle::Secondary
    } else {
        ButtonStyle::Primary
    }
}

/// Pressing a player's button twice leaves it as it was: selected and
/// unselected swap.
pub proof fn lemma_toggle_twice(style: ButtonStyle)
    requires
        style == ButtonStyle::Primary || style == ButtonStyle::Secondary,
    ensures
        toggled(toggled(style)) == style,
{
}

fn is_toggle_id(id: &Option<String>) -> (r: bool)
    ensures
        r == (id is Some && sections(id->0@)[0] == "toggle-primary-secondary"@),
{
    match id {
        Some(text) => str_eq(
            crate::custom_id::custom_id_type(text.as_str()),
            "toggle-primary-secondary",
        ),
        None => false,
    }
}

/// The styles after a press on the button `custom_id`: that button flips
/// between selected and unselected, the others stay.
pub fn toggle_styles(buttons: &Vec<ButtonSpec>, custom_id: &str) -> (r: Vec<ButtonStyle>)
    ensures
        r@.len() == buttons@.len(),
        forall|i: int|
            0 <= i < r@.len() ==> #[trigger] r@[i] == if has_id(buttons@[i], custom_id@) {
                toggled(buttons@[i].style)
            } else {
                buttons@[i].style
            },
{
    let mut r: Vec<ButtonStyle> = Vec::new();
    let mut i: usize = 0;
    while i < buttons.len()
        invariant
            i <= buttons@.len(),
            r@.len() == i,
            forall|j: int|
                0 <= j < i ==> #[trigger] r@[j] == if has_id(buttons@[j], custom_id@) {
                    toggled(buttons@[j].style)
                } else {
                    buttons@[j].style
                },
        decreases buttons@.len() - i,
    {
        let b = &buttons[i];
        let hit = match &b.custom_id {
            Some(id) => str_eq(id.as_str(), custom_id),
            None => false,
        };
        let style = if hit {
            match b.style {
                ButtonStyle::Primary => ButtonStyle::Secondary,
                _ => ButtonStyle::Primary,
            }
        } else {
            b.style
        };
        r.push(style);
        i += 1;
    }
    r
}

/// The styles after "Select All": every player's button is selected, the
/// others stay.
pub fn select_all_styles(buttons: &Vec<ButtonSpec>) -> (r: Vec<ButtonStyle>)
    ensures
        r@.len() == buttons@.len(),
        forall|i: int|
            0 <= i < r@.len() ==> #[trigger] r@[i] == if is_player_button(buttons@[i]) {
                ButtonStyle::Primary
            } else {
                buttons@[i].style
            },
{
    let mut r: Vec<ButtonStyle> = Vec::new();
    let mut i: usize = 0;
    while i < buttons.len()
        invariant
            i <= buttons@.len(),
            r@.len() == i,
            forall|j: int|
                0 <= j < i ==> #[trigger] r@[j] == if is_player_button(buttons@[j]) {
                    ButtonStyle::Primary
                } else {
                    buttons@[j].style
                },
        decreases buttons@.len() - i,
    {
        let style = if is_toggle_id(&buttons[i].custom_id) {
            ButtonStyle::Primary
        } else {
            buttons[i].style
        };
        r.push(style);
        i += 1;
    }
    r
}

/// The player a button picks: a selected player's button whose id ends in a
/// discord id and which has a label.
pub open spec fn picked(b: ButtonSpec) -> Option<(u64, Seq<char>)> {
    if b.style == ButtonStyle::Primary && is_player_button(b) && parse_u64(
        sections(b.custom_id->0@).last(),
    ) is Some && b.label is Some {
        Some((parse_u64(sections(b.custom_id->0@).last())->0, b.label->0@))
    } else {
        None
    }
}

/// The players the buttons pick, in button order.
pub open spec fn picked_players(bs: Seq<ButtonSpec>) -> Seq<(u64, Seq<char>)>
    decreases bs.len(),
{
    if bs.len() == 0 {
        Seq::empty()
    } else {
        match picked(bs.last()) {
            Some(p) => picked_players(bs.drop_last()).push(p),
            None => picked_players(bs.drop_last()),
        }
    }
}

/// Picks with their labels as text.
pub open spec fn pick_views(v: Seq<(u64, String)>) -> Seq<(u64, Seq<char>)> {
    v.map_values(|p: (u64, String)| (p.0, p.1@))
}

/// The id that ends a text, read as `str::parse::<u64>` would.
fn trailing_id(text: &str) -> (r: Option<u64>)
    ensures
        r == parse_u64(sections(text@).last()),
{
    let value = crate::custom_id::custom_id_value(text);
    let v = chars_of(value);
    proof {
        assert(v@.subrange(0, v@.len() as int) =~= value@);
    }
    parse_u64_range(&v, 0, v.len())
}

/// The players the buttons pick, with their labels, in button order.
pub fn selected_players(buttons: &Vec<ButtonSpec>) -> (r: Vec<(u64, String)>)
    ensures
        pick_views(r@) == picked_players(buttons@),
{
    let mut r: Vec<(u64, String)> = Vec::new();
    let mut i: usize = 0;
    while i < buttons.len()
        invariant
            i <= buttons@.len(),
            pick_views(r@) == picked_players(buttons@.take(i as int)),
        decreases buttons@.len() - i,
    {
        let b = &buttons[i];
        let ghost prev = r@;
        proof {
            assert(buttons@.take(i + 1).drop_last() =~= buttons@.take(i as int));
            assert(buttons@.take(i + 1).last() == buttons@[i as int]);
        }
        if b.style == ButtonStyle::Primary && is_toggle_id(&b.custom_id) {
            match (&b.custom_id, &b.label) {
                (Some(id), Some(label)) => match trailing_id(id.as_str()) {
                    Some(player) => {
                        r.push((player, label.clone()));
                        proof {
                            assert(pick_views(r@) =~= pick_views(prev).push((player, label@)));
                        }
                    },
                    None => {},
                },
                _ => {},
            }
        }
        i += 1;
    }
    assert(buttons@.take(buttons@.len() as int) =~= buttons@);
    r
}

/// What a press on "Balance!" leads to.
#[derive(Debug)]
pub enum BalancePick {
    /// Three players or fewer are selected.
    NotEnoughPlayers,
    /// The selected players, to be balanced for `game_mode`.
    Players { game_mode: GameMode, players: Vec<NamedElo> },
}

/// A picked player for `mode`: registered players by quake name and score,
/// anyone else by their button label and the default score.
pub open spec fn picked_player(
    elos: Map<u64, crate::db::PlayerElo>,
    mode: GameMode,
    p: (u64, Seq<char>),
) -> (u64, Seq<char>, i64) {
    if elos.contains_key(p.0) {
        (p.0, elos[p.0].quake_name@, elos[p.0].spec_score(mode))
    } else {
        (p.0, p.1, DEFAULT_SCORE)
    }
}

/// Three picks or fewer are too few; more are resolved for `mode`.
pub open spec fn balance_outcome(
    r: Result<BalancePick, ComponentError>,
    mode: GameMode,
    picks: Seq<(u64, Seq<char>)>,
    elos: Map<u64, crate::db::PlayerElo>,
) -> bool {
    if picks.len() <= 3 {
        r matches Ok(BalancePick::NotEnoughPlayers)
    } else {
        match r {
            Ok(BalancePick::Players { game_mode, players }) => game_mode == mode
                && crate::players::player_views(players@) == picks.map_values(
                |p: (u64, Seq<char>)| picked_player(elos, mode, p),
            ),
            _ => false,
        }
    }
}

/// A press on the button `custom_id` (`balance!/<mode>`): the game mode
/// comes from its second section; more than three selected players are
/// resolved against the table for that mode.
pub fn balance_pick(db: &Db, buttons: &Vec<ButtonSpec>, custom_id: &str) -> (r: Result<
    BalancePick,
    ComponentError,
>)
    ensures
        sections(custom_id@).len() < 2 ==> r == Err::<BalancePick, ComponentError>(
            ComponentError::BalanceWithoutGameMode,
        ),
        sections(custom_id@).len() >= 2 && mode_named(sections(custom_id@)[1]) is None ==> match r {
            Err(ComponentError::UnknownGameMode(name)) => name@ == sections(custom_id@)[1],
            _ => false,
        },
        sections(custom_id@).len() >= 2 && mode_named(sections(custom_id@)[1]) is Some
            ==> balance_outcome(
            r,
            mode_named(sections(custom_id@)[1])->0,
            picked_players(buttons@),
            db.elos@,
        ),
{
    let secs = split_sections(custom_id);
    if secs.len() < 2 {
        return Err(ComponentError::BalanceWithoutGameMode);
    }
    let mode = match GameMode::from_name(secs[1].as_str()) {
        Some(m) => m,
        None => {
            return Err(ComponentError::UnknownGameMode(secs[1].clone()));
        },
    };
    let selected = selected_players(buttons);
    if selected.len() <= 3 {
        return Ok(BalancePick::NotEnoughPlayers);
    }
    let mut players: Vec<NamedElo> = Vec::new();
    let mut i: usize = 0;
    while i < selected.len()
        invariant
            i <= selected@.len(),
            pick_views(selected@) == picked_players(buttons@),
            crate::players::player_views(players@) == pick_views(selected@).take(i as int).map_values(
                |p: (u64, Seq<char>)| picked_player(db.elos@, mode, p),
            ),
        decreases selected@.len() - i,
    {
        let id = selected[i].0;
        let ghost prev = players@;
        let ghost pick = pick_views(selected@)[i as int];
        match db.elos.get(&id) {
            Some(elo) => {
                players.push(NamedElo { id, name: elo.quake_name.clone(), score: elo.score(mode) });
            },
            None => {
                players.push(NamedElo { id, name: selected[i].1.clone(), score: DEFAULT_SCORE });
            },
        }
        proof {
            assert(pick == (selected@[i as int].0, selected@[i as int].1@));
            assert(crate::players::player_views(players@) =~= crate::players::player_views(prev).push(
                picked_player(db.elos@, mode, pick),
            ));
        }
        i += 1;
        proof {
            assert(pick_views(selected@).take(i as int) =~= pick_views(selected@).take(i - 1).push(
                pick_views(selected@)[i - 1],
            ));
            assert(crate::players::player_views(players@) =~= pick_views(selected@).take(
                i as int,
            ).map_values(|p: (u64, Seq<char>)| picked_player(db.elos@, mode, p)));
        }
    }
    proof {
        assert(pick_views(selected@).take(selected@.len() as int) =~= pick_views(selected@));
    }
    Ok(BalancePick::Players { game_mode: mode, players })
}

/// What a press on "Reshuffle!" asks for.
#[derive(Debug)]
pub struct ReshuffleRequest {
    pub game_mode: GameMode,
    pub sort_method: SortMethod,
    /// The players tagged as spectators (`:o:` sections).
    pub ignored_players: BTreeSet<u64>,
    /// The players tagged into the lobbies (`:i:` sections).
    pub manual_entries: BTreeSet<u64>,
}

/// Reads a reshuffle button id, `reshuffle!/<mode>/<sort>` followed by the
/// tagged players.
pub fn reshuffle_request(custom_id: &str) -> (r: Result<ReshuffleRequest, ComponentError>)
    ensures
        ({
            let secs = sections(custom_id@);
            if secs.len() < 2 || mode_named(secs[1]) is None {
                r == Err::<ReshuffleRequest, ComponentError>(
                    ComponentError::ReshuffleWithoutGameMode,
                )
            } else if secs.len() < 3 || sort_method_named(secs[2]) is None {
                r == Err::<ReshuffleRequest, ComponentError>(
                    ComponentError::ReshuffleWithoutSortMethod,
                )
            } else {
                r matches Ok(q) && q.game_mode == mode_named(secs[1])->0 && q.sort_method
                    == sort_method_named(secs[2])->0 && q.ignored_players@ == ids_in(secs, "o"@)
                    && q.manual_entries@ == ids_in(secs, "i"@)
            }
        }),
{
    let secs = split_sections(custom_id);
    if secs.len() < 2 {
        return Err(ComponentError::ReshuffleWithoutGameMode);
    }
    let game_mode = match GameMode::from_name(secs[1].as_str()) {
        Some(m) => m,
        None => {
            return Err(ComponentError::ReshuffleWithoutGameMode);
        },
    };
    if secs.len() < 3 {
        return Err(ComponentError::ReshuffleWithoutSortMethod);
    }
    let sort_method = match SortMethod::from_name(secs[2].as_str()) {
        Some(m) => m,
        None => {
            return Err(ComponentError::ReshuffleWithoutSortMethod);
        },
    };
    let ignored_players = ids_from_custom_id(custom_id, "o");
    let manual_entries = ids_from_custom_id(custom_id, "i");
    Ok(ReshuffleRequest { game_mode, sort_method, ignored_players, manual_entries })
}

/// Sections joined with `/` between them.
pub fn join_with_slash(secs: &Vec<String>) -> (r: String)
    ensures
        r@ == join_sections(string_views(secs@)),
{
    let mut r = String::new();
    let mut i: usize = 0;
    while i < secs.len()
        invariant
            i <= secs@.len(),
            r@ == join_sections(string_views(secs@.take(i as int))),
        decreases secs@.len() - i,
    {
        proof {
            assert(string_views(secs@.take(i + 1)).drop_last() =~= string_views(secs@.take(i as int)));
            assert(string_views(secs@.take(i + 1)).last() == secs@[i as int]@);
        }
        if i > 0 {
            r.append("/");
            proof {
                reveal_strlit("/");
            }
        }
        r.append(secs[i].as_str());
        i += 1;
        proof {
            if i == 1 {
                assert(r@ =~= string_views(secs@.take(1))[0]);
            } else {
                assert(r@ =~= join_sections(string_views(secs@.take(i - 1))) + seq!['/']
                    + secs@[i - 1]@);
            }
        }
    }
    assert(secs@.take(secs@.len() as int) =~= secs@);
    r
}

/// The sections of a full reshuffle button id.
pub open spec fn reshuffle_sections(
    mode: GameMode,
    sort: SortMethod,
    ignored: Set<u64>,
    manual: Set<u64>,
) -> Seq<Seq<char>> {
    seq!["reshuffle!"@, mode.spec_name(), sort.spec_name()] + tagged("o"@, ignored) + tagged(
        "i"@,
        manual,
    )
}

/// The id of the "Reshuffle!" button: the mode, the sort method and the
/// tagged players, as long as that stays under the 100 bytes Discord allows;
/// otherwise the mode and the sort method alone.
pub fn reshuffle_id(
    game_mode: GameMode,
    sort_method: SortMethod,
    ignored_players: &BTreeSet<u64>,
    manual_entries: &BTreeSet<u64>,
) -> (r: String)
    ensures
        ({
            let full = join_sections(
                reshuffle_sections(game_mode, sort_method, ignored_players@, manual_entries@),
            );
            r@ == if (encode_utf8(full).len() as usize) < 100 {
                full
            } else {
                join_sections(
                    reshuffle_sections(game_mode, sort_method, Set::empty(), Set::empty()),
                )
            }
        }),
        encode_utf8(r@).len() < 100,
{
    let mut secs: Vec<String> = Vec::new();
    secs.push(String::from_str("reshuffle!"));
    secs.push(String::from_str(game_mode.name()));
    secs.push(String::from_str(sort_method.name()));
    let mut short = Vec::new();
    short.push(String::from_str("reshuffle!"));
    short.push(String::from_str(game_mode.name()));
    short.push(String::from_str(sort_method.name()));
    let mut o = tag_ids("o", ignored_players);
    let mut inner = tag_ids("i", manual_entries);
    let ghost head = string_views(secs@);
    let ghost ov = string_views(o@);
    let ghost iv = string_views(inner@);
    secs.append(&mut o);
    secs.append(&mut inner);
    proof {
        assert(string_views(secs@) =~= head + ov + iv);
        reveal_strlit("reshuffle!");
        assert(string_views(short@) =~= head);
        crate::custom_id::lemma_set_listing_exists(Set::<u64>::empty());
        assert(tagged("o"@, Set::<u64>::empty()) =~= Seq::<Seq<char>>::empty()) by {
            assert(set_listing(Set::<u64>::empty()).len() == 0) by {
                if set_listing(Set::<u64>::empty()).len() > 0 {
                    assert(set_listing(Set::<u64>::empty()).to_set().contains(
                        set_listing(Set::<u64>::empty())[0],
                    ));
                }
            }
        }
        assert(tagged("i"@, Set::<u64>::empty()) =~= Seq::<Seq<char>>::empty()) by {
            assert(set_listing(Set::<u64>::empty()).len() == 0) by {
                if set_listing(Set::<u64>::empty()).len() > 0 {
                    assert(set_listing(Set::<u64>::empty()).to_set().contains(
                        set_listing(Set::<u64>::empty())[0],
                    ));
                }
            }
        }
        assert(head + Seq::<Seq<char>>::empty() + Seq::<Seq<char>>::empty() =~= head);
    }
    proof {
        assert(ov =~= tagged("o"@, ignored_players@));
        assert(iv =~= tagged("i"@, manual_entries@));
        assert(head =~= seq!["reshuffle!"@, game_mode.spec_name(), sort_method.spec_name()]);
    }
    let full = join_with_slash(&secs);
    let text = full.as_str();
    assert(text@ == full@);
    assert(full@ == join_sections(
        reshuffle_sections(game_mode, sort_method, ignored_players@, manual_entries@),
    ));
    let bytes = text.as_bytes().len();
    assert(bytes == encode_utf8(full@).len());
    if bytes < 100 {
        full
    } else {
        let r = join_with_slash(&short);
        assert(r@ == join_sections(
            reshuffle_sections(game_mode, sort_method, Set::empty(), Set::empty()),
        ));
        proof {
            lemma_short_reshuffle_id_fits(game_mode, sort_method);
        }
        r
    }
}

/// Every character of `s` is ASCII, one byte in UTF-8.
pub open spec fn ascii_text(s: Seq<char>) -> bool {
    forall|i: int| 0 <= i < s.len() ==> (#[trigger] s[i] as u32) <= 0x7f
}

/// ASCII text takes one byte per character.
pub proof fn lemma_ascii_bytes(s: Seq<char>)
    requires
        ascii_text(s),
    ensures
        encode_utf8(s).len() == s.len(),
    decreases s.len(),
{
    if s.len() > 0 {
        let t = s.drop_first();
        assert forall|i: int| 0 <= i < t.len() implies (#[trigger] t[i] as u32) <= 0x7f by {
            assert(t[i] == s[i + 1]);
        }
        lemma_ascii_bytes(t);
        assert((s[0] as u32) <= 0x7f);
    }
}

/// Two ASCII texts with a `/` between them are ASCII.
proof fn lemma_ascii_join(a: Seq<char>, b: Seq<char>)
    requires
        ascii_text(a),
        ascii_text(b),
    ensures
        ascii_text(a + seq!['/'] + b),
{
    let j = a + seq!['/'] + b;
    assert forall|i: int| 0 <= i < j.len() implies (#[trigger] j[i] as u32) <= 0x7f by {
        if i < a.len() {
            assert(j[i] == a[i]);
        } else if i == a.len() {
            assert(j[i] == '/');
        } else {
            assert(j[i] == b[i - a.len() - 1]);
        }
    }
}

/// The names of the modes and sort methods are ASCII and at most twenty
/// characters long.
proof fn lemma_short_names(mode: GameMode, sort: SortMethod)
    ensures
        ascii_text(mode.spec_name()),
        mode.spec_name().len() <= 20,
        ascii_text(sort.spec_name()),
        sort.spec_name().len() <= 6,
        ascii_text("reshuffle!"@),
        "reshuffle!"@.len() == 10,
{
    reveal_strlit("killing");
    reveal_strlit("ranked-duel");
    reveal_strlit("tdm");
    reveal_strlit("sacrifice-tournament");
    reveal_strlit("instagib");
    reveal_strlit("slipgate");
    reveal_strlit("duel");
    reveal_strlit("ctf");
    reveal_strlit("ffa");
    reveal_strlit("sacrifice");
    reveal_strlit("objective");
    reveal_strlit("tdm-2v2");
    reveal_strlit("random");
    reveal_strlit("score");
    reveal_strlit("reshuffle!");
}

/// The reshuffle id without tagged players (`reshuffle!/<mode>/<sort>`)
/// always fits in Discord's 100 bytes.
pub proof fn lemma_short_reshuffle_id_fits(mode: GameMode, sort: SortMethod)
    ensures
        encode_utf8(join_sections(reshuffle_sections(mode, sort, Set::empty(), Set::empty()))).len()
            < 100,
{
    crate::custom_id::lemma_set_listing_exists(Set::<u64>::empty());
    assert(set_listing(Set::<u64>::empty()).len() == 0) by {
        if set_listing(Set::<u64>::empty()).len() > 0 {
            assert(set_listing(Set::<u64>::empty()).to_set().contains(
                set_listing(Set::<u64>::empty())[0],
            ));
        }
    }
    assert(tagged("o"@, Set::<u64>::empty()) =~= Seq::<Seq<char>>::empty());
    assert(tagged("i"@, Set::<u64>::empty()) =~= Seq::<Seq<char>>::empty());
    let head = seq!["reshuffle!"@, mode.spec_name(), sort.spec_name()];
    assert(reshuffle_sections(mode, sort, Set::empty(), Set::empty()) =~= head);
    lemma_short_names(mode, sort);
    assert(head.drop_last().drop_last() =~= seq!["reshuffle!"@]);
    assert(head.drop_last() =~= seq!["reshuffle!"@, mode.spec_name()]);
    let first = "reshuffle!"@ + seq!['/'] + mode.spec_name();
    assert(join_sections(seq!["reshuffle!"@]) == "reshuffle!"@);
    assert(seq!["reshuffle!"@, mode.spec_name()].drop_last() =~= seq!["reshuffle!"@]);
    assert(join_sections(head.drop_last()) == first);
    assert(join_sections(head) == first + seq!['/'] + sort.spec_name());
    lemma_ascii_join("reshuffle!"@, mode.spec_name());
    lemma_ascii_join(first, sort.spec_name());
    lemma_ascii_bytes(join_sections(head));
}

/// Wire names hold neither `/` nor a leading `:`.
proof fn lemma_plain_names(mode: GameMode, sort: SortMethod)
    ensures
        no_slash(mode.spec_name()),
        mode.spec_name().len() > 0 && mode.spec_name()[0] != ':',
        no_slash(sort.spec_name()),
        sort.spec_name().len() > 0 && sort.spec_name()[0] != ':',
        no_slash("reshuffle!"@),
        "reshuffle!"@[0] != ':',
{
    reveal_strlit("killing");
    reveal_strlit("ranked-duel");
    reveal_strlit("tdm");
    reveal_strlit("sacrifice-tournament");
    reveal_strlit("instagib");
    reveal_strlit("slipgate");
    reveal_strlit("duel");
    reveal_strlit("ctf");
    reveal_strlit("ffa");
    reveal_strlit("sacrifice");
    reveal_strlit("objective");
    reveal_strlit("tdm-2v2");
    reveal_strlit("random");
    reveal_strlit("score");
    reveal_strlit("reshuffle!");
}

/// Pressing a reshuffle button gives back what its id was written from:
/// the mode, the sort method and both sets of tagged players. (Where the
/// full id would not fit, the button is written with empty sets, which
/// read back empty.)
pub proof fn lemma_reshuffle_round_trip(
    mode: GameMode,
    sort: SortMethod,
    ignored: Set<u64>,
    manual: Set<u64>,
)
    requires
        ignored.finite(),
        manual.finite(),
    ensures
        ({
            let secs = sections(join_sections(reshuffle_sections(mode, sort, ignored, manual)));
            &&& secs.len() >= 3
            &&& mode_named(secs[1]) == Some(mode)
            &&& sort_method_named(secs[2]) == Some(sort)
            &&& ids_in(secs, "o"@) == ignored
            &&& ids_in(secs, "i"@) == manual
        }),
{
    let head = seq!["reshuffle!"@, mode.spec_name(), sort.spec_name()];
    lemma_plain_names(mode, sort);
    reveal_strlit("o");
    reveal_strlit("i");
    assert forall|i: int| 0 <= i < head.len() implies no_slash(#[trigger] head[i]) && (
    head[i].len() == 0 || head[i][0] != ':') by {
        if i == 0 {
            reveal_strlit("reshuffle!");
        }
    }
    assert(no_colon("o"@));
    assert(no_colon("i"@));
    assert(no_slash("o"@));
    assert(no_slash("i"@));
    assert("o"@ != "i"@) by {
        assert("o"@[0] != "i"@[0]);
    }
    lemma_custom_id_round_trip(head, "o"@, ignored, "i"@, manual);
    let all = reshuffle_sections(mode, sort, ignored, manual);
    assert(all == head + tagged("o"@, ignored) + tagged("i"@, manual));
    lemma_name_round_trip(mode);
    lemma_sort_method_round_trip(sort);
}

/// The id of a player's toggle button: `toggle-primary-secondary/<id>`.
pub open spec fn player_button_id_text(id: u64) -> Seq<char> {
    "toggle-primary-secondary/"@ + crate::players::decimal(id as nat)
}

/// The id of a player's toggle button.
pub fn player_button_id(id: u64) -> (r: String)
    ensures
        r@ == player_button_id_text(id),
{
    let mut r = String::from_str("toggle-primary-secondary/");
    let digits = crate::players::decimal_text(id);
    r.append(digits.as_str());
    r
}

/// The id of the "Balance!" button: `balance!/<mode>`.
pub fn balance_button_id(game_mode: GameMode) -> (r: String)
    ensures
        r@ == "balance!/"@ + game_mode.spec_name(),
{
    let mut r = String::from_str("balance!/");
    r.append(game_mode.name());
    r
}

/// A player's toggle button is read back as a toggle of that very player.
pub proof fn lemma_player_button_round_trip(id: u64)
    ensures
        kind_of(player_button_id_text(id)) == ComponentKind::Toggle,
        sections(player_button_id_text(id))[0] == "toggle-primary-secondary"@,
        parse_u64(sections(player_button_id_text(id)).last()) == Some(id),
{
    let head = "toggle-primary-secondary"@;
    let digits = crate::players::decimal(id as nat);
    reveal_strlit("toggle-primary-secondary/");
    reveal_strlit("toggle-primary-secondary");
    crate::players::lemma_decimal_digits(id as nat);
    crate::players::lemma_decimal_parses(id);
    assert(no_slash(head));
    assert(no_slash(digits)) by {
        assert forall|i: int| 0 <= i < digits.len() implies digits[i] != '/' by {
            assert(crate::text::is_ascii_digit(digits[i]));
        }
    }
    let secs = seq![head, digits];
    assert(join_sections(secs) =~= player_button_id_text(id)) by {
        assert(join_sections(secs) == join_sections(secs.drop_last()) + seq!['/'] + secs.last());
        assert(secs.drop_last() =~= seq![head]);
    }
    lemma_sections_join(secs);
}

/// A balance button is read back as a balance of its mode.
pub proof fn lemma_balance_button_round_trip(mode: GameMode)
    ensures
        kind_of("balance!/"@ + mode.spec_name()) == ComponentKind::Balance,
        sections("balance!/"@ + mode.spec_name()).len() >= 2,
        mode_named(sections("balance!/"@ + mode.spec_name())[1]) == Some(mode),
{
    let head = "balance!"@;
    reveal_strlit("balance!/");
    reveal_strlit("balance!");
    reveal_strlit("toggle-primary-secondary");
    reveal_strlit("select-all-primary-secondary");
    lemma_plain_names(mode, SortMethod::Random);
    assert(no_slash(head));
    let secs = seq![head, mode.spec_name()];
    assert(join_sections(secs) =~= "balance!/"@ + mode.spec_name()) by {
        assert(join_sections(secs) == join_sections(secs.drop_last()) + seq!['/'] + secs.last());
        assert(secs.drop_last() =~= seq![head]);
    }
    lemma_sections_join(secs);
    lemma_name_round_trip(mode);
    assert(head != "toggle-primary-secondary"@) by {
        assert(head.len() != "toggle-primary-secondary"@.len());
    }
    assert(head != "select-all-primary-secondary"@) by {
        assert(head.len() != "select-all-primary-secondary"@.len());
    }
}

/// What a button shows and carries: its style, id and label as text.
pub open spec fn button_view(b: ButtonSpec) -> (ButtonStyle, Option<Seq<char>>, Option<Seq<char>>) {
    (
        b.style,
        match b.custom_id {
            Some(s) => Some(s@),
            None => None,
        },
        match b.label {
            Some(s) => Some(s@),
            None => None,
        },
    )
}

/// The views of a list of buttons.
pub open spec fn button_views(bs: Seq<ButtonSpec>) -> Seq<(ButtonStyle, Option<Seq<char>>, Option<Seq<char>>)> {
    bs.map_values(|b: ButtonSpec| button_view(b))
}

/// One unselected button per player, labelled with the player's name.
pub open spec fn player_button_views(players: Seq<NamedElo>) -> Seq<
    (ButtonStyle, Option<Seq<char>>, Option<Seq<char>>),
> {
    players.map_values(
        |p: NamedElo| (ButtonStyle::Secondary, Some(player_button_id_text(p.id)), Some(p.name@)),
    )
}

/// The buttons of the `/balance` reply: one unselected button per player,
/// labelled with the player's name, then "Select All" and "Balance!".
pub open spec fn balance_button_views(players: Seq<NamedElo>, game_mode: GameMode) -> Seq<
    (ButtonStyle, Option<Seq<char>>, Option<Seq<char>>),
> {
    player_button_views(players).push(
        (ButtonStyle::Danger, Some("select-all-primary-secondary"@), Some("Select All"@)),
    ).push((ButtonStyle::Success, Some("balance!/"@ + game_mode.spec_name()), Some("Balance!"@)))
}

/// The buttons of the `/balance` reply, in order.
pub fn balance_buttons(players: &Vec<NamedElo>, game_mode: GameMode) -> (r: Vec<ButtonSpec>)
    ensures
        button_views(r@) == balance_button_views(players@, game_mode),
{
    let mut r: Vec<ButtonSpec> = Vec::new();
    let mut i: usize = 0;
    while i < players.len()
        invariant
            i <= players@.len(),
            button_views(r@) == player_button_views(players@.take(i as int)),
        decreases players@.len() - i,
    {
        let id = player_button_id(players[i].id);
        let label = players[i].name.clone();
        let ghost prev = r@;
        let b = ButtonSpec { style: ButtonStyle::Secondary, custom_id: Some(id), label: Some(label) };
        r.push(b);
        i += 1;
        proof {
            assert(r@ == prev.push(b));
            assert(button_views(r@) =~= button_views(prev).push(button_view(b)));
            assert(players@.take(i as int) =~= players@.take(i - 1).push(players@[i - 1]));
            assert(player_button_views(players@.take(i as int)) =~= player_button_views(
                players@.take(i - 1),
            ).push(button_view(b)));
        }
    }
    assert(players@.take(players@.len() as int) =~= players@);
    let ghost before = r@;
    let select_all = ButtonSpec {
        style: ButtonStyle::Danger,
        custom_id: Some(String::from_str("select-all-primary-secondary")),
        label: Some(String::from_str("Select All")),
    };
    r.push(select_all);
    let balance = ButtonSpec {
        style: ButtonStyle::Success,
        custom_id: Some(balance_button_id(game_mode)),
        label: Some(String::from_str("Balance!")),
    };
    r.push(balance);
    proof {
        assert(r@ == before.push(select_all).push(balance));
        assert(button_views(r@) =~= button_views(before).push(button_view(select_all)).push(
            button_view(balance),
        ));
    }
    r
}

} // verus!
