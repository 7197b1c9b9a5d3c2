//! Players as the team builders see them: a discord id, the name to show and
//! the score for the mode being balanced.

use vstd::prelude::*;
use vstd::string::*;
use std::collections::{BTreeMap, BTreeSet};
use crate::game_mode::GameMode;
use crate::db::{Db, PlayerElo, DEFAULT_SCORE};
use crate::custom_id::{set_listing, set_members, string_views};
use crate::text::{digits_value, is_ascii_digit, parse_u64};

verus! {

/// The decimal digit `d`.
pub open spec fn digit_char(d: nat) -> char {
    "0123456789"@[d as int]
}

/// `n` written in decimal, as `to_string` writes it.
pub open spec fn decimal(n: nat) -> Seq<char>
    decreases n,
{
    if n < 10 {
        seq![digit_char(n)]
    } else {
        decimal(n / 10).push(digit_char(n % 10))
    }
}

fn digit_text(d: u64) -> (r: &'static str)
    requires
        d < 10,
    ensures
        r@ == seq![digit_char(d as nat)],
{
    proof {
        reveal_strlit("0123456789");
        reveal_strlit("0");
        reveal_strlit("1");
        reveal_strlit("2");
        reveal_strlit("3");
        reveal_strlit("4");
        reveal_strlit("5");
        reveal_strlit("6");
        reveal_strlit("7");
        reveal_strlit("8");
        reveal_strlit("9");
    }
    let r = if d == 0 {
        "0"
    } else if d == 1 {
        "1"
    } else if d == 2 {
        "2"
    } else if d == 3 {
        "3"
    } else if d == 4 {
        "4"
    } else if d == 5 {
        "5"
    } else if d == 6 {
        "6"
    } else if d == 7 {
        "7"
    } else if d == 8 {
        "8"
    } else {
        "9"
    };
    assert(r@ =~= seq![digit_char(d as nat)]);
    r
}

/// `n` written in decimal.
pub fn decimal_text(n: u64) -> (r: String)
    ensures
        r@ == decimal(n as nat),
    decreases n,
{
    if n < 10 {
        String::from_str(digit_text(n))
    } else {
        let mut r = decimal_text(n / 10);
        r.append(digit_text(n % 10));
        r
    }
}

/// Reading a number written in decimal gives the number back.
pub proof fn lemma_decimal_parses(n: u64)
    ensures
        parse_u64(decimal(n as nat)) == Some(n),
{
    lemma_decimal_digits(n as nat);
    assert(decimal(n as nat)[0] != '+');
}

/// The digit characters are the digits, with their values.
pub proof fn lemma_digit_char(d: nat)
    requires
        d < 10,
    ensures
        is_ascii_digit(digit_char(d)),
        digit_char(d) as nat - '0' as nat == d,
{
    reveal_strlit("0123456789");
    if d == 0 {
        assert(digit_char(d) == '0');
    } else if d == 1 {
        assert(digit_char(d) == '1');
    } else if d == 2 {
        assert(digit_char(d) == '2');
    } else if d == 3 {
        assert(digit_char(d) == '3');
    } else if d == 4 {
        assert(digit_char(d) == '4');
    } else if d == 5 {
        assert(digit_char(d) == '5');
    } else if d == 6 {
        assert(digit_char(d) == '6');
    } else if d == 7 {
        assert(digit_char(d) == '7');
    } else if d == 8 {
        assert(digit_char(d) == '8');
    } else {
        assert(digit_char(d) == '9');
    }
}

/// A number written in decimal is nonempty, all digits, with the number's value.
pub proof fn lemma_decimal_digits(n: nat)
    ensures
        decimal(n).len() > 0,
        forall|i: int| 0 <= i < decimal(n).len() ==> is_ascii_digit(#[trigger] decimal(n)[i]),
        digits_value(decimal(n)) == n,
    decreases n,
{
    reveal_strlit("0123456789");
    if n < 10 {
        lemma_digit_char(n);
        assert(seq![digit_char(n)].drop_last() =~= Seq::<char>::empty());
        assert(digits_value(Seq::<char>::empty()) == 0);
        assert(digits_value(decimal(n)) == digits_value(Seq::<char>::empty()) * 10 + (digit_char(n) as nat - '0' as nat) as nat);
    } else {
        lemma_digit_char(n % 10);
        lemma_decimal_digits(n / 10);
        let s = decimal(n / 10);
        assert(s.push(digit_char(n % 10)).drop_last() =~= s);
        assert(digits_value(decimal(n)) == digits_value(s) * 10 + (digit_char(n % 10) as nat - '0' as nat) as nat);
        assert(n / 10 * 10 + n % 10 == n);
        assert forall|i: int| 0 <= i < decimal(n).len() implies is_ascii_digit(
            #[trigger] decimal(n)[i],
        ) by {
            if i < s.len() {
                assert(decimal(n)[i] == s[i]);
            }
        }
    }
}

/// A player ready for team building: their id, the name to show and their
/// score in the mode being balanced.
#[derive(Debug, Clone)]
pub struct NamedElo {
    pub id: u64,
    pub name: String,
    pub score: i64,
}

/// Players as (id, name, score) values.
pub open spec fn player_views(v: Seq<NamedElo>) -> Seq<(u64, Seq<char>, i64)> {
    v.map_values(|p: NamedElo| (p.id, p.name@, p.score))
}

/// The name shown for a user who is not registered: their display name where
/// one was found, else their id in decimal.
pub open spec fn shown_name(names: Map<u64, String>, id: u64) -> Seq<char> {
    if names.contains_key(id) {
        names[id]@
    } else {
        decimal(id as nat)
    }
}

/// The player `id` for `mode`: a registered player by quake name and score,
/// anyone else by the name shown for them and the default score.
pub open spec fn named_player(
    elos: Map<u64, PlayerElo>,
    mode: GameMode,
    names: Map<u64, String>,
    id: u64,
) -> (u64, Seq<char>, i64) {
    if elos.contains_key(id) {
        (id, elos[id].quake_name@, elos[id].spec_score(mode))
    } else {
        (id, shown_name(names, id), DEFAULT_SCORE)
    }
}

/// The ids of `ids` that are not registered, in order.
pub open spec fn unregistered(elos: Map<u64, PlayerElo>, ids: Seq<u64>) -> Seq<u64>
    decreases ids.len(),
{
    if ids.len() == 0 {
        ids
    } else if elos.contains_key(ids.last()) {
        unregistered(elos, ids.drop_last())
    } else {
        unregistered(elos, ids.drop_last()).push(ids.last())
    }
}

/// The ids of the set that no player is registered under, in increasing
/// order: those whose display name has to be looked up.
pub fn unregistered_ids(db: &Db, ids: &BTreeSet<u64>) -> (r: Vec<u64>)
    ensures
        r@ == unregistered(db.elos@, set_listing(ids@)),
{
    let members = set_members(ids);
    let mut r: Vec<u64> = Vec::new();
    let mut i: usize = 0;
    while i < members.len()
        invariant
            i <= members@.len(),
            r@ == unregistered(db.elos@, members@.take(i as int)),
        decreases members@.len() - i,
    {
        proof {
            assert(members@.take(i + 1).drop_last() =~= members@.take(i as int));
        }
        if !db.elos.contains_key(&members[i]) {
            r.push(members[i]);
        }
        i += 1;
    }
    assert(members@.take(members@.len() as int) =~= members@);
    r
}

/// The players of the set for `mode`, in increasing order of id, and the
/// names shown for those who are not registered, in the same order.
/// `display_names` holds the display names found for unregistered users.
pub fn named_elos(
    db: &Db,
    mode: GameMode,
    ids: &BTreeSet<u64>,
    display_names: &BTreeMap<u64, String>,
) -> (r: (Vec<NamedElo>, Vec<String>))
    ensures
        player_views(r.0@) == set_listing(ids@).map_values(
            |id: u64| named_player(db.elos@, mode, display_names@, id),
        ),
        string_views(r.1@) == unregistered(db.elos@, set_listing(ids@)).map_values(
            |id: u64| shown_name(display_names@, id),
        ),
{
    let members = set_members(ids);
    let mut players: Vec<NamedElo> = Vec::new();
    let mut missing: Vec<String> = Vec::new();
    let mut i: usize = 0;
    while i < members.len()
        invariant
            i <= members@.len(),
            player_views(players@) == members@.take(i as int).map_values(
                |id: u64| named_player(db.elos@, mode, display_names@, id),
            ),
            string_views(missing@) == unregistered(db.elos@, members@.take(i as int)).map_values(
                |id: u64| shown_name(display_names@, id),
            ),
        decreases members@.len() - i,
    {
        let id = members[i];
        let ghost prev_players = players@;
        let ghost prev_missing = missing@;
        proof {
            assert(members@.take(i + 1).drop_last() =~= members@.take(i as int));
            assert(members@.take(i + 1).last() == id);
        }
        match db.elos.get(&id) {
            Some(elo) => {
                players.push(NamedElo { id, name: elo.quake_name.clone(), score: elo.score(mode) });
                proof {
                    assert(player_views(players@) =~= player_views(prev_players).push(
                        named_player(db.elos@, mode, display_names@, id),
                    ));
                }
            },
            None => {
                let name = match display_names.get(&id) {
                    Some(n) => n.clone(),
                    None => decimal_text(id),
                };
                missing.push(name.clone());
                players.push(NamedElo { id, name, score: DEFAULT_SCORE });
                proof {
                    assert(player_views(players@) =~= player_views(prev_players).push(
                        named_player(db.elos@, mode, display_names@, id),
                    ));
                    assert(string_views(missing@) =~= string_views(prev_missing).push(
                        shown_name(display_names@, id),
                    ));
                }
            },
        }
        i += 1;
        proof {
            assert(player_views(players@) =~= members@.take(i as int).map_values(
                |id: u64| named_player(db.elos@, mode, display_names@, id),
            ));
            assert(string_views(missing@) =~= unregistered(
                db.elos@,
                members@.take(i as int),
            ).map_values(|id: u64| shown_name(display_names@, id)));
        }
    }
    assert(members@.take(members@.len() as int) =~= members@);
    (players, missing)
}

/// What `str::to_lowercase` gives for a text: each character mapped to its
/// lowercase form by the Unicode case tables.
pub uninterp spec fn lowercase(s: Seq<char>) -> Seq<char>;

/// Calls std's `str::to_lowercase`. Claimed: the result is `lowercase` of
/// the argument's characters, a function of the argument alone; what the
/// Unicode case tables map each character to is left to that name.
#[verifier::external_body]
pub(crate) fn to_lowercase_text(s: &str) -> (r: String)
    ensures
        r@ == lowercase(s@),
{
    s.to_lowercase()
}

/// The first name present of a guild nickname, a global display name and a
/// user name.
pub open spec fn first_name(
    nick: Option<Seq<char>>,
    global_name: Option<Seq<char>>,
    user_name: Option<Seq<char>>,
) -> Option<Seq<char>> {
    match nick {
        Some(n) => Some(n),
        None => match global_name {
            Some(g) => Some(g),
            None => user_name,
        },
    }
}

/// An optional text as characters.
pub open spec fn text_view(s: Option<String>) -> Option<Seq<char>> {
    match s {
        Some(t) => Some(t@),
        None => None,
    }
}

/// The name shown for a user: their guild nickname, else their global
/// display name, else their user name, lowercased; `None` if none is known.
pub fn display_name(
    nick: Option<String>,
    global_name: Option<String>,
    user_name: Option<String>,
) -> (r: Option<String>)
    ensures
        text_view(r) == match first_name(text_view(nick), text_view(global_name), text_view(user_name)) {
            Some(n) => Some(lowercase(n)),
            None => None::<Seq<char>>,
        },
{
    let chosen = match nick {
        Some(n) => Some(n),
        None => match global_name {
            Some(g) => Some(g),
            None => user_name,
        },
    };
    match chosen {
        Some(n) => Some(to_lowercase_text(n.as_str())),
        None => None,
    }
}

} // verus!
