//! The text of the replies to `/balance` and `/divide`: which mode is being
//! balanced, who is not registered, and how many players were found.

use vstd::prelude::*;
use vstd::string::*;
use crate::balancing::SortMethod;
use crate::game_mode::GameMode;
use crate::players::{decimal, decimal_text};

verus! {

/// The items written one after the other with `sep` between them.
pub open spec fn joined(items: Seq<Seq<char>>, sep: Seq<char>) -> Seq<char>
    decreases items.len(),
{
    if items.len() == 0 {
        Seq::empty()
    } else if items.len() == 1 {
        items[0]
    } else {
        joined(items.drop_last(), sep) + sep + items.last()
    }
}

/// The texts of a list of strings.
pub open spec fn texts(v: Seq<String>) -> Seq<Seq<char>> {
    v.map_values(|s: String| s@)
}

/// The strings of `items` joined with `sep` between them.
pub fn join_with(items: &Vec<String>, sep: &str) -> (r: String)
    ensures
        r@ == joined(texts(items@), sep@),
{
    let mut r = String::new();
    let mut i: usize = 0;
    while i < items.len()
        invariant
            i <= items@.len(),
            r@ == joined(texts(items@.take(i as int)), sep@),
        decreases items@.len() - i,
    {
        proof {
            assert(texts(items@.take(i + 1)).drop_last() =~= texts(items@.take(i as int)));
            assert(texts(items@.take(i + 1)).last() == items@[i as int]@);
        }
        if i > 0 {
            r.append(sep);
        } else {
            proof {
                assert(texts(items@.take(1)) =~= seq![items@[0]@]);
            }
        }
        r.append(items[i].as_str());
        i += 1;
    }
    assert(items@.take(items@.len() as int) =~= items@);
    r
}

/// The reply to `/balance`: the unregistered users first, where there are
/// any, then the mode being balanced.
pub open spec fn balance_text(unregistered: Seq<Seq<char>>, mode: GameMode) -> Seq<char> {
    let warning = if unregistered.len() == 0 {
        Seq::empty()
    } else {
        "Unregistered Users: "@ + joined(unregistered, ", "@) + "\n"@
    };
    warning + "Balancing for "@ + mode.spec_name()
}

/// The reply to `/divide`: as for `/balance`, then the order the players
/// were put in, how many were found, and a warning where there are too few
/// to divide.
pub open spec fn divide_text(
    unregistered: Seq<Seq<char>>,
    mode: GameMode,
    sort_method: SortMethod,
    player_count: nat,
) -> Seq<char> {
    balance_text(unregistered, mode) + "\nSorted by "@ + sort_method.spec_name() + "\nFound "@
        + decimal(player_count) + " players"@ + (if player_count > 11 {
        Seq::empty()
    } else {
        "\nNot Enough players to divide into teams"@
    })
}

/// The text of the reply to `/balance`.
pub fn balance_reply(unregistered: &Vec<String>, mode: GameMode) -> (r: String)
    ensures
        r@ == balance_text(texts(unregistered@), mode),
{
    let mut r = String::new();
    if unregistered.len() > 0 {
        r.append("Unregistered Users: ");
        let names = join_with(unregistered, ", ");
        r.append(names.as_str());
        r.append("\n");
    }
    r.append("Balancing for ");
    r.append(mode.name());
    proof {
        assert(r@ =~= balance_text(texts(unregistered@), mode));
    }
    r
}

/// The text of the reply to `/divide`.
pub fn divide_reply(
    unregistered: &Vec<String>,
    mode: GameMode,
    sort_method: SortMethod,
    player_count: usize,
) -> (r: String)
    ensures
        r@ == divide_text(texts(unregistered@), mode, sort_method, player_count as nat),
{
    let mut r = balance_reply(unregistered, mode);
    r.append("\nSorted by ");
    r.append(sort_method.name());
    r.append("\nFound ");
    let count = decimal_text(player_count as u64);
    r.append(count.as_str());
    r.append(" players");
    if player_count <= 11 {
        r.append("\nNot Enough players to divide into teams");
    }
    proof {
        assert(r@ =~= divide_text(texts(unregistered@), mode, sort_method, player_count as nat));
    }
    r
}

} // verus!
