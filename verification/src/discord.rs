//! The parts of rendering Discord replies that decide something: reading a
//! user mention, packing buttons into rows, pairing lobby channels and
//! ordering team members.

use vstd::prelude::*;
use vstd::string::*;
use crate::text::{chars_of, trim_char, trim_char_bounds, parse_u64, parse_u64_range};
use crate::ordering::{sort_by_key, sorted_by_key, lemma_sorted_member};
use crate::balancing::{PlayersElos, by_score_descending, sorted_by_score_descending};
use crate::listing::{entries, listing};

verus! {

/// A mention or id that does not name a discord user.
#[derive(Debug, Clone, PartialEq, Eq)]
pub struct InvalidId {
    /// The text that was given.
    pub text: String,
}

impl InvalidId {
    /// The error's message: `Invalid ID: ` and the text given.
    pub fn message(&self) -> (r: String)
        ensures
            r@ == "Invalid ID: "@ + self.text@,
    {
        let mut r = String::from_str("Invalid ID: ");
        r.append(self.text.as_str());
        r
    }
}

/// The id in a mention such as `<@123>`: `<`, `>` and `@` are trimmed from
/// both ends, in that order, and the rest is read as a `u64`.
pub open spec fn mention_id(s: Seq<char>) -> Option<u64> {
    parse_u64(trim_char(trim_char(trim_char(s, '<'), '>'), '@'))
}

/// The discord id a mention or bare id names; where it names none, the
/// text given comes back in the error.
pub fn str_to_id(s: &str) -> (r: Result<u64, InvalidId>)
    ensures
        match r {
            Ok(id) => mention_id(s@) == Some(id),
            Err(e) => mention_id(s@) is None && e.text@ == s@,
        },
{
    let v = chars_of(s);
    let (a, b) = trim_char_bounds(&v, 0, v.len(), '<');
    let (c, d) = trim_char_bounds(&v, a, b, '>');
    let (e, f) = trim_char_bounds(&v, c, d, '@');
    proof {
        assert(v@.subrange(0, v@.len() as int) =~= s@);
    }
    match parse_u64_range(&v, e, f) {
        Some(id) => Ok(id),
        None => Err(InvalidId { text: String::from_str(s) }),
    }
}

/// `v` cut into consecutive rows of at most five, the Discord limit.
pub open spec fn rows_of_five<T>(v: Seq<T>) -> Seq<Seq<T>>
    decreases v.len(),
{
    if v.len() == 0 {
        Seq::<Seq<T>>::empty()
    } else if v.len() <= 5 {
        seq![v]
    } else {
        seq![v.take(5)] + rows_of_five(v.skip(5))
    }
}

/// Packs components into rows of five, in order.
pub fn chunk_rows<T>(v: Vec<T>) -> (r: Vec<Vec<T>>)
    ensures
        r@.map_values(|row: Vec<T>| row@) == rows_of_five(v@),
    decreases v@.len(),
{
    let mut v = v;
    if v.len() == 0 {
        let r: Vec<Vec<T>> = Vec::new();
        assert(r@.map_values(|row: Vec<T>| row@) =~= rows_of_five(v@));
        return r;
    }
    if v.len() <= 5 {
        let ghost s = v@;
        let mut r: Vec<Vec<T>> = Vec::new();
        r.push(v);
        assert(r@.map_values(|row: Vec<T>| row@) =~= seq![s]);
        return r;
    }
    let ghost s = v@;
    let rest = v.split_off(5);
    let tail = chunk_rows(rest);
    let mut r: Vec<Vec<T>> = Vec::new();
    r.push(v);
    let mut tail = tail;
    let ghost tv = tail@.map_values(|row: Vec<T>| row@);
    r.append(&mut tail);
    assert(r@.map_values(|row: Vec<T>| row@) =~= seq![s.take(5)] + tv);
    r
}

/// Channel positions keyed for ordering, in input order.
pub open spec fn position_keys(channels: Seq<(i32, Seq<char>)>) -> Seq<(usize, i128)> {
    Seq::new(channels.len(), |i: int| (i as usize, channels[i].0 as i128))
}

/// The names of the voice channels next to the hub, ordered by position
/// (equal positions keep their order), without the first one, which is the
/// hub itself, paired up as (team 1 lobby, team 2 lobby); an unpaired last
/// name is dropped.
pub open spec fn lobby_pairs(channels: Seq<(i32, Seq<char>)>) -> Seq<(Seq<char>, Seq<char>)> {
    let order = sort_by_key(position_keys(channels));
    let count = if order.len() > 0 { (order.len() - 1) / 2 } else { 0 };
    Seq::new(
        count as nat,
        |i: int| (channels[order[2 * i + 1].0 as int].1, channels[order[2 * i + 2].0 as int].1),
    )
}

/// Channels as (position, name) values.
pub open spec fn channel_views(channels: Seq<(i32, String)>) -> Seq<(i32, Seq<char>)> {
    channels.map_values(|c: (i32, String)| (c.0, c.1@))
}

/// Pairs of names as values.
pub open spec fn pair_views(pairs: Seq<(String, String)>) -> Seq<(Seq<char>, Seq<char>)> {
    pairs.map_values(|p: (String, String)| (p.0@, p.1@))
}

/// Pairs the lobby channels that share a category with the hub; see
/// `lobby_pairs`.
pub fn sibling_lobby_pairs(channels: &Vec<(i32, String)>) -> (r: Vec<(String, String)>)
    ensures
        pair_views(r@) == lobby_pairs(channel_views(channels@)),
{
    let ghost cv = channel_views(channels@);
    let mut keyed: Vec<(usize, i128)> = Vec::new();
    let mut i: usize = 0;
    while i < channels.len()
        invariant
            i <= channels@.len(),
            cv == channel_views(channels@),
            keyed@ == position_keys(cv).take(i as int),
        decreases channels@.len() - i,
    {
        keyed.push((i, channels[i].0 as i128));
        i += 1;
        proof {
            assert(keyed@ =~= position_keys(cv).take(i as int));
        }
    }
    proof {
        assert(position_keys(cv).take(channels@.len() as int) =~= position_keys(cv));
    }
    let order = sorted_by_key(&keyed);
    let count = if order.len() > 0 { (order.len() - 1) / 2 } else { 0 };
    let mut r: Vec<(String, String)> = Vec::new();
    let mut j: usize = 0;
    while j < count
        invariant
            j <= count,
            cv == channel_views(channels@),
            keyed@ == position_keys(cv),
            order@ == sort_by_key(keyed@),
            order@.len() <= usize::MAX,
            count == if order@.len() > 0 { (order@.len() - 1) / 2 } else { 0 },
            pair_views(r@) == lobby_pairs(cv).take(j as int),
        decreases count - j,
    {
        proof {
            let n = order@.len() as int;
            assert(2 * j + 2 < n) by (nonlinear_arith)
                requires
                    n > 0,
                    j < (n - 1) / 2,
            ;
            lemma_sorted_member(keyed@, 2 * j + 1);
            lemma_sorted_member(keyed@, 2 * j + 2);
        }
        let first_index: usize = j + j + 1;
        let a = order[first_index].0;
        let b = order[first_index + 1].0;
        let first = channels[a].1.clone();
        let second = channels[b].1.clone();
        let ghost prev = r@;
        r.push((first, second));
        j += 1;
        proof {
            assert(pair_views(r@) =~= pair_views(prev).push((first@, second@)));
            assert(pair_views(r@) =~= lobby_pairs(cv).take(j as int));
        }
    }
    proof {
        assert(lobby_pairs(cv).take(count as int) =~= lobby_pairs(cv));
    }
    r
}

/// A team's members, highest score first (ties by lower id).
pub fn team_members_by_score(team: &PlayersElos) -> (r: Vec<u64>)
    ensures
        r@ == by_score_descending(listing(team@)).map_values(|x: (u64, i64)| x.0),
{
    let e = entries(team);
    let ranked = sorted_by_score_descending(&e);
    let mut r: Vec<u64> = Vec::new();
    let mut i: usize = 0;
    while i < ranked.len()
        invariant
            i <= ranked@.len(),
            r@ == ranked@.take(i as int).map_values(|x: (u64, i64)| x.0),
        decreases ranked@.len() - i,
    {
        r.push(ranked[i].0);
        i += 1;
        proof {
            assert(r@ =~= ranked@.take(i as int).map_values(|x: (u64, i64)| x.0));
        }
    }
    assert(ranked@.take(ranked@.len() as int) =~= ranked@);
    r
}

} // verus!
