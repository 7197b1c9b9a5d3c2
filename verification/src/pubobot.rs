//! Reading pubobot's "queue has started" announcements: which game mode a
//! queue plays, and which players it lists.

use vstd::prelude::*;
use vstd::string::*;
use std::collections::BTreeSet;
use crate::game_mode::{GameMode, mode_named, lemma_name_round_trip, lemma_named_mode};
use crate::players::{lowercase, to_lowercase_text};
use crate::text::{chars_of, str_eq, str_starts_with, starts_with, is_whitespace, char_is_whitespace, parse_u64, parse_u64_range, contains_text, str_contains};

verus! {

/// The game mode a pubobot queue plays.
pub open spec fn queue_mode(queue: Seq<char>) -> Option<GameMode> {
    if starts_with(queue, "sac"@) {
        Some(GameMode::Sacrifice)
    } else if starts_with(queue, "ctf"@) {
        Some(GameMode::Ctf)
    } else if queue == "tdm"@ {
        Some(GameMode::Tdm)
    } else if queue == "slipgate"@ {
        Some(GameMode::Slipgate)
    } else if queue == "ca2v2"@ || queue == "ca4v4"@ {
        Some(GameMode::Killing)
    } else if queue == "ffa"@ {
        Some(GameMode::Ffa)
    } else if queue == "2v2"@ {
        Some(GameMode::Tdm2v2)
    } else {
        None
    }
}

/// A queue named by the wire name of tdm, slipgate, ffa or ctf plays that
/// mode.
pub proof fn lemma_queue_wire_names(m: GameMode)
    requires
        m == GameMode::Tdm || m == GameMode::Slipgate || m == GameMode::Ffa || m == GameMode::Ctf,
    ensures
        queue_mode(m.spec_name()) == Some(m),
{
    reveal_strlit("tdm");
    reveal_strlit("slipgate");
    reveal_strlit("ffa");
    reveal_strlit("ctf");
    reveal_strlit("sac");
    reveal_strlit("ca2v2");
    reveal_strlit("ca4v4");
    reveal_strlit("2v2");
    let q = m.spec_name();
    lemma_name_round_trip(m);
    if m == GameMode::Ctf {
        assert(q == "ctf"@);
        lemma_first_differs(q, "sac"@);
        lemma_starts_with_itself(q);
    } else if m == GameMode::Tdm {
        assert(q == "tdm"@);
        lemma_first_differs(q, "sac"@);
        lemma_first_differs(q, "ctf"@);
    } else if m == GameMode::Slipgate {
        assert(q == "slipgate"@);
        lemma_first_differs(q, "ctf"@);
        assert(q.take(3)[1] == q[1]);
    } else {
        assert(q == "ffa"@);
        lemma_first_differs(q, "sac"@);
        lemma_first_differs(q, "ctf"@);
        lemma_first_differs(q, "tdm"@);
        lemma_first_differs(q, "slipgate"@);
        lemma_first_differs(q, "ca2v2"@);
        lemma_first_differs(q, "ca4v4"@);
    }
    lemma_queue_mode_names(q);
}

/// Texts that differ in their first character neither start with nor equal
/// each other.
proof fn lemma_first_differs(q: Seq<char>, p: Seq<char>)
    requires
        q.len() > 0,
        p.len() > 0,
        q[0] != p[0],
    ensures
        !starts_with(q, p),
        q != p,
{
    if starts_with(q, p) {
        assert(q.take(p.len() as int)[0] == q[0]);
    }
}

/// A text whose first three characters are `p` starts with `p`.
proof fn lemma_starts_with_itself(p: Seq<char>)
    ensures
        starts_with(p, p),
{
    assert(p.take(p.len() as int) =~= p);
}

/// Every queue whose name starts with `sac` plays sacrifice; any other
/// queue that is named by a game mode's wire name and that pubobot
/// balances plays that mode.
pub proof fn lemma_queue_mode_names(q: Seq<char>)
    ensures
        starts_with(q, "sac"@) ==> queue_mode(q) == Some(GameMode::Sacrifice),
        queue_mode(q) is Some && mode_named(q) is Some && !starts_with(q, "sac"@) ==> queue_mode(q)
            == mode_named(q),
{
    reveal_strlit("sac");
    reveal_strlit("ctf");
    reveal_strlit("tdm");
    reveal_strlit("slipgate");
    reveal_strlit("ca2v2");
    reveal_strlit("ca4v4");
    reveal_strlit("ffa");
    reveal_strlit("2v2");
    if let Some(m) = mode_named(q) {
        lemma_named_mode(q);
        match m {
            GameMode::Killing => {
                reveal_strlit("killing");
                lemma_first_differs(q, "ctf"@);
                lemma_first_differs(q, "tdm"@);
                lemma_first_differs(q, "slipgate"@);
                lemma_first_differs(q, "ca2v2"@);
                lemma_first_differs(q, "ca4v4"@);
                lemma_first_differs(q, "ffa"@);
                lemma_first_differs(q, "2v2"@);
            },
            GameMode::RankedDuel => {
                reveal_strlit("ranked-duel");
                lemma_first_differs(q, "sac"@);
                lemma_first_differs(q, "ctf"@);
                lemma_first_differs(q, "tdm"@);
                lemma_first_differs(q, "slipgate"@);
                lemma_first_differs(q, "ca2v2"@);
                lemma_first_differs(q, "ca4v4"@);
                lemma_first_differs(q, "ffa"@);
                lemma_first_differs(q, "2v2"@);
            },
            GameMode::Instagib => {
                reveal_strlit("instagib");
                lemma_first_differs(q, "sac"@);
                lemma_first_differs(q, "ctf"@);
                lemma_first_differs(q, "tdm"@);
                lemma_first_differs(q, "slipgate"@);
                lemma_first_differs(q, "ca2v2"@);
                lemma_first_differs(q, "ca4v4"@);
                lemma_first_differs(q, "ffa"@);
                lemma_first_differs(q, "2v2"@);
            },
            GameMode::Duel => {
                reveal_strlit("duel");
                lemma_first_differs(q, "sac"@);
                lemma_first_differs(q, "ctf"@);
                lemma_first_differs(q, "tdm"@);
                lemma_first_differs(q, "slipgate"@);
                lemma_first_differs(q, "ca2v2"@);
                lemma_first_differs(q, "ca4v4"@);
                lemma_first_differs(q, "ffa"@);
                lemma_first_differs(q, "2v2"@);
            },
            GameMode::Objective => {
                reveal_strlit("objective");
                lemma_first_differs(q, "sac"@);
                lemma_first_differs(q, "ctf"@);
                lemma_first_differs(q, "tdm"@);
                lemma_first_differs(q, "slipgate"@);
                lemma_first_differs(q, "ca2v2"@);
                lemma_first_differs(q, "ca4v4"@);
                lemma_first_differs(q, "ffa"@);
                lemma_first_differs(q, "2v2"@);
            },
            GameMode::Tdm2v2 => {
                reveal_strlit("tdm-2v2");
                lemma_first_differs(q, "sac"@);
                lemma_first_differs(q, "ctf"@);
                assert(q.len() != "tdm"@.len());
                lemma_first_differs(q, "slipgate"@);
                lemma_first_differs(q, "ca2v2"@);
                lemma_first_differs(q, "ca4v4"@);
                lemma_first_differs(q, "ffa"@);
                lemma_first_differs(q, "2v2"@);
            },
            GameMode::Tdm => {
                reveal_strlit("tdm");
                lemma_first_differs(q, "sac"@);
                lemma_first_differs(q, "ctf"@);
            },
            GameMode::Slipgate => {
                lemma_first_differs(q, "ctf"@);
                lemma_first_differs(q, "tdm"@);
                if starts_with(q, "sac"@) {
                    assert(q.take(3)[1] == q[1]);
                }
            },
            GameMode::Ffa => {
                lemma_first_differs(q, "sac"@);
                lemma_first_differs(q, "ctf"@);
                lemma_first_differs(q, "tdm"@);
                lemma_first_differs(q, "slipgate"@);
                lemma_first_differs(q, "ca2v2"@);
                lemma_first_differs(q, "ca4v4"@);
            },
            GameMode::Ctf => {
                lemma_first_differs(q, "sac"@);
                lemma_starts_with_itself(q);
            },
            GameMode::Sacrifice => {
                reveal_strlit("sacrifice");
                assert(q.take(3) =~= "sac"@);
            },
            GameMode::SacrificeTournament => {
                reveal_strlit("sacrifice-tournament");
                assert(q.take(3) =~= "sac"@);
            },
        }
    }
}

/// Pubobot queue names mapped to game modes; every queue whose name starts
/// with `sac` plays sacrifice, every one starting with `ctf` plays ctf.
pub fn queue_game_mode(queue: &str) -> (r: Option<GameMode>)
    ensures
        r == queue_mode(queue@),
        starts_with(queue@, "sac"@) ==> r == Some(GameMode::Sacrifice),
        r is Some && mode_named(queue@) is Some && !starts_with(queue@, "sac"@) ==> r == mode_named(
            queue@,
        ),
{
    proof {
        lemma_queue_mode_names(queue@);
    }
    if str_starts_with(queue, "sac") {
        Some(GameMode::Sacrifice)
    } else if str_starts_with(queue, "ctf") {
        Some(GameMode::Ctf)
    } else if str_eq(queue, "tdm") {
        Some(GameMode::Tdm)
    } else if str_eq(queue, "slipgate") {
        Some(GameMode::Slipgate)
    } else if str_eq(queue, "ca2v2") || str_eq(queue, "ca4v4") {
        Some(GameMode::Killing)
    } else if str_eq(queue, "ffa") {
        Some(GameMode::Ffa)
    } else if str_eq(queue, "2v2") {
        Some(GameMode::Tdm2v2)
    } else {
        None
    }
}

/// Whether an embed title announces a queue that has started.
pub fn is_start_announcement(title: &str) -> (r: bool)
    ensures
        r == contains_text(title@, "has started"@),
{
    str_contains(title, "has started")
}

/// `s` without the characters `<`, `@` and `>`.
pub open spec fn strip_mention_marks(s: Seq<char>) -> Seq<char>
    decreases s.len(),
{
    if s.len() == 0 {
        s
    } else {
        let rest = strip_mention_marks(s.drop_last());
        let c = s.last();
        if c == '<' || c == '@' || c == '>' {
            rest
        } else {
            rest.push(c)
        }
    }
}

/// The words closed so far and the word being read, scanning `s` left to
/// right and cutting at whitespace.
pub open spec fn words_scan(s: Seq<char>) -> (Seq<Seq<char>>, Seq<char>)
    decreases s.len(),
{
    if s.len() == 0 {
        (Seq::<Seq<char>>::empty(), Seq::<char>::empty())
    } else {
        let (done, current) = words_scan(s.drop_last());
        let c = s.last();
        if is_whitespace(c) {
            if current.len() > 0 {
                (done.push(current), Seq::<char>::empty())
            } else {
                (done, Seq::<char>::empty())
            }
        } else {
            (done, current.push(c))
        }
    }
}

/// The runs of non-whitespace characters of `s`, as `split_whitespace`
/// yields them.
pub open spec fn words(s: Seq<char>) -> Seq<Seq<char>> {
    let (done, current) = words_scan(s);
    if current.len() > 0 {
        done.push(current)
    } else {
        done
    }
}

/// The ids named by the words longer than one character.
pub open spec fn word_ids(ws: Seq<Seq<char>>) -> Set<u64> {
    Set::new(|v: u64| exists|k: int| 0 <= k < ws.len() && ws[k].len() > 1 && parse_u64(ws[k]) == Some(v))
}

/// The ids a list of mentions such as `<@111> <@222>` names: the marks
/// `<`, `@`, `>` are dropped, the text is cut at whitespace, and every word
/// longer than one character that reads as a `u64` is an id.
pub open spec fn mentioned_ids(value: Seq<char>) -> Set<u64> {
    word_ids(words(strip_mention_marks(value)))
}

proof fn lemma_word_ids_push(ws: Seq<Seq<char>>, w: Seq<char>)
    ensures
        word_ids(ws.push(w)) == if w.len() > 1 && parse_u64(w) is Some {
            word_ids(ws).insert(parse_u64(w)->0)
        } else {
            word_ids(ws)
        },
{
    let a = word_ids(ws.push(w));
    let b = if w.len() > 1 && parse_u64(w) is Some {
        word_ids(ws).insert(parse_u64(w)->0)
    } else {
        word_ids(ws)
    };
    assert forall|v: u64| a.contains(v) implies b.contains(v) by {
        let k = choose|k: int| 0 <= k < ws.len() + 1 && ws.push(w)[k].len() > 1 && parse_u64(ws.push(w)[k]) == Some(v);
        if k < ws.len() {
            assert(ws.push(w)[k] == ws[k]);
        }
    }
    assert forall|v: u64| b.contains(v) implies a.contains(v) by {
        if w.len() > 1 && parse_u64(w) == Some(v) {
            assert(ws.push(w)[ws.len() as int] == w);
        } else {
            let k = choose|k: int| 0 <= k < ws.len() && ws[k].len() > 1 && parse_u64(ws[k]) == Some(v);
            assert(ws.push(w)[k] == ws[k]);
        }
    }
    assert(a =~= b);
}

/// The players a pubobot announcement lists; see `mentioned_ids`.
pub fn mention_ids(value: &str) -> (r: BTreeSet<u64>)
    ensures
        r@ == mentioned_ids(value@),
{
    let v = chars_of(value);
    let mut t: Vec<char> = Vec::new();
    let mut i: usize = 0;
    while i < v.len()
        invariant
            i <= v@.len(),
            t@ == strip_mention_marks(v@.take(i as int)),
        decreases v@.len() - i,
    {
        proof {
            assert(v@.take(i as int + 1).drop_last() =~= v@.take(i as int));
        }
        let c = v[i];
        if !(c == '<' || c == '@' || c == '>') {
            t.push(c);
        }
        i += 1;
    }
    proof {
        assert(v@.take(v@.len() as int) =~= value@);
    }
    let n = t.len();
    let mut r: BTreeSet<u64> = BTreeSet::new();
    let mut start: usize = 0;
    let mut j: usize = 0;
    proof {
        assert(t@.take(0) =~= Seq::<char>::empty());
        assert(word_ids(Seq::<Seq<char>>::empty()) =~= Set::<u64>::empty());
        assert(t@.subrange(0, 0) =~= Seq::<char>::empty());
    }
    while j < n
        invariant
            n == t@.len(),
            start <= j <= n,
            words_scan(t@.take(j as int)).1 == t@.subrange(start as int, j as int),
            r@ == word_ids(words_scan(t@.take(j as int)).0),
        decreases n - j,
    {
        proof {
            assert(t@.take(j as int + 1).drop_last() =~= t@.take(j as int));
            assert(t@.take(j as int + 1).last() == t@[j as int]);
        }
        let c = t[j];
        if char_is_whitespace(c) {
            if start < j {
                let id = parse_u64_range(&t, start, j);
                proof {
                    lemma_word_ids_push(words_scan(t@.take(j as int)).0, t@.subrange(start as int, j as int));
                }
                if j - start > 1 {
                    match id {
                        Some(x) => {
                            r.insert(x);
                        },
                        None => {},
                    }
                }
            }
            start = j + 1;
            proof {
                assert(t@.subrange(start as int, start as int) =~= Seq::<char>::empty());
            }
        } else {
            proof {
                assert(t@.subrange(start as int, j + 1) =~= t@.subrange(start as int, j as int).push(c));
            }
        }
        j += 1;
    }
    proof {
        assert(t@.take(n as int) =~= t@);
    }
    if start < n {
        let id = parse_u64_range(&t, start, n);
        proof {
            lemma_word_ids_push(words_scan(t@).0, t@.subrange(start as int, n as int));
        }
        if n - start > 1 {
            match id {
                Some(x) => {
                    r.insert(x);
                },
                None => {},
            }
        }
    }
    r
}

/// The pieces of `s` between its `*` marks, as `split('*')` yields them.
pub open spec fn star_pieces(s: Seq<char>) -> Seq<Seq<char>>
    decreases s.len(),
{
    if s.len() == 0 {
        seq![Seq::<char>::empty()]
    } else {
        let r = star_pieces(s.drop_last());
        if s.last() == '*' {
            r.push(Seq::<char>::empty())
        } else {
            r.update(r.len() - 1, r.last().push(s.last()))
        }
    }
}

/// The pieces of `s` between its `*` marks.
fn split_stars(s: &str) -> (r: Vec<String>)
    ensures
        r@.map_values(|p: String| p@) == star_pieces(s@),
{
    let n = s.unicode_len();
    let mut r: Vec<String> = Vec::new();
    let mut start: usize = 0;
    let mut i: usize = 0;
    proof {
        assert(s@.take(0) =~= Seq::<char>::empty());
        assert(star_pieces(s@.take(0)).drop_last() =~= Seq::<Seq<char>>::empty());
        assert(s@.subrange(0, 0) =~= Seq::<char>::empty());
        assert(r@.map_values(|p: String| p@) =~= Seq::<Seq<char>>::empty());
    }
    while i < n
        invariant
            n == s@.len(),
            start <= i <= n,
            star_pieces(s@.take(i as int)).len() >= 1,
            star_pieces(s@.take(i as int)).last() == s@.subrange(start as int, i as int),
            r@.map_values(|p: String| p@) == star_pieces(s@.take(i as int)).drop_last(),
        decreases n - i,
    {
        let ghost before = star_pieces(s@.take(i as int));
        proof {
            assert(s@.take(i as int + 1).drop_last() =~= s@.take(i as int));
            assert(s@.take(i as int + 1).last() == s@[i as int]);
        }
        if s.get_char(i) == '*' {
            let piece = String::from_str(s.substring_char(start, i));
            let ghost prev = r@;
            r.push(piece);
            proof {
                assert(star_pieces(s@.take(i as int + 1)) == before.push(Seq::<char>::empty()));
                assert(before =~= before.drop_last().push(before.last()));
                assert(r@.map_values(|p: String| p@) =~= prev.map_values(|p: String| p@).push(
                    piece@,
                ));
                assert(star_pieces(s@.take(i as int + 1)).drop_last() =~= before);
            }
            start = i + 1;
            proof {
                assert(s@.subrange(start as int, start as int) =~= Seq::<char>::empty());
            }
        } else {
            proof {
                assert(star_pieces(s@.take(i as int + 1)).drop_last() =~= before.drop_last());
                assert(s@.subrange(start as int, i + 1) =~= s@.subrange(start as int, i as int).push(
                    s@[i as int],
                ));
            }
        }
        i += 1;
    }
    let last = String::from_str(s.substring_char(start, n));
    let ghost prev = r@;
    r.push(last);
    proof {
        assert(s@.take(n as int) =~= s@);
        let all = star_pieces(s@);
        assert(all =~= all.drop_last().push(all.last()));
        assert(r@.map_values(|p: String| p@) =~= prev.map_values(|p: String| p@).push(last@));
    }
    r
}

/// The queue a start announcement names: the title must say "has started",
/// and the queue is the text between its first pair of `**` marks (the
/// third piece between `*`s), lowercased.
pub open spec fn announced_queue(title: Seq<char>) -> Option<Seq<char>> {
    if contains_text(title, "has started"@) && star_pieces(title).len() > 2 {
        Some(lowercase(star_pieces(title)[2]))
    } else {
        None
    }
}

/// The queue a start announcement names, lowercased; see `announced_queue`.
pub fn started_queue(title: &str) -> (r: Option<String>)
    ensures
        match r {
            Some(q) => announced_queue(title@) == Some(q@),
            None => announced_queue(title@) is None,
        },
{
    if !is_start_announcement(title) {
        return None;
    }
    let pieces = split_stars(title);
    if pieces.len() <= 2 {
        return None;
    }
    proof {
        assert(pieces@.map_values(|p: String| p@)[2] == pieces@[2]@);
    }
    Some(to_lowercase_text(pieces[2].as_str()))
}

/// The game mode of the queue a start announcement names, if it is one the
/// bot balances.
pub fn started_queue_mode(title: &str) -> (r: Option<GameMode>)
    ensures
        r == match announced_queue(title@) {
            Some(q) => queue_mode(q),
            None => None,
        },
{
    match started_queue(title) {
        Some(q) => queue_game_mode(q.as_str()),
        None => None,
    }
}

} // verus!
