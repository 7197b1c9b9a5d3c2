//! Registered players: their scores in every game mode, keyed by discord id,
//! with an index from quake name to discord id.

use vstd::prelude::*;
use std::collections::BTreeMap;
use vstd::std_specs::btree::{spec_btree_map_iter, increasing_seq};
use vstd::std_specs::iter::IteratorSpec;
use vstd::std_specs::cmp::OrdSpec;
use crate::game_mode::GameMode;
use crate::text::str_eq;
use crate::name_order::{name_less, text_less, lemma_name_less_total, lemma_name_less_transitive, lemma_name_less_irreflexive, lemma_name_less_asymmetric};

verus! {

/// The score a player holds in every mode until an admin sets it (5.0).
pub const DEFAULT_SCORE: i64 = 5_000_000_000;

/// One player's quake name and score in each game mode.
#[derive(Debug, Clone)]
pub struct PlayerElo {
    pub quake_name: String,
    pub killing: i64,
    pub ranked_duel: i64,
    pub tdm: i64,
    pub sacrifice_tournament: i64,
    pub instagib: i64,
    pub slipgate: i64,
    pub duel: i64,
    pub ctf: i64,
    pub ffa: i64,
    pub sacrifice: i64,
    pub objective: i64,
    pub tdm_2v2: i64,
}

impl PlayerElo {
    /// The player's score in `mode`.
    pub open spec fn spec_score(self, mode: GameMode) -> i64 {
        match mode {
            GameMode::Killing => self.killing,
            GameMode::RankedDuel => self.ranked_duel,
            GameMode::Tdm => self.tdm,
            GameMode::SacrificeTournament => self.sacrifice_tournament,
            GameMode::Instagib => self.instagib,
            GameMode::Slipgate => self.slipgate,
            GameMode::Duel => self.duel,
            GameMode::Ctf => self.ctf,
            GameMode::Ffa => self.ffa,
            GameMode::Sacrifice => self.sacrifice,
            GameMode::Objective => self.objective,
            GameMode::Tdm2v2 => self.tdm_2v2,
        }
    }

    /// A new player holding the default score in every mode.
    pub fn new(quake_name: String) -> (r: PlayerElo)
        ensures
            r.quake_name == quake_name,
            forall|m: GameMode| #[trigger] r.spec_score(m) == DEFAULT_SCORE,
    {
        PlayerElo::with_score(quake_name, DEFAULT_SCORE)
    }

    /// A new player holding `score` in every mode.
    pub fn with_score(quake_name: String, score: i64) -> (r: PlayerElo)
        ensures
            r.quake_name == quake_name,
            forall|m: GameMode| #[trigger] r.spec_score(m) == score,
    {
        PlayerElo {
            quake_name,
            killing: score,
            ranked_duel: score,
            tdm: score,
            sacrifice_tournament: score,
            instagib: score,
            slipgate: score,
            duel: score,
            ctf: score,
            ffa: score,
            sacrifice: score,
            objective: score,
            tdm_2v2: score,
        }
    }

    pub fn score(&self, mode: GameMode) -> (r: i64)
        ensures
            r == self.spec_score(mode),
    {
        match mode {
            GameMode::Killing => self.killing,
            GameMode::RankedDuel => self.ranked_duel,
            GameMode::Tdm => self.tdm,
            GameMode::SacrificeTournament => self.sacrifice_tournament,
            GameMode::Instagib => self.instagib,
            GameMode::Slipgate => self.slipgate,
            GameMode::Duel => self.duel,
            GameMode::Ctf => self.ctf,
            GameMode::Ffa => self.ffa,
            GameMode::Sacrifice => self.sacrifice,
            GameMode::Objective => self.objective,
            GameMode::Tdm2v2 => self.tdm_2v2,
        }
    }

    /// Sets the score of one mode, leaving the name and the other modes alone.
    pub fn set_score(&mut self, mode: GameMode, score: i64)
        ensures
            final(self).quake_name == old(self).quake_name,
            forall|m: GameMode| #[trigger] final(self).spec_score(m) == if m == mode {
                score
            } else {
                old(self).spec_score(m)
            },
    {
        match mode {
            GameMode::Killing => self.killing = score,
            GameMode::RankedDuel => self.ranked_duel = score,
            GameMode::Tdm => self.tdm = score,
            GameMode::SacrificeTournament => self.sacrifice_tournament = score,
            GameMode::Instagib => self.instagib = score,
            GameMode::Slipgate => self.slipgate = score,
            GameMode::Duel => self.duel = score,
            GameMode::Ctf => self.ctf = score,
            GameMode::Ffa => self.ffa = score,
            GameMode::Sacrifice => self.sacrifice = score,
            GameMode::Objective => self.objective = score,
            GameMode::Tdm2v2 => self.tdm_2v2 = score,
        }
    }

    /// An identical copy.
    pub fn duplicate(&self) -> (r: PlayerElo)
        ensures
            r == *self,
    {
        PlayerElo {
            quake_name: self.quake_name.clone(),
            killing: self.killing,
            ranked_duel: self.ranked_duel,
            tdm: self.tdm,
            sacrifice_tournament: self.sacrifice_tournament,
            instagib: self.instagib,
            slipgate: self.slipgate,
            duel: self.duel,
            ctf: self.ctf,
            ffa: self.ffa,
            sacrifice: self.sacrifice,
            objective: self.objective,
            tdm_2v2: self.tdm_2v2,
        }
    }
}

/// The name index held as a list of entries: a later entry for a name takes
/// precedence over an earlier one.
pub open spec fn index_map(s: Seq<(String, u64)>) -> Map<Seq<char>, u64>
    decreases s.len(),
{
    if s.len() == 0 {
        Map::empty()
    } else {
        index_map(s.drop_last()).insert(s.last().0@, s.last().1)
    }
}

/// The entry at `i` is the last one named `n`, so the index maps `n` to it.
pub proof fn lemma_index_map_last(s: Seq<(String, u64)>, i: int, n: Seq<char>)
    requires
        0 <= i < s.len(),
        s[i].0@ == n,
        forall|j: int| i < j < s.len() ==> (#[trigger] s[j]).0@ != n,
    ensures
        index_map(s).contains_key(n),
        index_map(s)[n] == s[i].1,
    decreases s.len(),
{
    if i < s.len() - 1 {
        assert(s.last() == s[s.len() - 1]);
        assert forall|j: int| i < j < s.drop_last().len() implies (#[trigger] s.drop_last()[j]).0@
            != n by {
            assert(s.drop_last()[j] == s[j]);
        }
        lemma_index_map_last(s.drop_last(), i, n);
    }
}

/// No entry is named `n`, so the index does not hold `n`.
pub proof fn lemma_index_map_absent(s: Seq<(String, u64)>, n: Seq<char>)
    requires
        forall|j: int| 0 <= j < s.len() ==> (#[trigger] s[j]).0@ != n,
    ensures
        !index_map(s).contains_key(n),
    decreases s.len(),
{
    if s.len() > 0 {
        assert(s.last() == s[s.len() - 1]);
        assert forall|j: int| 0 <= j < s.drop_last().len() implies (#[trigger] s.drop_last()[
            j]).0@ != n by {
            assert(s.drop_last()[j] == s[j]);
        }
        lemma_index_map_absent(s.drop_last(), n);
    }
}

/// Some entry is named `n`, so the index holds `n`.
pub proof fn lemma_index_map_present(s: Seq<(String, u64)>, i: int)
    requires
        0 <= i < s.len(),
    ensures
        index_map(s).contains_key(s[i].0@),
    decreases s.len(),
{
    if i < s.len() - 1 {
        assert(s.drop_last()[i] == s[i]);
        lemma_index_map_present(s.drop_last(), i);
    }
}

/// `e` with its quake name replaced by `name`.
pub open spec fn renamed(e: PlayerElo, name: String) -> PlayerElo {
    PlayerElo {
        quake_name: name,
        killing: e.killing,
        ranked_duel: e.ranked_duel,
        tdm: e.tdm,
        sacrifice_tournament: e.sacrifice_tournament,
        instagib: e.instagib,
        slipgate: e.slipgate,
        duel: e.duel,
        ctf: e.ctf,
        ffa: e.ffa,
        sacrifice: e.sacrifice,
        objective: e.objective,
        tdm_2v2: e.tdm_2v2,
    }
}

/// Some player in `elos` holds the quake name `n`.
pub open spec fn name_taken(elos: Map<u64, PlayerElo>, n: Seq<char>) -> bool {
    exists|id: u64| elos.contains_key(id) && #[trigger] elos[id].quake_name@ == n
}

/// `id` is the highest discord id of a player in `elos` named `n`.
pub open spec fn is_highest_named(elos: Map<u64, PlayerElo>, n: Seq<char>, id: u64) -> bool {
    &&& elos.contains_key(id)
    &&& elos[id].quake_name@ == n
    &&& forall|j: u64| elos.contains_key(j) && #[trigger] elos[j].quake_name@ == n ==> j <= id
}

/// The index rebuilt from scratch: every name a player holds, mapped to the
/// highest discord id holding it.
pub open spec fn highest_id_by_name(elos: Map<u64, PlayerElo>) -> Map<Seq<char>, u64> {
    Map::new(
        |n: Seq<char>| name_taken(elos, n),
        |n: Seq<char>| choose|id: u64| is_highest_named(elos, n, id),
    )
}

/// The players of `elos` as (name, id) entries by strictly increasing id.
fn roster(elos: &BTreeMap<u64, PlayerElo>) -> (r: Vec<(String, u64)>)
    ensures
        forall|i: int|
            0 <= i < r@.len() ==> elos@.contains_key(#[trigger] r@[i].1) && elos@[r@[i].1].quake_name
                == r@[i].0,
        forall|i: int, j: int| 0 <= i < j < r@.len() ==> #[trigger] r@[i].1 < #[trigger] r@[j].1,
        forall|id: u64| #[trigger] elos@.contains_key(id) ==> exists|i: int|
            0 <= i < r@.len() && r@[i].1 == id,
{
    let mut r: Vec<(String, u64)> = Vec::new();
    let ghost src = spec_btree_map_iter(elos).remaining();
    for kv in it: elos.iter()
        invariant
            it.seq() == src,
            r@.len() == it.index(),
            forall|i: int|
                0 <= i < it.index() ==> r@[i] == ((*it.seq()[i].1).quake_name, *it.seq()[i].0),
    {
        r.push((kv.1.quake_name.clone(), *kv.0));
    }
    proof {
        let keys = src.map_values(|kv: (&u64, &PlayerElo)| *kv.0);
        assert(increasing_seq(keys));
        assert forall|i: int, j: int| 0 <= i < j < r@.len() implies #[trigger] r@[i].1
            < #[trigger] r@[j].1 by {
            assert(keys[i] == r@[i].1);
            assert(keys[j] == r@[j].1);
            assert(keys[i].cmp_spec(&keys[j]) is Less);
        }
        assert forall|i: int| 0 <= i < r@.len() implies elos@.contains_key(#[trigger] r@[i].1)
            && elos@[r@[i].1].quake_name == r@[i].0 by {
            assert(elos@.contains_key(*src[i].0));
        }
        assert forall|id: u64| #[trigger] elos@.contains_key(id) implies exists|i: int|
            0 <= i < r@.len() && r@[i].1 == id by {
            assert(src.contains((&id, &elos@[id])));
            let i = choose|i: int| 0 <= i < src.len() && src[i] == (&id, &elos@[id]);
            assert(r@[i].1 == id);
        }
    }
    r
}

/// A roster of `elos` indexes every name at its highest id.
proof fn lemma_roster_index(elos: Map<u64, PlayerElo>, s: Seq<(String, u64)>)
    requires
        forall|i: int|
            0 <= i < s.len() ==> elos.contains_key(#[trigger] s[i].1) && elos[s[i].1].quake_name
                == s[i].0,
        forall|i: int, j: int| 0 <= i < j < s.len() ==> #[trigger] s[i].1 < #[trigger] s[j].1,
        forall|id: u64| #[trigger] elos.contains_key(id) ==> exists|i: int|
            0 <= i < s.len() && s[i].1 == id,
    ensures
        index_map(s) == highest_id_by_name(elos),
{
    let h = highest_id_by_name(elos);
    let m = index_map(s);
    assert forall|n: Seq<char>| m.contains_key(n) <==> h.contains_key(n) by {
        if h.contains_key(n) {
            let id = choose|id: u64| elos.contains_key(id) && #[trigger] elos[id].quake_name@ == n;
            let i = choose|i: int| 0 <= i < s.len() && s[i].1 == id;
            lemma_index_map_present(s, i);
        }
        if m.contains_key(n) {
            if !h.contains_key(n) {
                assert forall|j: int| 0 <= j < s.len() implies (#[trigger] s[j]).0@ != n by {
                    assert(elos.contains_key(s[j].1));
                }
                lemma_index_map_absent(s, n);
            }
        }
    }
    assert forall|n: Seq<char>| #[trigger] m.contains_key(n) implies m[n] == h[n] by {
        let k = lemma_last_named(s, n);
        lemma_index_map_last(s, k, n);
        let top = s[k].1;
        assert(elos.contains_key(top));
        assert forall|j: u64| elos.contains_key(j) && #[trigger] elos[j].quake_name@ == n implies j
            <= top by {
            let i = choose|i: int| 0 <= i < s.len() && s[i].1 == j;
            assert(s[i].0@ == n);
            if i > k {
                assert(s[i].0@ != n);
            }
            if i < k {
                assert(s[i].1 < s[k].1);
            }
        }
        assert(is_highest_named(elos, n, top));
        let c = choose|id: u64| is_highest_named(elos, n, id);
        assert(is_highest_named(elos, n, c));
        assert(c <= top && top <= c);
    }
    assert(m =~= h);
}

/// The position of the last entry named `n`, where the index holds `n`.
proof fn lemma_last_named(s: Seq<(String, u64)>, n: Seq<char>) -> (k: int)
    requires
        index_map(s).contains_key(n),
    ensures
        0 <= k < s.len(),
        s[k].0@ == n,
        forall|j: int| k < j < s.len() ==> (#[trigger] s[j]).0@ != n,
    decreases s.len(),
{
    if s.len() == 0 {
        assert(false);
        0
    } else if s.last().0@ == n {
        s.len() - 1
    } else {
        let k = lemma_last_named(s.drop_last(), n);
        assert(s.drop_last()[k] == s[k]);
        assert forall|j: int| k < j < s.len() implies (#[trigger] s[j]).0@ != n by {
            if j < s.len() - 1 {
                assert(s.drop_last()[j] == s[j]);
            }
        }
        k
    }
}

/// The names in `s` are strictly increasing.
pub open spec fn names_ascending(s: Seq<String>) -> bool {
    forall|i: int, j: int| 0 <= i < j < s.len() ==> name_less(#[trigger] s[i]@, #[trigger] s[j]@)
}

/// `n` is one of the names in `s`.
pub open spec fn lists_name(s: Seq<String>, n: Seq<char>) -> bool {
    exists|i: int| 0 <= i < s.len() && #[trigger] s[i]@ == n
}

/// Adds `name` to the ascending list `v` unless it is there already.
fn insert_name(v: &mut Vec<String>, name: String)
    requires
        names_ascending(old(v)@),
    ensures
        names_ascending(final(v)@),
        forall|n: Seq<char>| lists_name(final(v)@, n) <==> (lists_name(old(v)@, n) || n == name@),
{
    let mut j: usize = 0;
    while j < v.len() && text_less(v[j].as_str(), name.as_str())
        invariant
            j <= v@.len(),
            forall|i: int| 0 <= i < j ==> name_less(#[trigger] v@[i]@, name@),
        decreases v@.len() - j,
    {
        j += 1;
    }
    if j < v.len() && str_eq(v[j].as_str(), name.as_str()) {
        return;
    }
    let ghost before = v@;
    proof {
        if j < before.len() {
            lemma_name_less_total(before[j as int]@, name@);
        }
    }
    v.insert(j, name);
    proof {
        let after = v@;
        assert forall|a: int, b: int| 0 <= a < b < after.len() implies name_less(
            #[trigger] after[a]@,
            #[trigger] after[b]@,
        ) by {
            if b < j {
                assert(name_less(before[a]@, before[b]@));
            } else if b == j {
                assert(after[b] == name);
                assert(after[a] == before[a]);
            } else if a == j {
                assert(after[b] == before[b - 1]);
                if b - 1 > j {
                    assert(name_less(before[j as int]@, before[b - 1]@));
                    lemma_name_less_transitive(name@, before[j as int]@, before[b - 1]@);
                }
            } else if a < j {
                assert(after[a] == before[a]);
                assert(after[b] == before[b - 1]);
                assert(name_less(before[a]@, before[b - 1]@));
            } else {
                assert(after[a] == before[a - 1]);
                assert(after[b] == before[b - 1]);
                assert(name_less(before[a - 1]@, before[b - 1]@));
            }
        }
        assert forall|n: Seq<char>| lists_name(after, n) <==> (lists_name(before, n) || n == name@) by {
            if lists_name(after, n) {
                let i = choose|i: int| 0 <= i < after.len() && #[trigger] after[i]@ == n;
                if i < j {
                    assert(after[i] == before[i]);
                } else if i > j {
                    assert(after[i] == before[i - 1]);
                }
            }
            if lists_name(before, n) {
                let i = choose|i: int| 0 <= i < before.len() && #[trigger] before[i]@ == n;
                if i < j {
                    assert(after[i] == before[i]);
                } else {
                    assert(after[i + 1] == before[i]);
                }
            }
            if n == name@ {
                assert(after[j as int]@ == n);
            }
        }
    }
}

/// The entries' names are strictly increasing, so each name occurs once.
pub open spec fn names_strict(s: Seq<(String, u64)>) -> bool {
    forall|i: int, j: int| 0 <= i < j < s.len() ==> name_less(#[trigger] s[i].0@, #[trigger] s[j].0@)
}

/// In a list with strictly increasing names, the index holds exactly the
/// names listed, each at its own entry's id.
pub proof fn lemma_strict_lookup(s: Seq<(String, u64)>, m: Seq<char>)
    requires
        names_strict(s),
    ensures
        index_map(s).contains_key(m) <==> exists|i: int| 0 <= i < s.len() && #[trigger] s[i].0@ == m,
        forall|i: int| 0 <= i < s.len() && #[trigger] s[i].0@ == m ==> index_map(s)[m] == s[i].1,
{
    if exists|i: int| 0 <= i < s.len() && #[trigger] s[i].0@ == m {
        let i = choose|i: int| 0 <= i < s.len() && #[trigger] s[i].0@ == m;
        assert forall|j: int| i < j < s.len() implies (#[trigger] s[j]).0@ != m by {
            assert(name_less(s[i].0@, s[j].0@));
            lemma_name_less_irreflexive(m);
        }
        lemma_index_map_last(s, i, m);
        assert forall|k: int| 0 <= k < s.len() && #[trigger] s[k].0@ == m implies index_map(s)[m]
            == s[k].1 by {
            if k != i {
                if k < i {
                    assert(name_less(s[k].0@, s[i].0@));
                } else {
                    assert(name_less(s[i].0@, s[k].0@));
                }
                lemma_name_less_irreflexive(m);
            }
        }
    } else {
        assert forall|j: int| 0 <= j < s.len() implies (#[trigger] s[j]).0@ != m by {
            if s[j].0@ == m {
                assert(s[j].0@ == m);
            }
        }
        lemma_index_map_absent(s, m);
    }
}

/// Dropping the one entry at `i` drops its name from the index and keeps
/// the rest.
proof fn lemma_removed_lookup(before: Seq<(String, u64)>, i: int, m: Seq<char>)
    requires
        names_strict(before),
        names_strict(before.remove(i)),
        0 <= i < before.len(),
    ensures
        index_map(before.remove(i)).contains_key(m) == index_map(before).remove(before[i].0@).contains_key(m),
        index_map(before.remove(i)).contains_key(m) ==> index_map(before.remove(i))[m] == index_map(before)[m],
{
    let after = before.remove(i);
    let n = before[i].0@;
    lemma_strict_lookup(before, m);
    lemma_strict_lookup(after, m);
    if exists|j: int| 0 <= j < after.len() && #[trigger] after[j].0@ == m {
        let j = choose|j: int| 0 <= j < after.len() && #[trigger] after[j].0@ == m;
        if j < i {
            assert(before[j].0@ == m);
            assert(name_less(before[j].0@, before[i].0@));
            lemma_name_less_irreflexive(m);
        } else {
            assert(before[j + 1].0@ == m);
            assert(name_less(before[i].0@, before[j + 1].0@));
            lemma_name_less_irreflexive(m);
        }
    }
    if m != n && exists|j: int| 0 <= j < before.len() && #[trigger] before[j].0@ == m {
        let j = choose|j: int| 0 <= j < before.len() && #[trigger] before[j].0@ == m;
        if j < i {
            assert(after[j].0@ == m);
        } else {
            assert(j != i);
            assert(after[j - 1].0@ == m);
        }
    }
}

/// Putting `(n, id)` at `i`, over the entry there (`found`) or before it,
/// indexes `n` under `id` and keeps the rest.
proof fn lemma_inserted_lookup(
    before: Seq<(String, u64)>,
    after: Seq<(String, u64)>,
    i: int,
    found: bool,
    n: Seq<char>,
    id: u64,
    m: Seq<char>,
)
    requires
        names_strict(before),
        names_strict(after),
        0 <= i <= before.len(),
        found ==> i < before.len() && before[i].0@ == n && after.len() == before.len(),
        !found ==> after.len() == before.len() + 1,
        after[i].0@ == n,
        after[i].1 == id,
        forall|j: int| 0 <= j < i ==> after[j] == before[j],
        forall|j: int| i < j < after.len() ==> after[j] == before[if found { j } else { j - 1 }],
    ensures
        index_map(after).contains_key(m) == index_map(before).insert(n, id).contains_key(m),
        index_map(after).contains_key(m) ==> index_map(after)[m] == index_map(before).insert(n, id)[m],
{
    lemma_strict_lookup(before, m);
    lemma_strict_lookup(after, m);
    if m == n {
        assert(after[i].0@ == m);
    } else {
        if exists|j: int| 0 <= j < after.len() && #[trigger] after[j].0@ == m {
            let j = choose|j: int| 0 <= j < after.len() && #[trigger] after[j].0@ == m;
            if j < i {
                assert(before[j].0@ == m);
            } else if found {
                assert(before[j].0@ == m);
            } else {
                assert(before[j - 1].0@ == m);
            }
        }
        if exists|j: int| 0 <= j < before.len() && #[trigger] before[j].0@ == m {
            let j = choose|j: int| 0 <= j < before.len() && #[trigger] before[j].0@ == m;
            if j < i {
                assert(after[j].0@ == m);
            } else if found {
                assert(j != i);
                assert(after[j].0@ == m);
            } else {
                assert(after[j + 1].0@ == m);
            }
        }
    }
}

/// Where `name` belongs in a list with strictly increasing names: every
/// entry before the position comes before `name`, none after it does.
fn position(s: &Vec<(String, u64)>, name: &str) -> (r: usize)
    requires
        names_strict(s@),
    ensures
        r <= s@.len(),
        forall|i: int| 0 <= i < r ==> name_less(#[trigger] s@[i].0@, name@),
        forall|i: int| r <= i < s@.len() ==> !name_less(#[trigger] s@[i].0@, name@),
{
    let mut lo: usize = 0;
    let mut hi: usize = s.len();
    while lo < hi
        invariant
            lo <= hi <= s@.len(),
            names_strict(s@),
            forall|i: int| 0 <= i < lo ==> name_less(#[trigger] s@[i].0@, name@),
            forall|i: int| hi <= i < s@.len() ==> !name_less(#[trigger] s@[i].0@, name@),
        decreases hi - lo,
    {
        let mid = lo + (hi - lo) / 2;
        if text_less(s[mid].0.as_str(), name) {
            proof {
                assert forall|i: int| 0 <= i < mid + 1 implies name_less(#[trigger] s@[i].0@, name@) by {
                    if i < mid {
                        assert(name_less(s@[i].0@, s@[mid as int].0@));
                        lemma_name_less_transitive(s@[i].0@, s@[mid as int].0@, name@);
                    }
                }
            }
            lo = mid + 1;
        } else {
            proof {
                assert forall|i: int| mid <= i < s@.len() implies !name_less(#[trigger] s@[i].0@, name@) by {
                    if i > mid && name_less(s@[i].0@, name@) {
                        assert(name_less(s@[mid as int].0@, s@[i].0@));
                        lemma_name_less_transitive(s@[mid as int].0@, s@[i].0@, name@);
                    }
                }
            }
            hi = mid;
        }
    }
    lo
}

/// An index from quake name to discord id, held as entries in increasing
/// order of name, so that a lookup is a binary search.
#[derive(Debug)]
pub struct NameIndex {
    entries: Vec<(String, u64)>,
}

impl View for NameIndex {
    type V = Map<Seq<char>, u64>;

    closed spec fn view(&self) -> Map<Seq<char>, u64> {
        index_map(self.entries@)
    }
}

impl NameIndex {
    #[verifier::type_invariant]
    spec fn names_in_order(self) -> bool {
        names_strict(self.entries@)
    }

    /// An empty index.
    pub fn new() -> (r: NameIndex)
        ensures
            r@ == Map::<Seq<char>, u64>::empty(),
    {
        NameIndex { entries: Vec::new() }
    }

    /// Every name a player of `elos` holds, mapped to the highest discord id holding it.
    pub fn of_players(elos: &BTreeMap<u64, PlayerElo>) -> (r: NameIndex)
        ensures
            r@ == highest_id_by_name(elos@),
    {
        let entries = roster(elos);
        let mut index = NameIndex::new();
        let mut k: usize = 0;
        while k < entries.len()
            invariant
                k <= entries@.len(),
                index@ == index_map(entries@.take(k as int)),
            decreases entries@.len() - k,
        {
            let name = entries[k].0.clone();
            index.insert(name, entries[k].1);
            proof {
                assert(entries@.take(k + 1).drop_last() =~= entries@.take(k as int));
            }
            k += 1;
        }
        proof {
            assert(entries@.take(entries@.len() as int) =~= entries@);
            lemma_roster_index(elos@, entries@);
        }
        index
    }

    /// The id indexed under `name`, if any.
    pub fn get(&self, name: &str) -> (r: Option<u64>)
        ensures
            r == (if self@.contains_key(name@) {
                Some(self@[name@])
            } else {
                None::<u64>
            }),
    {
        proof {
            use_type_invariant(self);
        }
        let s = &self.entries;
        let i = position(s, name);
        proof {
            lemma_strict_lookup(s@, name@);
        }
        if i < s.len() && str_eq(s[i].0.as_str(), name) {
            Some(s[i].1)
        } else {
            proof {
                assert forall|j: int| 0 <= j < s@.len() implies #[trigger] s@[j].0@ != name@ by {
                    lemma_name_less_irreflexive(name@);
                    if j > i {
                        lemma_name_less_total(s@[i as int].0@, name@);
                        assert(name_less(s@[i as int].0@, s@[j].0@));
                        if s@[j].0@ == name@ {
                            assert(name_less(name@, s@[i as int].0@));
                            lemma_name_less_asymmetric(name@, s@[i as int].0@);
                        }
                    }
                }
            }
            None
        }
    }

    /// Drops the entry for `name`.
    pub fn remove(&mut self, name: &str)
        ensures
            final(self)@ == old(self)@.remove(name@),
    {
        proof {
            use_type_invariant(&*self);
        }
        let mut s: Vec<(String, u64)> = Vec::new();
        std::mem::swap(&mut s, &mut self.entries);
        let ghost before = s@;
        let i = position(&s, name);
        if i < s.len() && str_eq(s[i].0.as_str(), name) {
            s.remove(i);
            proof {
                let after = s@;
                assert(after =~= before.remove(i as int));
                assert(names_strict(after)) by {
                    assert forall|a: int, b: int| 0 <= a < b < after.len() implies name_less(
                        #[trigger] after[a].0@,
                        #[trigger] after[b].0@,
                    ) by {
                        if b < i {
                            assert(name_less(before[a].0@, before[b].0@));
                        } else if a < i {
                            assert(name_less(before[a].0@, before[b + 1].0@));
                        } else {
                            assert(name_less(before[a + 1].0@, before[b + 1].0@));
                        }
                    }
                }
                let target = index_map(before).remove(name@);
                assert forall|m: Seq<char>| #[trigger] index_map(after).contains_key(m) == target.contains_key(m) by {
                    lemma_removed_lookup(before, i as int, m);
                }
                assert forall|m: Seq<char>| #[trigger] index_map(after).contains_key(m) implies index_map(after)[m] == target[m] by {
                    lemma_removed_lookup(before, i as int, m);
                }
                assert(index_map(after) =~= index_map(before).remove(name@));
            }
        } else {
            proof {
                lemma_strict_lookup(before, name@);
                assert forall|j: int| 0 <= j < before.len() implies #[trigger] before[j].0@ != name@ by {
                    lemma_name_less_irreflexive(name@);
                    if j > i {
                        lemma_name_less_total(before[i as int].0@, name@);
                        assert(name_less(before[i as int].0@, before[j].0@));
                        if before[j].0@ == name@ {
                            lemma_name_less_asymmetric(name@, before[i as int].0@);
                        }
                    }
                }
                assert(index_map(before) =~= index_map(before).remove(name@));
            }
        }
        self.entries = s;
    }

    /// Indexes `name` under `id`, replacing any entry it had.
    pub fn insert(&mut self, name: String, id: u64)
        ensures
            final(self)@ == old(self)@.insert(name@, id),
    {
        proof {
            use_type_invariant(&*self);
        }
        let mut s: Vec<(String, u64)> = Vec::new();
        std::mem::swap(&mut s, &mut self.entries);
        let ghost before = s@;
        let ghost n = name@;
        let i = position(&s, name.as_str());
        let found = i < s.len() && str_eq(s[i].0.as_str(), name.as_str());
        if found {
            s.set(i, (name, id));
        } else {
            s.insert(i, (name, id));
        }
        proof {
            let after = s@;
            if !found && i < before.len() {
                lemma_name_less_total(before[i as int].0@, n);
            }
            assert(names_strict(after)) by {
                assert forall|a: int, b: int| 0 <= a < b < after.len() implies name_less(
                    #[trigger] after[a].0@,
                    #[trigger] after[b].0@,
                ) by {
                    if found {
                        if a == i {
                            assert(before[a].0@ == n);
                            assert(name_less(before[a].0@, before[b].0@));
                        } else if b == i {
                            assert(name_less(before[a].0@, n));
                        } else {
                            assert(name_less(before[a].0@, before[b].0@));
                        }
                    } else {
                        if b < i {
                            assert(name_less(before[a].0@, before[b].0@));
                        } else if b == i {
                            assert(name_less(before[a].0@, n));
                        } else if a == i {
                            if b - 1 > i {
                                assert(name_less(before[i as int].0@, before[b - 1].0@));
                                lemma_name_less_transitive(n, before[i as int].0@, before[b - 1].0@);
                            }
                        } else if a < i {
                            assert(name_less(before[a].0@, before[b - 1].0@));
                        } else {
                            assert(name_less(before[a - 1].0@, before[b - 1].0@));
                        }
                    }
                }
            }
            let target = index_map(before).insert(n, id);
            assert forall|m: Seq<char>| #[trigger] index_map(after).contains_key(m) == target.contains_key(m) by {
                lemma_inserted_lookup(before, after, i as int, found, n, id, m);
            }
            assert forall|m: Seq<char>| #[trigger] index_map(after).contains_key(m) implies index_map(after)[m] == target[m] by {
                lemma_inserted_lookup(before, after, i as int, found, n, id, m);
            }
            assert(index_map(after) =~= index_map(before).insert(n, id));
        }
        self.entries = s;
    }
}

impl Clone for NameIndex {
    fn clone(&self) -> (r: NameIndex)
        ensures
            r@ == self@,
    {
        proof {
            use_type_invariant(self);
        }
        let mut entries: Vec<(String, u64)> = Vec::new();
        let mut k: usize = 0;
        while k < self.entries.len()
            invariant
                k <= self.entries@.len(),
                names_strict(self.entries@),
                entries@ == self.entries@.take(k as int),
            decreases self.entries@.len() - k,
        {
            let name = self.entries[k].0.clone();
            entries.push((name, self.entries[k].1));
            k += 1;
            proof {
                assert(entries@ =~= self.entries@.take(k as int));
            }
        }
        proof {
            assert(entries@ =~= self.entries@);
        }
        NameIndex { entries }
    }
}

/// Every registered player keyed by discord id, with an index from quake
/// name to discord id that the operations below keep in step with it.
#[derive(Debug, Clone)]
pub struct Db {
    pub elos: BTreeMap<u64, PlayerElo>,
    pub name_to_id: NameIndex,
}

impl Db {
    /// The player the index names `n`, if the index holds `n` and that id is registered.
    pub open spec fn spec_by_quake_name(self, n: Seq<char>) -> Option<PlayerElo> {
        if self.name_to_id@.contains_key(n) && self.elos@.contains_key(self.name_to_id@[n]) {
            Some(self.elos@[self.name_to_id@[n]])
        } else {
            None
        }
    }

    /// The index agrees with the players: every indexed name leads to a
    /// player holding that name, and every player's name is indexed.
    pub open spec fn consistent(self) -> bool {
        &&& forall|n: Seq<char>| #[trigger]
            self.name_to_id@.contains_key(n) ==> self.elos@.contains_key(self.name_to_id@[n])
                && self.elos@[self.name_to_id@[n]].quake_name@ == n
        &&& forall|id: u64| #[trigger]
            self.elos@.contains_key(id) ==> self.name_to_id@.contains_key(
                self.elos@[id].quake_name@,
            )
    }

    /// A table holding `elos`, indexed from scratch.
    pub fn from_elos(elos: BTreeMap<u64, PlayerElo>) -> (r: Db)
        ensures
            r.elos@ == elos@,
            r.name_to_id@ == highest_id_by_name(elos@),
            r.consistent(),
    {
        let name_to_id = NameIndex::of_players(&elos);
        let r = Db { elos, name_to_id };
        proof {
            lemma_reindexed_consistent(r);
        }
        r
    }

    /// Rebuilds the name index from the players; where two players share a
    /// name, the higher discord id wins.
    pub fn reindex(&mut self)
        ensures
            final(self).elos@ == old(self).elos@,
            final(self).name_to_id@ == highest_id_by_name(old(self).elos@),
            final(self).consistent(),
    {
        self.name_to_id = NameIndex::of_players(&self.elos);
        proof {
            lemma_reindexed_consistent(*self);
        }
    }

    /// The player the index names `quake_name`.
    pub fn by_quake_name(&self, quake_name: &str) -> (r: Option<&PlayerElo>)
        ensures
            match r {
                Some(e) => self.spec_by_quake_name(quake_name@) == Some(*e),
                None => self.spec_by_quake_name(quake_name@) is None,
            },
    {
        match self.name_to_id.get(quake_name) {
            Some(id) => self.elos.get(&id),
            None => None,
        }
    }

    /// Registers or replaces the player `discord_id`, moving the index entry
    /// of the name it held before to its new name.
    pub fn register(&mut self, discord_id: u64, elo: PlayerElo)
        ensures
            final(self).elos@ == old(self).elos@.insert(discord_id, elo),
            final(self).name_to_id@ == (if old(self).elos@.contains_key(discord_id) {
                old(self).name_to_id@.remove(old(self).elos@[discord_id].quake_name@)
            } else {
                old(self).name_to_id@
            }).insert(elo.quake_name@, discord_id),
            final(self).spec_by_quake_name(elo.quake_name@) == Some(elo),
            old(self).consistent() && unique_names(old(self).elos@) && !name_taken(
                old(self).elos@.remove(discord_id),
                elo.quake_name@,
            ) ==> final(self).consistent() && unique_names(final(self).elos@),
    {
        proof {
            if old(self).consistent() && unique_names(old(self).elos@) && !name_taken(
                old(self).elos@.remove(discord_id),
                elo.quake_name@,
            ) {
                lemma_register_keeps_consistent(*old(self), discord_id, elo);
            }
        }
        match self.elos.get(&discord_id) {
            Some(previous) => {
                let previous_name = previous.quake_name.clone();
                self.name_to_id.remove(previous_name.as_str());
            },
            None => {},
        }
        self.name_to_id.insert(elo.quake_name.clone(), discord_id);
        self.elos.insert(discord_id, elo);
    }

    /// Renaming keeps the player's scores: `renamed` changes the quake name
    /// and nothing else.
    pub proof fn lemma_renamed_keeps_scores(e: PlayerElo, name: String)
        ensures
            renamed(e, name).quake_name == name,
            forall|m: GameMode| #[trigger] renamed(e, name).spec_score(m) == e.spec_score(m),
    {
    }

    /// Renames the player `discord_id` and moves its index entry; gives back
    /// the name it held, or `None` (changing nothing) if no player has that id.
    pub fn rename(&mut self, discord_id: u64, new_name: String) -> (r: Option<String>)
        ensures
            old(self).elos@.contains_key(discord_id) ==> {
                &&& r == Some(old(self).elos@[discord_id].quake_name)
                &&& final(self).elos@.contains_key(discord_id)
                &&& final(self).elos@[discord_id].quake_name == new_name
                &&& forall|m: GameMode| #[trigger] final(self).elos@[discord_id].spec_score(m)
                    == old(self).elos@[discord_id].spec_score(m)
                &&& forall|other: u64| other != discord_id ==> #[trigger] final(self).elos@.contains_key(other)
                    == old(self).elos@.contains_key(other) && (old(self).elos@.contains_key(other)
                    ==> final(self).elos@[other] == old(self).elos@[other])
                &&& final(self).elos@ == old(self).elos@.insert(
                    discord_id,
                    renamed(old(self).elos@[discord_id], new_name),
                )
                &&& final(self).name_to_id@ == old(self).name_to_id@.remove(
                    old(self).elos@[discord_id].quake_name@,
                ).insert(new_name@, discord_id)
                &&& final(self).spec_by_quake_name(new_name@) == Some(
                    renamed(old(self).elos@[discord_id], new_name),
                )
                &&& old(self).elos@[discord_id].quake_name@ != new_name@
                    ==> final(self).spec_by_quake_name(old(self).elos@[discord_id].quake_name@) is None
                &&& old(self).consistent() && unique_names(old(self).elos@) && !name_taken(
                    old(self).elos@.remove(discord_id),
                    new_name@,
                ) ==> final(self).consistent() && unique_names(final(self).elos@)
            },
            !old(self).elos@.contains_key(discord_id) ==> {
                &&& r is None
                &&& final(self).elos@ == old(self).elos@
                &&& final(self).name_to_id@ == old(self).name_to_id@
            },
    {
        proof {
            Db::lemma_renamed_keeps_scores(old(self).elos@[discord_id], new_name);
            if old(self).elos@.contains_key(discord_id) && old(self).consistent() && unique_names(
                old(self).elos@,
            ) && !name_taken(old(self).elos@.remove(discord_id), new_name@) {
                lemma_register_keeps_consistent(
                    *old(self),
                    discord_id,
                    renamed(old(self).elos@[discord_id], new_name),
                );
            }
        }
        let (mut updated, old_name) = match self.elos.get(&discord_id) {
            Some(e) => (e.duplicate(), e.quake_name.clone()),
            None => {
                return None;
            },
        };
        self.name_to_id.remove(old_name.as_str());
        self.name_to_id.insert(new_name.clone(), discord_id);
        updated.quake_name = new_name;
        self.elos.insert(discord_id, updated);
        Some(old_name)
    }

    /// Every quake name a player holds, each once, in ascending order.
    pub fn quake_names(&self) -> (r: Vec<String>)
        ensures
            names_ascending(r@),
            forall|n: Seq<char>| lists_name(r@, n) <==> name_taken(self.elos@, n),
    {
        let entries = roster(&self.elos);
        let mut names: Vec<String> = Vec::new();
        let mut k: usize = 0;
        while k < entries.len()
            invariant
                k <= entries@.len(),
                names_ascending(names@),
                forall|i: int|
                    0 <= i < entries@.len() ==> self.elos@.contains_key(#[trigger] entries@[i].1)
                        && self.elos@[entries@[i].1].quake_name == entries@[i].0,
                forall|n: Seq<char>| lists_name(names@, n) <==> exists|i: int|
                    0 <= i < k && #[trigger] entries@[i].0@ == n,
            decreases entries@.len() - k,
        {
            let name = entries[k].0.clone();
            insert_name(&mut names, name);
            k += 1;
            proof {
                assert forall|n: Seq<char>| lists_name(names@, n) <==> exists|i: int|
                    0 <= i < k && #[trigger] entries@[i].0@ == n by {
                    if n == entries@[k - 1].0@ {
                        assert(entries@[k - 1].0@ == n);
                    }
                }
            }
        }
        proof {
            assert forall|n: Seq<char>| lists_name(names@, n) <==> name_taken(self.elos@, n) by {
                if name_taken(self.elos@, n) {
                    let id = choose|id: u64| self.elos@.contains_key(id) && #[trigger] self.elos@[id].quake_name@ == n;
                    let i = choose|i: int| 0 <= i < entries@.len() && entries@[i].1 == id;
                    assert(entries@[i].0@ == n);
                }
                if lists_name(names@, n) {
                    let i = choose|i: int| 0 <= i < k && #[trigger] entries@[i].0@ == n;
                    assert(self.elos@.contains_key(entries@[i].1));
                    assert(self.elos@[entries@[i].1].quake_name@ == n);
                }
            }
        }
        names
    }

    /// The score in `mode` of the player the index names `quake_name`.
    pub fn score_for(&self, quake_name: &str, mode: GameMode) -> (r: Option<i64>)
        ensures
            r == (match self.spec_by_quake_name(quake_name@) {
                Some(e) => Some(e.spec_score(mode)),
                None => None::<i64>,
            }),
    {
        match self.by_quake_name(quake_name) {
            Some(e) => Some(e.score(mode)),
            None => None,
        }
    }
}

impl Default for Db {
    fn default() -> (r: Db)
        ensures
            r.elos@ == Map::<u64, PlayerElo>::empty(),
            r.name_to_id@ == Map::<Seq<char>, u64>::empty(),
            r.consistent(),
    {
        Db { elos: BTreeMap::new(), name_to_id: NameIndex::new() }
    }
}

/// Which source a table was loaded from at boot.
#[derive(Debug)]
pub enum LoadOutcome {
    Local(Db),
    Remote(Db),
    Empty,
}

/// Picks the table to boot with: the local file's if it parsed, else the
/// remote backup's if it parsed, else an empty table. Each argument is the
/// table parsed from that source, `None` where the source was missing or did
/// not parse.
pub fn decide_load(local: Option<Db>, remote: Option<Db>) -> (r: LoadOutcome)
    ensures
        match local {
            Some(db) => r == LoadOutcome::Local(db),
            None => match remote {
                Some(db) => r == LoadOutcome::Remote(db),
                None => r == LoadOutcome::Empty,
            },
        },
{
    match local {
        Some(db) => LoadOutcome::Local(db),
        None => match remote {
            Some(db) => LoadOutcome::Remote(db),
            None => LoadOutcome::Empty,
        },
    }
}

/// No two players hold the same quake name.
pub open spec fn unique_names(elos: Map<u64, PlayerElo>) -> bool {
    forall|a: u64, b: u64|
        elos.contains_key(a) && elos.contains_key(b) && a != b ==> #[trigger] elos[a].quake_name@
            != #[trigger] elos[b].quake_name@
}

/// An index rebuilt from scratch agrees with the players.
pub proof fn lemma_reindexed_consistent(db: Db)
    requires
        db.name_to_id@ == highest_id_by_name(db.elos@),
    ensures
        db.consistent(),
{
    let elos = db.elos@;
    assert forall|n: Seq<char>| #[trigger] db.name_to_id@.contains_key(n) implies db.elos@.contains_key(
        db.name_to_id@[n],
    ) && db.elos@[db.name_to_id@[n]].quake_name@ == n by {
        let id = choose|id: u64| elos.contains_key(id) && #[trigger] elos[id].quake_name@ == n;
        lemma_highest_named_exists(elos, n, id);
    }
    assert forall|id: u64| #[trigger] db.elos@.contains_key(id) implies db.name_to_id@.contains_key(
        db.elos@[id].quake_name@,
    ) by {
        assert(name_taken(elos, elos[id].quake_name@));
    }
}

/// Where some player holds `n`, a highest id holding `n` exists.
pub proof fn lemma_highest_named_exists(elos: Map<u64, PlayerElo>, n: Seq<char>, id: u64)
    requires
        elos.contains_key(id),
        elos[id].quake_name@ == n,
    ensures
        is_highest_named(elos, n, choose|h: u64| is_highest_named(elos, n, h)),
    decreases u64::MAX - id,
{
    if !is_highest_named(elos, n, id) {
        let j = choose|j: u64| elos.contains_key(j) && #[trigger] elos[j].quake_name@ == n && !(j <= id);
        lemma_highest_named_exists(elos, n, j);
    }
}

/// Writing a player whose name no other player holds keeps a consistent
/// table with unique names consistent, with unique names.
pub proof fn lemma_register_keeps_consistent(db: Db, id: u64, elo: PlayerElo)
    requires
        db.consistent(),
        unique_names(db.elos@),
        !name_taken(db.elos@.remove(id), elo.quake_name@),
    ensures
        ({
            let elos = db.elos@.insert(id, elo);
            let index = (if db.elos@.contains_key(id) {
                db.name_to_id@.remove(db.elos@[id].quake_name@)
            } else {
                db.name_to_id@
            }).insert(elo.quake_name@, id);
            &&& unique_names(elos)
            &&& forall|n: Seq<char>| #[trigger]
                index.contains_key(n) ==> elos.contains_key(index[n]) && elos[index[n]].quake_name@
                    == n
            &&& forall|k: u64| #[trigger]
                elos.contains_key(k) ==> index.contains_key(elos[k].quake_name@)
        }),
{
    let elos = db.elos@.insert(id, elo);
    let index = (if db.elos@.contains_key(id) {
        db.name_to_id@.remove(db.elos@[id].quake_name@)
    } else {
        db.name_to_id@
    }).insert(elo.quake_name@, id);
    assert forall|a: u64, b: u64|
        elos.contains_key(a) && elos.contains_key(b) && a != b implies #[trigger] elos[a].quake_name@
        != #[trigger] elos[b].quake_name@ by {
        if a == id {
            assert(db.elos@.remove(id).contains_key(b));
            assert(db.elos@.remove(id)[b] == elos[b]);
        } else if b == id {
            assert(db.elos@.remove(id).contains_key(a));
            assert(db.elos@.remove(id)[a] == elos[a]);
        } else {
            assert(db.elos@[a].quake_name@ != db.elos@[b].quake_name@);
        }
    }
    assert forall|n: Seq<char>| #[trigger] index.contains_key(n) implies elos.contains_key(index[n])
        && elos[index[n]].quake_name@ == n by {
        if n != elo.quake_name@ {
            let k = db.name_to_id@[n];
            assert(db.elos@.contains_key(k) && db.elos@[k].quake_name@ == n);
            if k == id {
                assert(db.elos@.contains_key(id));
                assert(false);
            }
        }
    }
    assert forall|k: u64| #[trigger] elos.contains_key(k) implies index.contains_key(
        elos[k].quake_name@,
    ) by {
        if k != id {
            let n = db.elos@[k].quake_name@;
            assert(db.name_to_id@.contains_key(n));
            if db.elos@.contains_key(id) && n == db.elos@[id].quake_name@ {
                assert(db.elos@[id].quake_name@ != db.elos@[k].quake_name@);
            }
        }
    }
}

/// In a consistent table a lookup by quake name finds a player exactly when
/// some player holds that name, and the player it finds holds it.
pub proof fn lemma_consistent_lookup(db: Db, n: Seq<char>)
    requires
        db.consistent(),
    ensures
        db.spec_by_quake_name(n) is Some <==> name_taken(db.elos@, n),
        db.spec_by_quake_name(n) matches Some(e) ==> e.quake_name@ == n,
{
    if name_taken(db.elos@, n) {
        let id = choose|id: u64| db.elos@.contains_key(id) && #[trigger] db.elos@[id].quake_name@ == n;
        assert(db.name_to_id@.contains_key(db.elos@[id].quake_name@));
    }
    if db.spec_by_quake_name(n) is Some {
        let k = db.name_to_id@[n];
        assert(db.elos@[k].quake_name@ == n);
    }
}

} // verus!
