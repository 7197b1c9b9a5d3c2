//! Score tables keyed by discord id, read as the list of their entries by
//! increasing id, and the sums of the scores they hold.

use vstd::prelude::*;
use std::collections::BTreeMap;
use vstd::std_specs::btree::{spec_btree_map_iter, increasing_seq};
use vstd::std_specs::iter::IteratorSpec;
use vstd::std_specs::cmp::OrdSpec;

verus! {

/// `s` lists every entry of `m` exactly once, by strictly increasing key.
pub open spec fn is_listing(s: Seq<(u64, i64)>, m: Map<u64, i64>) -> bool {
    &&& forall|i: int, j: int| 0 <= i < j < s.len() ==> #[trigger] s[i].0 < #[trigger] s[j].0
    &&& forall|i: int| 0 <= i < s.len() ==> #[trigger] m.contains_key(s[i].0) && m[s[i].0] == s[i].1
    &&& forall|k: u64| #[trigger] m.contains_key(k) ==> exists|i: int| 0 <= i < s.len() && s[i].0 == k
}

/// The entries of `m` by increasing key.
pub open spec fn listing(m: Map<u64, i64>) -> Seq<(u64, i64)> {
    choose|s: Seq<(u64, i64)>| is_listing(s, m)
}

/// Two listings of the same table are the same sequence.
pub proof fn lemma_listing_unique(s1: Seq<(u64, i64)>, s2: Seq<(u64, i64)>, m: Map<u64, i64>)
    requires
        is_listing(s1, m),
        is_listing(s2, m),
    ensures
        s1 == s2,
    decreases s1.len(),
{
    if s1.len() == 0 {
        if s2.len() > 0 {
            assert(m.contains_key(s2[0].0));
        }
        assert(s1 =~= s2);
    } else {
        if s2.len() == 0 {
            assert(m.contains_key(s1[0].0));
        }
        let k1 = s1[0].0;
        let k2 = s2[0].0;
        assert(m.contains_key(k1));
        assert(m.contains_key(k2));
        let j1 = choose|i: int| 0 <= i < s2.len() && s2[i].0 == k1;
        let j2 = choose|i: int| 0 <= i < s1.len() && s1[i].0 == k2;
        if j1 > 0 {
            assert(s2[0].0 < s2[j1].0);
        }
        if j2 > 0 {
            assert(s1[0].0 < s1[j2].0);
        }
        assert(k1 == k2);
        let m2 = m.remove(k1);
        let t1 = s1.drop_first();
        let t2 = s2.drop_first();
        assert forall|k: u64| #[trigger] m2.contains_key(k) implies exists|i: int|
            0 <= i < t1.len() && t1[i].0 == k by {
            let i = choose|i: int| 0 <= i < s1.len() && s1[i].0 == k;
            assert(i != 0);
            assert(t1[i - 1].0 == k);
        }
        assert forall|k: u64| #[trigger] m2.contains_key(k) implies exists|i: int|
            0 <= i < t2.len() && t2[i].0 == k by {
            let i = choose|i: int| 0 <= i < s2.len() && s2[i].0 == k;
            assert(i != 0);
            assert(t2[i - 1].0 == k);
        }
        assert forall|i: int| 0 <= i < t1.len() implies #[trigger] m2.contains_key(t1[i].0)
            && m2[t1[i].0] == t1[i].1 by {
            assert(t1[i] == s1[i + 1]);
            assert(s1[0].0 < s1[i + 1].0);
        }
        assert forall|i: int| 0 <= i < t2.len() implies #[trigger] m2.contains_key(t2[i].0)
            && m2[t2[i].0] == t2[i].1 by {
            assert(t2[i] == s2[i + 1]);
            assert(s2[0].0 < s2[i + 1].0);
        }
        assert forall|i: int, j: int| 0 <= i < j < t1.len() implies #[trigger] t1[i].0
            < #[trigger] t1[j].0 by {
            assert(s1[i + 1].0 < s1[j + 1].0);
        }
        assert forall|i: int, j: int| 0 <= i < j < t2.len() implies #[trigger] t2[i].0
            < #[trigger] t2[j].0 by {
            assert(s2[i + 1].0 < s2[j + 1].0);
        }
        lemma_listing_unique(t1, t2, m2);
        assert(s1 =~= seq![s1[0]] + t1);
        assert(s2 =~= seq![s2[0]] + t2);
    }
}

/// The entries of a table, by increasing key.
pub fn entries(m: &BTreeMap<u64, i64>) -> (r: Vec<(u64, i64)>)
    ensures
        r@.len() == m@.dom().len(),
        is_listing(r@, m@),
        r@ == listing(m@),
{
    let mut r: Vec<(u64, i64)> = Vec::new();
    let ghost src = spec_btree_map_iter(m).remaining();
    for kv in it: m.iter()
        invariant
            it.seq() == src,
            r@.len() == it.index(),
            forall|i: int| 0 <= i < it.index() ==> r@[i] == (*it.seq()[i].0, *it.seq()[i].1),
    {
        r.push((*kv.0, *kv.1));
    }
    proof {
        let keys = src.map_values(|kv: (&u64, &i64)| *kv.0);
        assert(increasing_seq(keys));
        assert forall|i: int, j: int| 0 <= i < j < r@.len() implies #[trigger] r@[i].0
            < #[trigger] r@[j].0 by {
            assert(keys[i] == r@[i].0);
            assert(keys[j] == r@[j].0);
            assert(keys[i].cmp_spec(&keys[j]) is Less);
        }
        assert forall|i: int| 0 <= i < r@.len() implies #[trigger] m@.contains_key(r@[i].0)
            && m@[r@[i].0] == r@[i].1 by {
            assert(m@.contains_key(*src[i].0));
        }
        assert forall|k: u64| #[trigger] m@.contains_key(k) implies exists|i: int|
            0 <= i < r@.len() && r@[i].0 == k by {
            assert(src.contains((&k, &m@[k])));
            let i = choose|i: int| 0 <= i < src.len() && src[i] == (&k, &m@[k]);
            assert(r@[i].0 == k);
        }
        assert(is_listing(r@, m@));
        lemma_listing_unique(r@, listing(m@), m@);
    }
    r
}

/// Sum of the scores of a list of entries.
pub open spec fn seq_total(s: Seq<(u64, i64)>) -> int
    decreases s.len(),
{
    if s.len() == 0 {
        0
    } else {
        seq_total(s.drop_last()) + s.last().1
    }
}

/// Sum of the magnitudes of the scores of a list of entries.
pub open spec fn seq_magnitude(s: Seq<(u64, i64)>) -> int
    decreases s.len(),
{
    if s.len() == 0 {
        0
    } else {
        seq_magnitude(s.drop_last()) + abs(s.last().1 as int)
    }
}

pub open spec fn abs(x: int) -> int {
    if x < 0 { -x } else { x }
}

/// Sum of the scores held in a table.
pub open spec fn map_total(m: Map<u64, i64>) -> int
    decreases m.dom().len(),
{
    if m.dom().finite() && m.dom().len() > 0 {
        let k = m.dom().choose();
        m[k] + map_total(m.remove(k))
    } else {
        0
    }
}

/// Sum of the magnitudes of the scores held in a table.
pub open spec fn map_magnitude(m: Map<u64, i64>) -> int
    decreases m.dom().len(),
{
    if m.dom().finite() && m.dom().len() > 0 {
        let k = m.dom().choose();
        abs(m[k] as int) + map_magnitude(m.remove(k))
    } else {
        0
    }
}

/// The sum of a table does not depend on the key taken out first.
pub proof fn lemma_map_total_remove(m: Map<u64, i64>, k: u64)
    requires
        m.dom().finite(),
        m.contains_key(k),
    ensures
        map_total(m) == m[k] + map_total(m.remove(k)),
        map_magnitude(m) == abs(m[k] as int) + map_magnitude(m.remove(k)),
    decreases m.dom().len(),
{
    let k0 = m.dom().choose();
    if k0 != k {
        let m0 = m.remove(k0);
        let mk = m.remove(k);
        assert(m0.contains_key(k));
        assert(mk.contains_key(k0));
        lemma_map_total_remove(m0, k);
        lemma_map_total_remove(mk, k0);
        assert(m0.remove(k) =~= mk.remove(k0));
    }
}

/// Summing the listing of a table gives the sum of the table.
pub proof fn lemma_listing_total(s: Seq<(u64, i64)>, m: Map<u64, i64>)
    requires
        is_listing(s, m),
        m.dom().finite(),
    ensures
        seq_total(s) == map_total(m),
        seq_magnitude(s) == map_magnitude(m),
    decreases s.len(),
{
    if s.len() == 0 {
        if m.dom().len() > 0 {
            let k = m.dom().choose();
            assert(m.contains_key(k));
        }
    } else {
        let t = s.drop_last();
        let k = s.last().0;
        let m2 = m.remove(k);
        assert(m.contains_key(k));
        assert forall|q: u64| #[trigger] m2.contains_key(q) implies exists|i: int|
            0 <= i < t.len() && t[i].0 == q by {
            let i = choose|i: int| 0 <= i < s.len() && s[i].0 == q;
            assert(i != s.len() - 1);
            assert(t[i].0 == q);
        }
        assert forall|i: int| 0 <= i < t.len() implies #[trigger] m2.contains_key(t[i].0)
            && m2[t[i].0] == t[i].1 by {
            assert(t[i] == s[i]);
            assert(s[i].0 < s[s.len() - 1].0);
        }
        assert forall|i: int, j: int| 0 <= i < j < t.len() implies #[trigger] t[i].0
            < #[trigger] t[j].0 by {
            assert(s[i].0 < s[j].0);
        }
        lemma_listing_total(t, m2);
        lemma_map_total_remove(m, k);
    }
}

/// The magnitudes of `len` scores add up to at most `len` times the largest
/// magnitude a score can have.
pub proof fn lemma_seq_magnitude_bound(s: Seq<(u64, i64)>)
    ensures
        abs(seq_total(s)) <= seq_magnitude(s),
        0 <= seq_magnitude(s) <= s.len() * 0x8000_0000_0000_0000,
    decreases s.len(),
{
    if s.len() > 0 {
        lemma_seq_magnitude_bound(s.drop_last());
    }
}

/// Splitting a table in two splits its sums.
pub proof fn lemma_map_total_split(m: Map<u64, i64>, keys: Set<u64>)
    requires
        m.dom().finite(),
    ensures
        map_total(m) == map_total(m.restrict(keys)) + map_total(m.remove_keys(keys)),
        map_magnitude(m) == map_magnitude(m.restrict(keys)) + map_magnitude(m.remove_keys(keys)),
    decreases m.dom().len(),
{
    let a = m.restrict(keys);
    let b = m.remove_keys(keys);
    assert(a.dom() =~= m.dom().intersect(keys));
    assert(b.dom() =~= m.dom().difference(keys));
    if m.dom().len() == 0 {
        assert(a.dom() =~= Set::empty());
        assert(b.dom() =~= Set::empty());
    } else {
        let k = m.dom().choose();
        let m2 = m.remove(k);
        lemma_map_total_remove(m, k);
        lemma_map_total_split(m2, keys);
        if keys.contains(k) {
            assert(a.contains_key(k));
            assert(m2.restrict(keys) =~= a.remove(k));
            assert(m2.remove_keys(keys) =~= b);
            lemma_map_total_remove(a, k);
        } else {
            assert(b.contains_key(k));
            assert(m2.restrict(keys) =~= a);
            assert(m2.remove_keys(keys) =~= b.remove(k));
            lemma_map_total_remove(b, k);
        }
    }
}

/// Sum of the scores in a table, in a type wide enough for any table.
pub fn table_total(m: &BTreeMap<u64, i64>) -> (r: i128)
    ensures
        r == map_total(m@),
        abs(r as int) <= map_magnitude(m@),
        map_magnitude(m@) <= m@.len() * 0x8000_0000_0000_0000,
{
    let e = entries(m);
    let n = m.len();
    let mut acc: i128 = 0;
    let mut i: usize = 0;
    while i < e.len()
        invariant
            i <= e@.len(),
            acc == seq_total(e@.take(i as int)),
            e@.len() == n,
        decreases e@.len() - i,
    {
        proof {
            lemma_seq_magnitude_bound(e@.take(i as int));
            assert(e@.take(i as int + 1).drop_last() =~= e@.take(i as int));
        }
        acc = acc + e[i].1 as i128;
        i += 1;
    }
    proof {
        assert(e@.take(e@.len() as int) =~= e@);
        lemma_listing_total(e@, m@);
        lemma_seq_magnitude_bound(e@);
    }
    acc
}

/// A table's sum is at most the sum of its magnitudes.
pub proof fn lemma_map_total_bound(m: Map<u64, i64>)
    requires
        m.dom().finite(),
    ensures
        abs(map_total(m)) <= map_magnitude(m),
    decreases m.dom().len(),
{
    if m.dom().len() > 0 {
        let k = m.dom().choose();
        lemma_map_total_remove(m, k);
        lemma_map_total_bound(m.remove(k));
    }
}

/// The keys that appear in a list of entries.
pub open spec fn listed_keys(s: Seq<(u64, i64)>) -> Set<u64> {
    Set::new(|k: u64| exists|j: int| 0 <= j < s.len() && s[j].0 == k)
}

/// A listing names exactly the keys of its table.
pub proof fn lemma_listed_keys(s: Seq<(u64, i64)>, m: Map<u64, i64>)
    requires
        is_listing(s, m),
    ensures
        listed_keys(s) == m.dom(),
{
    assert forall|k: u64| listed_keys(s).contains(k) implies m.dom().contains(k) by {
        let j = choose|j: int| 0 <= j < s.len() && s[j].0 == k;
        assert(m.contains_key(s[j].0));
    }
    assert(listed_keys(s) =~= m.dom());
}

/// The keys of a growing prefix of a list.
pub proof fn lemma_listed_keys_push(s: Seq<(u64, i64)>, i: int)
    requires
        0 <= i < s.len(),
    ensures
        listed_keys(s.take(i + 1)) == listed_keys(s.take(i)).insert(s[i].0),
{
    let a = s.take(i + 1);
    let b = s.take(i);
    assert forall|k: u64| listed_keys(a).contains(k) implies listed_keys(b).insert(
        s[i].0,
    ).contains(k) by {
        let j = choose|j: int| 0 <= j < a.len() && a[j].0 == k;
        if j < i {
            assert(b[j].0 == k);
        }
    }
    assert forall|k: u64| listed_keys(b).insert(s[i].0).contains(k) implies listed_keys(
        a,
    ).contains(k) by {
        if k == s[i].0 {
            assert(a[i].0 == k);
        } else {
            let j = choose|j: int| 0 <= j < b.len() && b[j].0 == k;
            assert(a[j].0 == k);
        }
    }
    assert(listed_keys(a) =~= listed_keys(b).insert(s[i].0));
}

/// A nonempty finite table has a largest key.
pub proof fn lemma_max_key(m: Map<u64, i64>) -> (k: u64)
    requires
        m.dom().finite(),
        m.dom().len() > 0,
    ensures
        m.contains_key(k),
        forall|q: u64| #[trigger] m.contains_key(q) ==> q <= k,
    decreases m.dom().len(),
{
    let k0 = m.dom().choose();
    let m2 = m.remove(k0);
    if m2.dom().len() == 0 {
        assert forall|q: u64| #[trigger] m.contains_key(q) implies q <= k0 by {
            if q != k0 {
                assert(m2.dom().contains(q));
            }
        }
        k0
    } else {
        let k1 = lemma_max_key(m2);
        if k1 < k0 {
            k0
        } else {
            k1
        }
    }
}

/// Every finite table has a listing.
pub proof fn lemma_listing_exists(m: Map<u64, i64>)
    requires
        m.dom().finite(),
    ensures
        is_listing(listing(m), m),
    decreases m.dom().len(),
{
    if m.dom().len() == 0 {
        let s = Seq::<(u64, i64)>::empty();
        assert forall|k: u64| #[trigger] m.contains_key(k) implies exists|i: int|
            0 <= i < s.len() && s[i].0 == k by {
            assert(m.dom().contains(k));
        }
        assert(is_listing(s, m));
        lemma_listing_unique(s, listing(m), m);
    } else {
        let k = lemma_max_key(m);
        let m2 = m.remove(k);
        lemma_listing_exists(m2);
        let t = listing(m2);
        let s = t.push((k, m[k]));
        assert forall|i: int, j: int| 0 <= i < j < s.len() implies #[trigger] s[i].0
            < #[trigger] s[j].0 by {
            if j == t.len() {
                assert(m2.contains_key(t[i].0));
                assert(m.contains_key(t[i].0));
            } else {
                assert(t[i].0 < t[j].0);
            }
        }
        assert forall|i: int| 0 <= i < s.len() implies #[trigger] m.contains_key(s[i].0)
            && m[s[i].0] == s[i].1 by {
            if i < t.len() {
                assert(m2.contains_key(t[i].0));
            }
        }
        assert forall|q: u64| #[trigger] m.contains_key(q) implies exists|i: int|
            0 <= i < s.len() && s[i].0 == q by {
            if q == k {
                assert(s[t.len() as int].0 == q);
            } else {
                assert(m2.contains_key(q));
                let a = choose|a: int| 0 <= a < t.len() && t[a].0 == q;
                assert(s[a].0 == q);
            }
        }
        assert(is_listing(s, m));
        lemma_listing_unique(s, listing(m), m);
    }
}

/// A listing has one entry per key.
pub proof fn lemma_listing_len(s: Seq<(u64, i64)>, m: Map<u64, i64>)
    requires
        is_listing(s, m),
    ensures
        s.len() == m.dom().len(),
        s.no_duplicates(),
{
    let keys = s.map_values(|x: (u64, i64)| x.0);
    assert forall|i: int, j: int| 0 <= i < keys.len() && 0 <= j < keys.len() && i != j
        implies keys[i] != keys[j] by {
        if i < j {
            assert(s[i].0 < s[j].0);
        } else {
            assert(s[j].0 < s[i].0);
        }
    }
    assert forall|i: int, j: int| 0 <= i < s.len() && 0 <= j < s.len() && i != j
        implies s[i] != s[j] by {
        assert(keys[i] != keys[j]);
    }
    keys.unique_seq_to_set();
    assert forall|k: u64| keys.to_set().contains(k) implies m.dom().contains(k) by {
        let i = choose|i: int| 0 <= i < keys.len() && keys[i] == k;
        assert(m.contains_key(s[i].0));
    }
    assert forall|k: u64| m.dom().contains(k) implies keys.to_set().contains(k) by {
        assert(m.contains_key(k));
        let i = choose|i: int| 0 <= i < s.len() && s[i].0 == k;
        assert(keys[i] == k);
    }
    assert(keys.to_set() =~= m.dom());
}

/// The magnitudes in a table that fits in memory add up to less than the
/// largest `i128`.
pub proof fn lemma_map_magnitude_bound(m: Map<u64, i64>)
    requires
        m.dom().finite(),
    ensures
        0 <= map_magnitude(m) <= m.dom().len() * 0x8000_0000_0000_0000,
        abs(map_total(m)) <= map_magnitude(m),
{
    lemma_listing_exists(m);
    lemma_listing_len(listing(m), m);
    lemma_listing_total(listing(m), m);
    lemma_seq_magnitude_bound(listing(m));
    lemma_map_total_bound(m);
}

} // verus!
