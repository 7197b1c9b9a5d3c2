//! Stable ordering of items by an integer key: items with equal keys keep
//! the order they came in, as with the standard library's `sort_by`.

use vstd::prelude::*;

verus! {

/// Puts `x` after every item of the sorted `s` whose key is not greater
/// than its own.
pub open spec fn insert_by_key<T>(s: Seq<(T, i128)>, x: (T, i128)) -> Seq<(T, i128)>
    decreases s.len(),
{
    if s.len() == 0 || s.last().1 <= x.1 {
        s.push(x)
    } else {
        insert_by_key(s.drop_last(), x).push(s.last())
    }
}

/// `s` ordered by increasing key; items with equal keys stay in input order.
pub open spec fn sort_by_key<T>(s: Seq<(T, i128)>) -> Seq<(T, i128)>
    decreases s.len(),
{
    if s.len() == 0 {
        s
    } else {
        insert_by_key(sort_by_key(s.drop_last()), s.last())
    }
}

pub open spec fn keys_ascending<T>(s: Seq<(T, i128)>) -> bool {
    forall|i: int, j: int| 0 <= i < j < s.len() ==> #[trigger] s[i].1 <= #[trigger] s[j].1
}

proof fn lemma_insert_suffix<T>(s: Seq<(T, i128)>, x: (T, i128), j: int)
    requires
        0 <= j <= s.len(),
        forall|i: int| j <= i < s.len() ==> #[trigger] s[i].1 > x.1,
    ensures
        insert_by_key(s, x) == insert_by_key(s.take(j), x) + s.skip(j),
    decreases s.len() - j,
{
    if j == s.len() {
        assert(s.take(j) =~= s);
        assert(s.skip(j) =~= Seq::<(T, i128)>::empty());
        assert(insert_by_key(s, x) + Seq::<(T, i128)>::empty() =~= insert_by_key(s, x));
    } else {
        let t = s.drop_last();
        assert(s.last().1 > x.1);
        lemma_insert_suffix(t, x, j);
        assert(t.take(j) =~= s.take(j));
        assert(insert_by_key(s, x) == insert_by_key(t, x).push(s.last()));
        assert((insert_by_key(t.take(j), x) + t.skip(j)).push(s.last()) =~= insert_by_key(
            s.take(j),
            x,
        ) + s.skip(j));
    }
}

/// Inserting keeps the items: the result holds `s` and `x` and nothing else.
pub proof fn lemma_insert_by_key_items<T>(s: Seq<(T, i128)>, x: (T, i128))
    ensures
        insert_by_key(s, x).to_multiset() == s.to_multiset().insert(x),
        insert_by_key(s, x).len() == s.len() + 1,
        keys_ascending(s) ==> keys_ascending(insert_by_key(s, x)),
    decreases s.len(),
{
    broadcast use vstd::seq_lib::group_to_multiset_ensures;

    if s.len() == 0 || s.last().1 <= x.1 {
    } else {
        let t = s.drop_last();
        lemma_insert_by_key_items(t, x);
        assert(s =~= t.push(s.last()));
        assert(t.to_multiset().insert(x).insert(s.last()) =~= t.to_multiset().insert(
            s.last(),
        ).insert(x));
        if keys_ascending(s) {
            let r = insert_by_key(t, x);
            let q = r.push(s.last());
            assert forall|i: int, j: int| 0 <= i < j < q.len() implies #[trigger] q[i].1
                <= #[trigger] q[j].1 by {
                if j == q.len() - 1 {
                    let m = r.to_multiset();
                    assert(m.count(r[i]) > 0);
                    assert(r.contains(r[i]));
                    if r[i] == x {
                    } else {
                        assert(t.to_multiset().insert(x).count(r[i]) > 0);
                        assert(t.to_multiset().count(r[i]) > 0);
                        assert(t.contains(r[i]));
                        let k = choose|k: int| 0 <= k < t.len() && t[k] == r[i];
                        assert(s[k] == t[k]);
                    }
                }
            }
        }
    }
}

/// Sorting keeps the items and puts them in key order.
pub proof fn lemma_sort_by_key_items<T>(s: Seq<(T, i128)>)
    ensures
        sort_by_key(s).to_multiset() == s.to_multiset(),
        sort_by_key(s).len() == s.len(),
        keys_ascending(sort_by_key(s)),
    decreases s.len(),
{
    broadcast use vstd::seq_lib::group_to_multiset_ensures;

    if s.len() > 0 {
        let t = s.drop_last();
        lemma_sort_by_key_items(t);
        lemma_insert_by_key_items(sort_by_key(t), s.last());
        assert(s =~= t.push(s.last()));
    }
}

/// Places `x` into the key-sorted `v`, after the items whose key is not
/// greater than its own.
pub fn insert_sorted<T: Copy>(v: &mut Vec<(T, i128)>, x: (T, i128))
    ensures
        final(v)@ == insert_by_key(old(v)@, x),
{
    let ghost s = v@;
    v.push(x);
    let mut j: usize = v.len() - 1;
    while j > 0 && v[j - 1].1 > x.1
        invariant
            0 <= j <= s.len(),
            v@ == s.take(j as int).push(x) + s.skip(j as int),
            forall|i: int| j <= i < s.len() ==> #[trigger] s[i].1 > x.1,
        decreases j,
    {
        let y = v[j - 1];
        proof {
            assert(v@[j - 1] == s[j - 1]);
        }
        v.set(j, y);
        v.set(j - 1, x);
        j -= 1;
        proof {
            assert(v@ =~= s.take(j as int).push(x) + s.skip(j as int));
        }
    }
    proof {
        lemma_insert_suffix(s, x, j as int);
        let t = s.take(j as int);
        if t.len() > 0 {
            assert(t.last() == v@[j - 1]);
        }
        assert(insert_by_key(t, x) == t.push(x));
    }
}

/// Orders `v` by increasing key, keeping items with equal keys in input order.
pub fn sorted_by_key<T: Copy>(v: &Vec<(T, i128)>) -> (r: Vec<(T, i128)>)
    ensures
        r@ == sort_by_key(v@),
{
    let mut r: Vec<(T, i128)> = Vec::new();
    let mut i: usize = 0;
    while i < v.len()
        invariant
            i <= v@.len(),
            r@ == sort_by_key(v@.take(i as int)),
        decreases v@.len() - i,
    {
        proof {
            assert(v@.take(i as int + 1).drop_last() =~= v@.take(i as int));
        }
        insert_sorted(&mut r, v[i]);
        i += 1;
    }
    proof {
        assert(v@.take(v@.len() as int) =~= v@);
    }
    r
}

/// Every item of the sorted list comes from the input, and the input had
/// no item the sorted list lacks.
pub proof fn lemma_sorted_member<T>(s: Seq<(T, i128)>, i: int)
    requires
        0 <= i < sort_by_key(s).len(),
    ensures
        exists|q: int| 0 <= q < s.len() && s[q] == sort_by_key(s)[i],
{
    broadcast use vstd::seq_lib::group_to_multiset_ensures;

    lemma_sort_by_key_items(s);
    let x = sort_by_key(s)[i];
    assert(sort_by_key(s).contains(x));
    assert(sort_by_key(s).to_multiset().count(x) > 0);
    assert(s.to_multiset().count(x) > 0);
    assert(s.contains(x));
}

} // verus!
