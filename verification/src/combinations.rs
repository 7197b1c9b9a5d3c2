//! The `k`-element selections of a list, in lexicographic order of position:
//! first every selection that takes the head, then every one that skips it.

use vstd::prelude::*;

verus! {

/// All selections of `k` items of `s` that keep the order of `s`, in
/// lexicographic order of the positions taken.
pub open spec fn combinations(s: Seq<u64>, k: nat) -> Seq<Seq<u64>>
    decreases s.len(),
{
    if k == 0 {
        seq![Seq::<u64>::empty()]
    } else if s.len() == 0 {
        Seq::<Seq<u64>>::empty()
    } else {
        combinations(s.drop_first(), (k - 1) as nat).map_values(|c: Seq<u64>| seq![s[0]] + c)
            + combinations(s.drop_first(), k)
    }
}

/// The binomial coefficient `n` choose `k`.
pub open spec fn binomial(n: nat, k: nat) -> nat
    decreases n,
{
    if k == 0 {
        1
    } else if n == 0 {
        0
    } else {
        binomial((n - 1) as nat, (k - 1) as nat) + binomial((n - 1) as nat, k)
    }
}

pub open spec fn strictly_increasing(s: Seq<u64>) -> bool {
    forall|i: int, j: int| 0 <= i < j < s.len() ==> #[trigger] s[i] < #[trigger] s[j]
}

/// There are `len` choose `k` selections.
pub proof fn lemma_combinations_count(s: Seq<u64>, k: nat)
    ensures
        combinations(s, k).len() == binomial(s.len(), k),
    decreases s.len(),
{
    if k > 0 && s.len() > 0 {
        lemma_combinations_count(s.drop_first(), (k - 1) as nat);
        lemma_combinations_count(s.drop_first(), k);
    }
}

/// Each selection of a strictly increasing list has `k` items, is itself
/// Every strictly increasing selection of items of a strictly increasing
/// list is one of its selections.
pub proof fn lemma_combination_complete(s: Seq<u64>, c: Seq<u64>)
    requires
        strictly_increasing(s),
        strictly_increasing(c),
        forall|j: int| 0 <= j < c.len() ==> s.contains(#[trigger] c[j]),
    ensures
        combinations(s, c.len()).contains(c),
    decreases s.len(),
{
    let k = c.len();
    if k == 0 {
        assert(c =~= Seq::<u64>::empty());
        assert(combinations(s, 0)[0] == c);
    } else {
        assert(s.contains(c[0]));
        let t = s.drop_first();
        assert(strictly_increasing(t)) by {
            assert forall|a: int, b: int| 0 <= a < b < t.len() implies #[trigger] t[a]
                < #[trigger] t[b] by {
                assert(s[a + 1] < s[b + 1]);
            }
        }
        let left = combinations(t, (k - 1) as nat);
        let q0 = choose|q: int| 0 <= q < s.len() && s[q] == c[0];
        if c[0] == s[0] {
            let d = c.drop_first();
            assert(strictly_increasing(d)) by {
                assert forall|a: int, b: int| 0 <= a < b < d.len() implies #[trigger] d[a]
                    < #[trigger] d[b] by {
                    assert(c[a + 1] < c[b + 1]);
                }
            }
            assert forall|j: int| 0 <= j < d.len() implies t.contains(#[trigger] d[j]) by {
                assert(c[0] < c[j + 1]);
                assert(s.contains(c[j + 1]));
                let q = choose|q: int| 0 <= q < s.len() && s[q] == c[j + 1];
                assert(q != 0);
                assert(t[q - 1] == d[j]);
            }
            lemma_combination_complete(t, d);
            let i = choose|i: int| 0 <= i < left.len() && left[i] == d;
            assert(seq![s[0]] + d =~= c);
            assert(combinations(s, k)[i] == c);
        } else {
            if q0 != 0 {
                assert(s[0] < s[q0]);
            }
            assert forall|j: int| 0 <= j < c.len() implies t.contains(#[trigger] c[j]) by {
                if j > 0 {
                    assert(c[0] < c[j]);
                }
                assert(s.contains(c[j]));
                let q = choose|q: int| 0 <= q < s.len() && s[q] == c[j];
                if q == 0 {
                    assert(s[0] < s[q0]);
                }
                assert(t[q - 1] == c[j]);
            }
            lemma_combination_complete(t, c);
            let right = combinations(t, k);
            let i = choose|i: int| 0 <= i < right.len() && right[i] == c;
            assert(combinations(s, k)[left.len() + i] == c);
        }
    }
}

/// strictly increasing, and takes its items from the list.
pub proof fn lemma_combination_shape(s: Seq<u64>, k: nat, i: int)
    requires
        strictly_increasing(s),
        0 <= i < combinations(s, k).len(),
    ensures
        combinations(s, k)[i].len() == k,
        strictly_increasing(combinations(s, k)[i]),
        forall|j: int| 0 <= j < k ==> s.contains(#[trigger] combinations(s, k)[i][j]),
    decreases s.len(),
{
    if k > 0 && s.len() > 0 {
        let t = s.drop_first();
        assert(strictly_increasing(t)) by {
            assert forall|a: int, b: int| 0 <= a < b < t.len() implies #[trigger] t[a]
                < #[trigger] t[b] by {
                assert(s[a + 1] < s[b + 1]);
            }
        }
        let left = combinations(t, (k - 1) as nat);
        if i < left.len() {
            lemma_combination_shape(t, (k - 1) as nat, i);
            let c = left[i];
            let d = seq![s[0]] + c;
            assert(combinations(s, k)[i] == d);
            assert forall|j: int| 0 <= j < c.len() implies s[0] < #[trigger] c[j] by {
                assert(t.contains(c[j]));
                let q = choose|q: int| 0 <= q < t.len() && t[q] == c[j];
                assert(s[0] < s[q + 1]);
            }
            assert forall|a: int, b: int| 0 <= a < b < d.len() implies #[trigger] d[a]
                < #[trigger] d[b] by {
                if a == 0 {
                    assert(d[b] == c[b - 1]);
                } else {
                    assert(d[a] == c[a - 1] && d[b] == c[b - 1]);
                }
            }
            assert forall|j: int| 0 <= j < k implies s.contains(#[trigger] d[j]) by {
                if j == 0 {
                    assert(s[0] == d[0]);
                } else {
                    assert(d[j] == c[j - 1]);
                    assert(t.contains(c[j - 1]));
                    let q = choose|q: int| 0 <= q < t.len() && t[q] == c[j - 1];
                    assert(s[q + 1] == d[j]);
                }
            }
        } else {
            let r = combinations(t, k);
            lemma_combination_shape(t, k, i - left.len());
            let c = r[i - left.len()];
            assert(combinations(s, k)[i] == c);
            assert forall|j: int| 0 <= j < k implies s.contains(#[trigger] c[j]) by {
                assert(t.contains(c[j]));
                let q = choose|q: int| 0 <= q < t.len() && t[q] == c[j];
                assert(s[q + 1] == c[j]);
            }
        }
    } else if k == 0 {
        assert(combinations(s, k)[i] =~= Seq::<u64>::empty());
    }
}

pub open spec fn views(v: Seq<Vec<u64>>) -> Seq<Seq<u64>> {
    v.map_values(|c: Vec<u64>| c@)
}

/// A copy of a list of ids.
pub fn copy_ids(v: &Vec<u64>) -> (r: Vec<u64>)
    ensures
        r@ == v@,
{
    let mut r: Vec<u64> = Vec::new();
    let mut i: usize = 0;
    while i < v.len()
        invariant
            i <= v@.len(),
            r@ == v@.take(i as int),
        decreases v@.len() - i,
    {
        r.push(v[i]);
        i += 1;
        proof {
            assert(r@ =~= v@.take(i as int));
        }
    }
    assert(v@.take(v@.len() as int) =~= v@);
    r
}

fn combinations_from(items: &Vec<u64>, start: usize, k: usize) -> (r: Vec<Vec<u64>>)
    requires
        start <= items@.len(),
    ensures
        views(r@) == combinations(items@.skip(start as int), k as nat),
    decreases items@.len() - start,
{
    let ghost s = items@.skip(start as int);
    if k == 0 {
        let r: Vec<Vec<u64>> = vec![Vec::new()];
        assert(views(r@) =~= seq![Seq::<u64>::empty()]);
        return r;
    }
    if start == items.len() {
        let r: Vec<Vec<u64>> = Vec::new();
        assert(views(r@) =~= Seq::<Seq<u64>>::empty());
        return r;
    }
    assert(s.drop_first() =~= items@.skip(start as int + 1));
    let head = items[start];
    let with_head = combinations_from(items, start + 1, k - 1);
    let without_head = combinations_from(items, start + 1, k);
    let ghost left = combinations(s.drop_first(), (k - 1) as nat).map_values(
        |c: Seq<u64>| seq![s[0]] + c,
    );
    let mut r: Vec<Vec<u64>> = Vec::new();
    let mut i: usize = 0;
    while i < with_head.len()
        invariant
            i <= with_head@.len(),
            views(with_head@) == combinations(s.drop_first(), (k - 1) as nat),
            head == s[0],
            left == combinations(s.drop_first(), (k - 1) as nat).map_values(
                |c: Seq<u64>| seq![s[0]] + c,
            ),
            views(r@) == left.take(i as int),
        decreases with_head@.len() - i,
    {
        let mut c: Vec<u64> = Vec::new();
        c.push(head);
        let mut j: usize = 0;
        while j < with_head[i].len()
            invariant
                i < with_head@.len(),
                j <= with_head@[i as int]@.len(),
                c@ == seq![head] + with_head@[i as int]@.take(j as int),
            decreases with_head@[i as int]@.len() - j,
        {
            c.push(with_head[i][j]);
            j += 1;
            proof {
                assert(c@ =~= seq![head] + with_head@[i as int]@.take(j as int));
            }
        }
        proof {
            assert(with_head@[i as int]@.take(j as int) =~= with_head@[i as int]@);
            assert(views(with_head@)[i as int] == with_head@[i as int]@);
            assert(left[i as int] == seq![s[0]] + views(with_head@)[i as int]);
        }
        let ghost prev = r@;
        r.push(c);
        i += 1;
        proof {
            assert(views(r@) =~= views(prev).push(c@));
            assert(views(r@) =~= left.take(i as int));
        }
    }
    let mut i: usize = 0;
    let ghost right = combinations(s.drop_first(), k as nat);
    proof {
        assert(left.take(left.len() as int) =~= left);
    }
    while i < without_head.len()
        invariant
            i <= without_head@.len(),
            views(without_head@) == right,
            views(r@) == left + right.take(i as int),
        decreases without_head@.len() - i,
    {
        let ghost prev = r@;
        let c = copy_ids(&without_head[i]);
        r.push(c);
        i += 1;
        proof {
            assert(views(without_head@)[i - 1] == without_head@[i - 1]@);
            assert(views(r@) =~= views(prev).push(c@));
            assert(views(r@) =~= left + right.take(i as int));
        }
    }
    proof {
        assert(right.take(right.len() as int) =~= right);
    }
    r
}

/// Every selection of `k` items of `items` that keeps their order, in
/// lexicographic order of the positions taken.
pub fn combinations_of(items: &Vec<u64>, k: usize) -> (r: Vec<Vec<u64>>)
    ensures
        views(r@) == combinations(items@, k as nat),
{
    assert(items@.skip(0) =~= items@);
    combinations_from(items, 0, k)
}

} // verus!
