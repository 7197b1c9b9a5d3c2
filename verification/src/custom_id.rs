//! Button custom ids: sections separated by `/`, the first naming the kind
//! of button; player lists ride along as sections `:tag:id`, the id written
//! in base 85.

use vstd::prelude::*;
use vstd::string::*;
use std::collections::BTreeSet;
use crate::text::chars_of;
use crate::codec::{decoding, decode_range, encoding, encode_base, alphabet, lemma_alphabet, lemma_decode_encode, lemma_encoding_digits};
use crate::combinations::strictly_increasing;
use vstd::std_specs::btree::{spec_btree_keys_iter, increasing_seq};
use vstd::std_specs::iter::IteratorSpec;
use vstd::std_specs::cmp::OrdSpec;
use vstd::laws_cmp::obeys_cmp;

verus! {

/// The sections of `s` between the `/` separators, as `str::split('/')`
/// yields them: there is always at least one, possibly empty.
pub open spec fn sections(s: Seq<char>) -> Seq<Seq<char>>
    decreases s.len(),
{
    if s.len() == 0 {
        seq![Seq::<char>::empty()]
    } else {
        let r = sections(s.drop_last());
        if s.last() == '/' {
            r.push(Seq::<char>::empty())
        } else {
            r.update(r.len() - 1, r.last().push(s.last()))
        }
    }
}

pub proof fn lemma_sections_nonempty(s: Seq<char>)
    ensures
        sections(s).len() >= 1,
    decreases s.len(),
{
    if s.len() > 0 {
        lemma_sections_nonempty(s.drop_last());
    }
}

/// `s` holds no `/`.
pub open spec fn no_slash(s: Seq<char>) -> bool {
    forall|i: int| 0 <= i < s.len() ==> s[i] != '/'
}

/// Before the first `/` there is one section, the text so far; after it the
/// first section stays the text before it.
proof fn lemma_first_section(s: Seq<char>, k: int, j: int)
    requires
        0 <= k <= s.len(),
        no_slash(s.take(k)),
        k < s.len() ==> s[k] == '/',
        0 <= j <= s.len(),
    ensures
        j <= k ==> sections(s.take(j)) == seq![s.take(j)],
        j > k ==> sections(s.take(j))[0] == s.take(k) && sections(s.take(j)).len() >= 2,
    decreases j,
{
    if j > 0 {
        lemma_first_section(s, k, j - 1);
        let t = s.take(j);
        assert(t.drop_last() =~= s.take(j - 1));
        assert(t.last() == s[j - 1]);
        if j <= k {
            assert(s.take(k)[j - 1] == s[j - 1]);
            assert(sections(t) =~= seq![s.take(j - 1).push(s[j - 1])]);
            assert(s.take(j - 1).push(s[j - 1]) =~= t);
        } else if j == k + 1 {
            assert(s.take(j - 1) =~= s.take(k));
        } else {
            lemma_sections_nonempty(s.take(j - 1));
        }
    } else {
        assert(s.take(0) =~= Seq::<char>::empty());
    }
}

/// After the last `/`, the last section is the text after it.
proof fn lemma_last_section(s: Seq<char>, start: int, j: int)
    requires
        0 <= start <= j <= s.len(),
        start > 0 ==> s[start - 1] == '/',
        no_slash(s.subrange(start, s.len() as int)),
    ensures
        sections(s.take(j)).last() == s.subrange(start, j),
        sections(s.take(j)).len() >= 1,
    decreases j - start,
{
    if j > start {
        lemma_last_section(s, start, j - 1);
        let t = s.take(j);
        assert(t.drop_last() =~= s.take(j - 1));
        assert(s.subrange(start, s.len() as int)[j - 1 - start] == s[j - 1]);
        assert(s.subrange(start, j - 1).push(s[j - 1]) =~= s.subrange(start, j));
    } else if start == 0 {
        assert(s.take(0) =~= Seq::<char>::empty());
        assert(s.subrange(0, 0) =~= Seq::<char>::empty());
    } else {
        let t = s.take(start);
        assert(t.drop_last() =~= s.take(start - 1));
        lemma_sections_nonempty(s.take(start - 1));
        assert(s.subrange(start, start) =~= Seq::<char>::empty());
    }
}

/// The kind of a button: its first section.
pub fn custom_id_type(custom_id: &str) -> (r: &str)
    ensures
        r@ == sections(custom_id@)[0],
{
    let n = custom_id.unicode_len();
    let mut k: usize = 0;
    while k < n && custom_id.get_char(k) != '/'
        invariant
            n == custom_id@.len(),
            k <= n,
            no_slash(custom_id@.take(k as int)),
        decreases n - k,
    {
        proof {
            assert(custom_id@.take(k as int + 1) =~= custom_id@.take(k as int).push(custom_id@[k as int]));
        }
        k += 1;
    }
    proof {
        lemma_first_section(custom_id@, k as int, n as int);
        assert(custom_id@.take(n as int) =~= custom_id@);
    }
    let r = custom_id.substring_char(0, k);
    assert(r@ =~= custom_id@.take(k as int));
    r
}

/// The value of a button: its last section.
pub fn custom_id_value(custom_id: &str) -> (r: &str)
    ensures
        r@ == sections(custom_id@).last(),
{
    let n = custom_id.unicode_len();
    let mut start: usize = n;
    while start > 0 && custom_id.get_char(start - 1) != '/'
        invariant
            n == custom_id@.len(),
            start <= n,
            no_slash(custom_id@.subrange(start as int, n as int)),
        decreases start,
    {
        proof {
            let ghost wider = custom_id@.subrange(start - 1, n as int);
            assert forall|i: int| 0 <= i < wider.len() implies #[trigger] wider[i] != '/' by {
                if i > 0 {
                    assert(custom_id@.subrange(start - 1, n as int)[i] == custom_id@.subrange(
                        start as int,
                        n as int,
                    )[i - 1]);
                }
            }
        }
        start -= 1;
    }
    proof {
        lemma_last_section(custom_id@, start as int, n as int);
        assert(custom_id@.take(n as int) =~= custom_id@);
    }
    let r = custom_id.substring_char(start, n);
    r
}

/// The sections of `s` between its `/` separators, as `split('/')` yields them.
pub fn split_sections(s: &str) -> (r: Vec<String>)
    ensures
        string_views(r@) == sections(s@),
{
    let n = s.unicode_len();
    let mut r: Vec<String> = Vec::new();
    let mut start: usize = 0;
    let mut i: usize = 0;
    proof {
        assert(s@.take(0) =~= Seq::<char>::empty());
        assert(sections(s@.take(0)).drop_last() =~= Seq::<Seq<char>>::empty());
        assert(s@.subrange(0, 0) =~= Seq::<char>::empty());
        assert(string_views(r@) =~= Seq::<Seq<char>>::empty());
    }
    while i < n
        invariant
            n == s@.len(),
            start <= i <= n,
            sections(s@.take(i as int)).len() >= 1,
            sections(s@.take(i as int)).last() == s@.subrange(start as int, i as int),
            string_views(r@) == sections(s@.take(i as int)).drop_last(),
        decreases n - i,
    {
        let ghost before = sections(s@.take(i as int));
        proof {
            assert(s@.take(i as int + 1).drop_last() =~= s@.take(i as int));
            assert(s@.take(i as int + 1).last() == s@[i as int]);
        }
        if s.get_char(i) == '/' {
            let piece = String::from_str(s.substring_char(start, i));
            let ghost prev = r@;
            r.push(piece);
            proof {
                assert(sections(s@.take(i as int + 1)) == before.push(Seq::<char>::empty()));
                assert(before =~= before.drop_last().push(before.last()));
                assert(string_views(r@) =~= string_views(prev).push(piece@));
                assert(sections(s@.take(i as int + 1)).drop_last() =~= before);
            }
            start = i + 1;
            proof {
                assert(s@.subrange(start as int, start as int) =~= Seq::<char>::empty());
            }
        } else {
            proof {
                assert(sections(s@.take(i as int + 1)).drop_last() =~= before.drop_last());
                assert(s@.subrange(start as int, i + 1) =~= s@.subrange(start as int, i as int).push(
                    s@[i as int],
                ));
            }
        }
        i += 1;
    }
    let last = String::from_str(s.substring_char(start, n));
    let ghost prev = r@;
    r.push(last);
    proof {
        assert(s@.take(n as int) =~= s@);
        let all = sections(s@);
        assert(all =~= all.drop_last().push(all.last()));
        assert(string_views(r@) =~= string_views(prev).push(last@));
    }
    r
}

/// The marker `:tag:` that starts a tagged section.
pub open spec fn tag_prefix(tag: Seq<char>) -> Seq<char> {
    seq![':'] + tag + seq![':']
}

/// The id a section carries for `tag`: the section must start with `:tag:`
/// and the rest must read as a base-85 id.
pub open spec fn section_id(section: Seq<char>, tag: Seq<char>) -> Option<u64> {
    let p = tag_prefix(tag);
    if section.len() >= p.len() && section.take(p.len() as int) == p {
        decoding(section.skip(p.len() as int))
    } else {
        None
    }
}

/// The ids that the sections carry for `tag`.
pub open spec fn ids_in(secs: Seq<Seq<char>>, tag: Seq<char>) -> Set<u64> {
    Set::new(|v: u64| exists|i: int| 0 <= i < secs.len() && section_id(secs[i], tag) == Some(v))
}

proof fn lemma_ids_in_push(secs: Seq<Seq<char>>, x: Seq<char>, tag: Seq<char>)
    ensures
        ids_in(secs.push(x), tag) == match section_id(x, tag) {
            Some(v) => ids_in(secs, tag).insert(v),
            None => ids_in(secs, tag),
        },
{
    let a = ids_in(secs.push(x), tag);
    let b = match section_id(x, tag) {
        Some(v) => ids_in(secs, tag).insert(v),
        None => ids_in(secs, tag),
    };
    assert forall|v: u64| a.contains(v) implies b.contains(v) by {
        let i = choose|i: int| 0 <= i < secs.len() + 1 && section_id(secs.push(x)[i], tag) == Some(v);
        if i < secs.len() {
            assert(secs.push(x)[i] == secs[i]);
        }
    }
    assert forall|v: u64| b.contains(v) implies a.contains(v) by {
        if section_id(x, tag) == Some(v) {
            assert(secs.push(x)[secs.len() as int] == x);
        } else {
            let i = choose|i: int| 0 <= i < secs.len() && section_id(secs[i], tag) == Some(v);
            assert(secs.push(x)[i] == secs[i]);
        }
    }
    assert(a =~= b);
}

/// The id a section `v[lo..hi]` carries for the tag marker `p`.
fn section_id_exec(v: &Vec<char>, lo: usize, hi: usize, p: &Vec<char>) -> (r: Option<u64>)
    requires
        lo <= hi <= v@.len(),
        p@.len() >= 2,
        p@[0] == ':',
        p@.last() == ':',
    ensures
        r == section_id(v@.subrange(lo as int, hi as int), p@.subrange(1, p@.len() - 1)),
{
    let ghost sec = v@.subrange(lo as int, hi as int);
    let ghost tag = p@.subrange(1, p@.len() - 1);
    proof {
        assert(tag_prefix(tag) =~= p@);
    }
    if hi - lo < p.len() {
        return None;
    }
    let mut j: usize = 0;
    while j < p.len()
        invariant
            lo <= hi <= v@.len(),
            p@.len() <= hi - lo,
            j <= p@.len(),
            sec == v@.subrange(lo as int, hi as int),
            tag == p@.subrange(1, p@.len() - 1),
            tag_prefix(tag) == p@,
            forall|q: int| 0 <= q < j ==> v@[lo + q] == p@[q],
        decreases p@.len() - j,
    {
        if v[lo + j] != p[j] {
            proof {
                assert(sec.take(p@.len() as int)[j as int] != p@[j as int]);
                assert(sec.take(p@.len() as int) != p@);
            }
            return None;
        }
        j += 1;
    }
    proof {
        assert(sec.take(p@.len() as int) =~= p@);
        assert(sec.skip(p@.len() as int) =~= v@.subrange(lo + p@.len(), hi as int));
    }
    decode_range(v, lo + p.len(), hi)
}

/// The ids carried in the sections of `custom_id` tagged `:tag:`; sections
/// with other tags, or whose value is not an id, are skipped.
pub fn ids_from_custom_id(custom_id: &str, tag: &str) -> (r: BTreeSet<u64>)
    ensures
        r@ == ids_in(sections(custom_id@), tag@),
{
    let v = chars_of(custom_id);
    let tag_chars = chars_of(tag);
    let mut p: Vec<char> = Vec::new();
    p.push(':');
    let mut q: usize = 0;
    while q < tag_chars.len()
        invariant
            q <= tag_chars@.len(),
            p@ == seq![':'] + tag_chars@.take(q as int),
        decreases tag_chars@.len() - q,
    {
        p.push(tag_chars[q]);
        q += 1;
        proof {
            assert(p@ =~= seq![':'] + tag_chars@.take(q as int));
        }
    }
    p.push(':');
    proof {
        assert(tag_chars@.take(tag_chars@.len() as int) =~= tag_chars@);
        assert(p@.subrange(1, p@.len() - 1) =~= tag@);
    }
    let n = v.len();
    let mut r: BTreeSet<u64> = BTreeSet::new();
    let mut start: usize = 0;
    let mut i: usize = 0;
    proof {
        assert(v@.take(0) =~= Seq::<char>::empty());
        assert(ids_in(Seq::<Seq<char>>::empty(), tag@) =~= Set::<u64>::empty());
        assert(sections(v@.take(0)).drop_last() =~= Seq::<Seq<char>>::empty());
        assert(v@.subrange(0, 0) =~= Seq::<char>::empty());
    }
    while i < n
        invariant
            n == v@.len(),
            v@ == custom_id@,
            start <= i <= n,
            p@.len() >= 2,
            p@[0] == ':',
            p@.last() == ':',
            p@.subrange(1, p@.len() - 1) == tag@,
            sections(v@.take(i as int)).len() >= 1,
            sections(v@.take(i as int)).last() == v@.subrange(start as int, i as int),
            r@ == ids_in(sections(v@.take(i as int)).drop_last(), tag@),
        decreases n - i,
    {
        let ghost before = sections(v@.take(i as int));
        proof {
            assert(v@.take(i as int + 1).drop_last() =~= v@.take(i as int));
            assert(v@.take(i as int + 1).last() == v@[i as int]);
        }
        if v[i] == '/' {
            let id = section_id_exec(&v, start, i, &p);
            proof {
                assert(sections(v@.take(i as int + 1)) == before.push(Seq::<char>::empty()));
                assert(before =~= before.drop_last().push(before.last()));
                lemma_ids_in_push(before.drop_last(), before.last(), tag@);
                assert(sections(v@.take(i as int + 1)).drop_last() =~= before);
            }
            match id {
                Some(x) => {
                    r.insert(x);
                },
                None => {},
            }
            start = i + 1;
            proof {
                assert(v@.subrange(start as int, start as int) =~= Seq::<char>::empty());
            }
        } else {
            proof {
                assert(sections(v@.take(i as int + 1)).drop_last() =~= before.drop_last());
                assert(v@.subrange(start as int, i + 1) =~= v@.subrange(start as int, i as int).push(
                    v@[i as int],
                ));
            }
        }
        i += 1;
    }
    let id = section_id_exec(&v, start, n, &p);
    proof {
        assert(v@.take(n as int) =~= v@);
        let all = sections(v@);
        assert(all =~= all.drop_last().push(all.last()));
        lemma_ids_in_push(all.drop_last(), all.last(), tag@);
    }
    match id {
        Some(x) => {
            r.insert(x);
        },
        None => {},
    }
    r
}

/// The members of `s` in increasing order.
pub open spec fn set_listing(s: Set<u64>) -> Seq<u64> {
    choose|l: Seq<u64>| strictly_increasing(l) && l.to_set() == s
}

/// Two increasing lists of the same members are the same list.
pub proof fn lemma_increasing_unique(a: Seq<u64>, b: Seq<u64>)
    requires
        strictly_increasing(a),
        strictly_increasing(b),
        a.to_set() == b.to_set(),
    ensures
        a == b,
    decreases a.len(),
{
    if a.len() == 0 {
        if b.len() > 0 {
            assert(b.to_set().contains(b[0]));
        }
        assert(a =~= b);
    } else {
        if b.len() == 0 {
            assert(a.to_set().contains(a[0]));
        }
        assert(b.to_set().contains(a[0]));
        assert(a.to_set().contains(b[0]));
        let i = choose|i: int| 0 <= i < b.len() && b[i] == a[0];
        let j = choose|j: int| 0 <= j < a.len() && a[j] == b[0];
        if i > 0 {
            assert(b[0] < b[i]);
        }
        if j > 0 {
            assert(a[0] < a[j]);
        }
        assert(a[0] == b[0]);
        let ta = a.drop_first();
        let tb = b.drop_first();
        assert(strictly_increasing(ta)) by {
            assert forall|x: int, y: int| 0 <= x < y < ta.len() implies #[trigger] ta[x]
                < #[trigger] ta[y] by {
                assert(a[x + 1] < a[y + 1]);
            }
        }
        assert(strictly_increasing(tb)) by {
            assert forall|x: int, y: int| 0 <= x < y < tb.len() implies #[trigger] tb[x]
                < #[trigger] tb[y] by {
                assert(b[x + 1] < b[y + 1]);
            }
        }
        assert forall|v: u64| ta.to_set().contains(v) implies tb.to_set().contains(v) by {
            let x = choose|x: int| 0 <= x < ta.len() && ta[x] == v;
            assert(a[x + 1] == v);
            assert(a[0] < a[x + 1]);
            assert(b.to_set().contains(v));
            let y = choose|y: int| 0 <= y < b.len() && b[y] == v;
            assert(y != 0);
            assert(tb[y - 1] == v);
        }
        assert forall|v: u64| tb.to_set().contains(v) implies ta.to_set().contains(v) by {
            let x = choose|x: int| 0 <= x < tb.len() && tb[x] == v;
            assert(b[x + 1] == v);
            assert(b[0] < b[x + 1]);
            assert(a.to_set().contains(v));
            let y = choose|y: int| 0 <= y < a.len() && a[y] == v;
            assert(y != 0);
            assert(ta[y - 1] == v);
        }
        assert(ta.to_set() =~= tb.to_set());
        lemma_increasing_unique(ta, tb);
        assert(a =~= seq![a[0]] + ta);
        assert(b =~= seq![b[0]] + tb);
    }
}

/// Keys in increasing order, as a set's iterator yields them, are strictly
/// increasing numbers.
proof fn lemma_increasing_keys(keys: Seq<&u64>)
    requires
        increasing_seq(keys),
    ensures
        strictly_increasing(keys.unref()),
{
    assert(obeys_cmp::<u64>());
    assert(obeys_cmp::<&u64>());
    assert forall|a: int, b: int| 0 <= a < b < keys.unref().len() implies #[trigger] keys.unref()[a]
        < #[trigger] keys.unref()[b] by {
        assert(OrdSpec::cmp_spec(&keys[a], &keys[b]) is Less);
    }
}

/// The members of a set of ids, in increasing order.
pub fn set_members(ids: &BTreeSet<u64>) -> (r: Vec<u64>)
    ensures
        r@ == set_listing(ids@),
        strictly_increasing(r@),
        r@.to_set() == ids@,
{
    let mut r: Vec<u64> = Vec::new();
    let ghost src = spec_btree_keys_iter(ids).remaining();
    for id in it: ids.iter()
        invariant
            it.seq() == src,
            r@ == src.take(it.index()).unref(),
    {
        let ghost prev = r@;
        r.push(*id);
        proof {
            assert(src.take(it.index() + 1) =~= src.take(it.index()).push(src[it.index()]));
            assert(r@ =~= src.take(it.index() + 1).unref());
        }
    }
    proof {
        assert(src.take(src.len() as int) =~= src);
        lemma_increasing_keys(src);
        assert(src.unref().to_set() == ids@);
        lemma_increasing_unique(src.unref(), set_listing(ids@));
    }
    r
}

/// The section that carries `id` under `tag`.
pub open spec fn tag_section(tag: Seq<char>, id: u64) -> Seq<char> {
    tag_prefix(tag) + encoding(id as nat)
}

/// Strings as characters.
pub open spec fn string_views(v: Seq<String>) -> Seq<Seq<char>> {
    v.map_values(|s: String| s@)
}

/// `tag_ids("o", {1, 2})` is `[":o:1", ":o:2"]`, the ids written in base 85,
/// in increasing order of id.
pub fn tag_ids(tag: &str, ids: &BTreeSet<u64>) -> (r: Vec<String>)
    ensures
        string_views(r@) == set_listing(ids@).map_values(|id: u64| tag_section(tag@, id)),
{
    let mut r: Vec<String> = Vec::new();
    let ghost src = spec_btree_keys_iter(ids).remaining();
    for id in it: ids.iter()
        invariant
            it.seq() == src,
            string_views(r@) == src.take(it.index()).map_values(|x: &u64| tag_section(tag@, *x)),
    {
        let mut section = String::from_str(":");
        section.append(tag);
        section.append(":");
        let digits = encode_base(*id);
        section.append(digits.as_str());
        let ghost prev = r@;
        r.push(section);
        proof {
            assert(*id == *src[it.index()]);
            reveal_strlit(":");
            assert(section@ =~= tag_section(tag@, *id));
            assert(string_views(r@) =~= string_views(prev).push(section@));
            assert(src.take(it.index() + 1) =~= src.take(it.index()).push(src[it.index()]));
            assert(string_views(r@) =~= src.take(it.index() + 1).map_values(
                |x: &u64| tag_section(tag@, *x),
            ));
        }
    }
    proof {
        let keys = src.unref();
        assert(src.take(src.len() as int) =~= src);
        lemma_increasing_keys(src);
        assert(keys.to_set() == ids@);
        lemma_increasing_unique(keys, set_listing(ids@));
        assert(src.map_values(|x: &u64| tag_section(tag@, *x)) =~= keys.map_values(
            |id: u64| tag_section(tag@, id),
        ));
    }
    r
}

/// Sections joined with `/` between them, as `join("/")` writes them.
pub open spec fn join_sections(secs: Seq<Seq<char>>) -> Seq<char>
    decreases secs.len(),
{
    if secs.len() == 0 {
        Seq::<char>::empty()
    } else if secs.len() == 1 {
        secs[0]
    } else {
        join_sections(secs.drop_last()) + seq!['/'] + secs.last()
    }
}

/// Appending text without a `/` extends the last section.
proof fn lemma_sections_append(x: Seq<char>, y: Seq<char>)
    requires
        no_slash(y),
    ensures
        sections(x + y) == sections(x).update(sections(x).len() - 1, sections(x).last() + y),
    decreases y.len(),
{
    lemma_sections_nonempty(x);
    if y.len() == 0 {
        assert(x + y =~= x);
        assert(sections(x).last() + y =~= sections(x).last());
        assert(sections(x).update(sections(x).len() - 1, sections(x).last()) =~= sections(x));
    } else {
        let y0 = y.drop_last();
        assert forall|i: int| 0 <= i < y0.len() implies y0[i] != '/' by {
            assert(y[i] != '/');
        }
        lemma_sections_append(x, y0);
        assert((x + y).drop_last() =~= x + y0);
        assert((x + y).last() == y.last());
        assert(y.last() != '/');
        assert(sections(x).last() + y0 + seq![y.last()] =~= sections(x).last() + y);
        let r = sections(x + y0);
        assert(r.len() == sections(x).len());
        assert(r.last() == sections(x).last() + y0);
        assert(r.last().push(y.last()) =~= sections(x).last() + y);
        assert(r.update(r.len() - 1, r.last().push(y.last())) =~= sections(x).update(
            sections(x).len() - 1,
            sections(x).last() + y,
        ));
    }
}

/// Splitting joined sections that hold no `/` gives them back.
pub proof fn lemma_sections_join(secs: Seq<Seq<char>>)
    requires
        secs.len() >= 1,
        forall|i: int| 0 <= i < secs.len() ==> no_slash(#[trigger] secs[i]),
    ensures
        sections(join_sections(secs)) == secs,
    decreases secs.len(),
{
    if secs.len() == 1 {
        lemma_sections_append(Seq::<char>::empty(), secs[0]);
        assert(Seq::<char>::empty() + secs[0] =~= secs[0]);
        assert(Seq::<char>::empty() + secs[0] =~= secs[0]);
        assert(sections(Seq::<char>::empty()).update(0, Seq::<char>::empty() + secs[0]) =~= secs);
    } else {
        let init = secs.drop_last();
        lemma_sections_join(init);
        let j = join_sections(init) + seq!['/'];
        assert(j.drop_last() =~= join_sections(init));
        assert(sections(j) == init.push(Seq::<char>::empty()));
        lemma_sections_append(j, secs.last());
        assert(init.push(Seq::<char>::empty()).update(init.len() as int, Seq::<char>::empty()
            + secs.last()) =~= secs);
    }
}

/// The ids of two runs of sections are the ids of each.
pub proof fn lemma_ids_in_concat(a: Seq<Seq<char>>, b: Seq<Seq<char>>, tag: Seq<char>)
    ensures
        ids_in(a + b, tag) == ids_in(a, tag).union(ids_in(b, tag)),
{
    assert forall|v: u64| ids_in(a + b, tag).contains(v) implies ids_in(a, tag).union(
        ids_in(b, tag),
    ).contains(v) by {
        let i = choose|i: int| 0 <= i < (a + b).len() && section_id((a + b)[i], tag) == Some(v);
        if i < a.len() {
            assert((a + b)[i] == a[i]);
        } else {
            assert((a + b)[i] == b[i - a.len()]);
        }
    }
    assert forall|v: u64| ids_in(a, tag).union(ids_in(b, tag)).contains(v) implies ids_in(
        a + b,
        tag,
    ).contains(v) by {
        if ids_in(a, tag).contains(v) {
            let i = choose|i: int| 0 <= i < a.len() && section_id(a[i], tag) == Some(v);
            assert((a + b)[i] == a[i]);
        } else {
            let i = choose|i: int| 0 <= i < b.len() && section_id(b[i], tag) == Some(v);
            assert((a + b)[a.len() + i] == b[i]);
        }
    }
    assert(ids_in(a + b, tag) =~= ids_in(a, tag).union(ids_in(b, tag)));
}

/// The sections carrying `ids` under `tag`, in increasing order of id.
pub open spec fn tagged(tag: Seq<char>, ids: Set<u64>) -> Seq<Seq<char>> {
    set_listing(ids).map_values(|id: u64| tag_section(tag, id))
}

/// `s` holds no `:`.
pub open spec fn no_colon(s: Seq<char>) -> bool {
    forall|i: int| 0 <= i < s.len() ==> s[i] != ':'
}

/// Written ids hold neither `/` nor `:`.
pub proof fn lemma_encoding_plain(n: nat)
    ensures
        no_slash(encoding(n)),
        no_colon(encoding(n)),
{
    lemma_alphabet();
    lemma_encoding_digits(n);
    reveal_strlit("0123456789ABCDEFGHIJKLMNOPQRSTUVWXYZabcdefghijklmnopqrstuvwxyz<.>?;\"'[{]}!@#$%^&*()-_");
    assert forall|i: int| 0 <= i < encoding(n).len() implies encoding(n)[i] != '/' && encoding(
        n,
    )[i] != ':' by {
        assert(alphabet().contains(encoding(n)[i]));
        let k = choose|k: int| 0 <= k < alphabet().len() && alphabet()[k] == encoding(n)[i];
    }
}

/// A section written for `tag` reads back, under `tag`, as its id.
pub proof fn lemma_section_id_of_tag(tag: Seq<char>, id: u64)
    ensures
        section_id(tag_section(tag, id), tag) == Some(id),
{
    let p = tag_prefix(tag);
    let sec = tag_section(tag, id);
    assert(sec.take(p.len() as int) =~= p);
    assert(sec.skip(p.len() as int) =~= encoding(id as nat));
    lemma_decode_encode(id);
}

/// A section written for one tag carries nothing for another, when neither
/// tag holds a `:`.
pub proof fn lemma_section_id_other_tag(t1: Seq<char>, t2: Seq<char>, id: u64)
    requires
        t1 != t2,
        no_colon(t1),
        no_colon(t2),
    ensures
        section_id(tag_section(t2, id), t1) is None,
{
    let p = tag_prefix(t1);
    let sec = tag_section(t2, id);
    lemma_encoding_plain(id as nat);
    if sec.len() >= p.len() && sec.take(p.len() as int) == p {
        let a = t1.len() as int;
        let b = t2.len() as int;
        assert(p[a + 1] == ':');
        assert(sec[a + 1] == p[a + 1]);
        if a < b {
            assert(sec[a + 1] == t2[a]);
        } else if a > b {
            assert(sec[b + 1] == ':');
            assert(p[b + 1] == t1[b]);
        } else {
            assert forall|i: int| 0 <= i < a implies t1[i] == t2[i] by {
                assert(sec[i + 1] == p[i + 1]);
            }
            assert(t1 =~= t2);
        }
    }
}

/// Every finite set of ids has an increasing listing.
pub proof fn lemma_set_listing_exists(s: Set<u64>)
    requires
        s.finite(),
    ensures
        strictly_increasing(set_listing(s)),
        set_listing(s).to_set() == s,
    decreases s.len(),
{
    if s.len() == 0 {
        let l = Seq::<u64>::empty();
        assert(l.to_set() =~= s);
    } else {
        let k = lemma_max_member(s);
        let s2 = s.remove(k);
        lemma_set_listing_exists(s2);
        let t = set_listing(s2);
        let l = t.push(k);
        assert forall|a: int, b: int| 0 <= a < b < l.len() implies #[trigger] l[a]
            < #[trigger] l[b] by {
            if b == t.len() {
                assert(t.to_set().contains(t[a]));
                assert(s2.contains(t[a]));
            }
        }
        assert forall|v: u64| l.to_set().contains(v) implies s.contains(v) by {
            let i = choose|i: int| 0 <= i < l.len() && l[i] == v;
            if i < t.len() {
                assert(t.to_set().contains(t[i]));
            }
        }
        assert forall|v: u64| s.contains(v) implies l.to_set().contains(v) by {
            if v == k {
                assert(l[t.len() as int] == k);
            } else {
                assert(s2.contains(v));
                assert(t.to_set().contains(v));
                let i = choose|i: int| 0 <= i < t.len() && t[i] == v;
                assert(l[i] == v);
            }
        }
        assert(l.to_set() =~= s);
    }
}

proof fn lemma_max_member(s: Set<u64>) -> (k: u64)
    requires
        s.finite(),
        s.len() > 0,
    ensures
        s.contains(k),
        forall|q: u64| #[trigger] s.contains(q) ==> q <= k,
    decreases s.len(),
{
    let k0 = s.choose();
    let s2 = s.remove(k0);
    if s2.len() == 0 {
        assert forall|q: u64| #[trigger] s.contains(q) implies q <= k0 by {
            if q != k0 {
                assert(s2.contains(q));
            }
        }
        k0
    } else {
        let k1 = lemma_max_member(s2);
        if k1 < k0 {
            k0
        } else {
            k1
        }
    }
}

/// Reading `tag` from the sections written for it gives back the ids; a
/// different tag (neither holding `:`) reads nothing from them.
pub proof fn lemma_tagged_ids(tag: Seq<char>, other: Seq<char>, ids: Set<u64>)
    requires
        ids.finite(),
    ensures
        ids_in(tagged(tag, ids), tag) == ids,
        tag != other && no_colon(tag) && no_colon(other) ==> ids_in(tagged(tag, ids), other)
            == Set::<u64>::empty(),
        forall|i: int| 0 <= i < tagged(tag, ids).len() ==> (no_slash(tag) ==> no_slash(
            #[trigger] tagged(tag, ids)[i],
        )),
{
    lemma_set_listing_exists(ids);
    let l = set_listing(ids);
    let secs = tagged(tag, ids);
    assert forall|v: u64| ids_in(secs, tag).contains(v) implies ids.contains(v) by {
        let i = choose|i: int| 0 <= i < secs.len() && section_id(secs[i], tag) == Some(v);
        lemma_section_id_of_tag(tag, l[i]);
        assert(l.to_set().contains(l[i]));
    }
    assert forall|v: u64| ids.contains(v) implies ids_in(secs, tag).contains(v) by {
        assert(l.to_set().contains(v));
        let i = choose|i: int| 0 <= i < l.len() && l[i] == v;
        lemma_section_id_of_tag(tag, v);
        assert(secs[i] == tag_section(tag, v));
    }
    assert(ids_in(secs, tag) =~= ids);
    if tag != other && no_colon(tag) && no_colon(other) {
        assert forall|v: u64| !ids_in(secs, other).contains(v) by {
            if ids_in(secs, other).contains(v) {
                let i = choose|i: int| 0 <= i < secs.len() && section_id(secs[i], other) == Some(v);
                lemma_section_id_other_tag(other, tag, l[i]);
            }
        }
        assert(ids_in(secs, other) =~= Set::<u64>::empty());
    }
    assert forall|i: int| 0 <= i < secs.len() && no_slash(tag) implies no_slash(
        #[trigger] secs[i],
    ) by {
        lemma_encoding_plain(l[i] as nat);
        let sec = secs[i];
        assert forall|q: int| 0 <= q < sec.len() implies sec[q] != '/' by {
            let t = tag.len() as int;
            if 1 <= q <= t {
                assert(sec[q] == tag[q - 1]);
            } else if q > t + 1 {
                assert(sec[q] == encoding(l[i] as nat)[q - t - 2]);
            }
        }
    }
}

/// A custom id made of some leading sections and then the sections of two
/// differently tagged id sets reads back each set under its tag, when no
/// leading section starts with `:` and nothing holds a `/`.
pub proof fn lemma_custom_id_round_trip(
    head: Seq<Seq<char>>,
    t1: Seq<char>,
    ids1: Set<u64>,
    t2: Seq<char>,
    ids2: Set<u64>,
)
    requires
        head.len() >= 1,
        forall|i: int|
            0 <= i < head.len() ==> no_slash(#[trigger] head[i]) && (head[i].len() == 0
                || head[i][0] != ':'),
        t1 != t2,
        no_colon(t1),
        no_colon(t2),
        no_slash(t1),
        no_slash(t2),
        ids1.finite(),
        ids2.finite(),
    ensures
        sections(join_sections(head + tagged(t1, ids1) + tagged(t2, ids2))) == head + tagged(
            t1,
            ids1,
        ) + tagged(t2, ids2),
        ids_in(sections(join_sections(head + tagged(t1, ids1) + tagged(t2, ids2))), t1) == ids1,
        ids_in(sections(join_sections(head + tagged(t1, ids1) + tagged(t2, ids2))), t2) == ids2,
{
    let a = tagged(t1, ids1);
    let b = tagged(t2, ids2);
    let all = head + a + b;
    lemma_tagged_ids(t1, t2, ids1);
    lemma_tagged_ids(t2, t1, ids2);
    assert forall|i: int| 0 <= i < all.len() implies no_slash(#[trigger] all[i]) by {
        if i < head.len() {
            assert(all[i] == head[i]);
        } else if i < head.len() + a.len() {
            assert(all[i] == a[i - head.len()]);
        } else {
            assert(all[i] == b[i - head.len() - a.len()]);
        }
    }
    lemma_sections_join(all);
    assert forall|v: u64| !ids_in(head, t1).contains(v) && !ids_in(head, t2).contains(v) by {
        if ids_in(head, t1).contains(v) {
            let i = choose|i: int| 0 <= i < head.len() && section_id(head[i], t1) == Some(v);
            assert(tag_prefix(t1)[0] == ':');
            assert(head[i].take(tag_prefix(t1).len() as int)[0] == head[i][0]);
        }
        if ids_in(head, t2).contains(v) {
            let i = choose|i: int| 0 <= i < head.len() && section_id(head[i], t2) == Some(v);
            assert(tag_prefix(t2)[0] == ':');
            assert(head[i].take(tag_prefix(t2).len() as int)[0] == head[i][0]);
        }
    }
    assert(ids_in(head, t1) =~= Set::<u64>::empty());
    assert(ids_in(head, t2) =~= Set::<u64>::empty());
    lemma_ids_in_concat(head + a, b, t1);
    lemma_ids_in_concat(head, a, t1);
    lemma_ids_in_concat(head + a, b, t2);
    lemma_ids_in_concat(head, a, t2);
    assert(ids_in(all, t1) =~= ids1);
    assert(ids_in(all, t2) =~= ids2);
}

} // verus!
