//! Lists of items filed under keys, in the order in which the items came.
use std::collections::BTreeMap;
use vstd::prelude::*;

verus! {

/// The items that stand beside `k`, in order.
pub open spec fn items_of<K, T>(pairs: Seq<(K, T)>, k: K) -> Seq<T>
    decreases pairs.len(),
{
    if pairs.len() == 0 {
        Seq::empty()
    } else if pairs.last().0 == k {
        items_of(pairs.drop_last(), k).push(pairs.last().1)
    } else {
        items_of(pairs.drop_last(), k)
    }
}

/// Some item stands beside `k`.
pub open spec fn has_key<K, T>(pairs: Seq<(K, T)>, k: K) -> bool {
    exists|i: int| 0 <= i < pairs.len() && (#[trigger] pairs[i]).0 == k
}

/// What is filed under `k`.
pub open spec fn listed<K, T>(m: Map<K, Seq<T>>, k: K) -> Seq<T> {
    if m.contains_key(k) {
        m[k]
    } else {
        Seq::empty()
    }
}

/// `m` after each item was filed, behind what was there, under the key that
/// stands beside it.
pub open spec fn extended<K, T>(m: Map<K, Seq<T>>, pairs: Seq<(K, T)>) -> Map<K, Seq<T>> {
    Map::new(
        |k: K| m.contains_key(k) || has_key(pairs, k),
        |k: K| listed(m, k) + items_of(pairs, k),
    )
}

/// Each item filed under the key that stands beside it, and nothing else.
pub open spec fn gathered<K, T>(pairs: Seq<(K, T)>) -> Map<K, Seq<T>> {
    extended(Map::empty(), pairs)
}

/// `m` after one item was filed under `k`.
pub open spec fn with_item<K, T>(m: Map<K, Seq<T>>, k: K, item: T) -> Map<K, Seq<T>> {
    m.insert(k, listed(m, k).push(item))
}

pub proof fn lemma_extended_by_nothing<K, T>(m: Map<K, Seq<T>>)
    ensures
        extended(m, Seq::empty()) == m,
{
    let none: Seq<(K, T)> = Seq::empty();
    assert(extended(m, none) =~= m) by {
        assert forall|k: K| m.contains_key(k) implies #[trigger] extended(m, none)[k] == m[k] by {
            assert(m[k] + items_of(none, k) =~= m[k]);
        }
    }
}

pub proof fn lemma_extended_by_one<K, T>(m: Map<K, Seq<T>>, pairs: Seq<(K, T)>, pair: (K, T))
    ensures
        extended(m, pairs.push(pair)) == with_item(extended(m, pairs), pair.0, pair.1),
{
    let more = pairs.push(pair);
    let before = extended(m, pairs);
    let after = extended(m, more);
    assert(more.drop_last() =~= pairs);
    assert forall|k: K| has_key(more, k) == (has_key(pairs, k) || k == pair.0) by {
        if has_key(pairs, k) {
            let i = choose|i: int| 0 <= i < pairs.len() && (#[trigger] pairs[i]).0 == k;
            assert(more[i] == pairs[i]);
        }
        if k == pair.0 {
            assert(more[pairs.len() as int].0 == k);
        }
        if has_key(more, k) {
            let i = choose|i: int| 0 <= i < more.len() && (#[trigger] more[i]).0 == k;
            if i < pairs.len() {
                assert(pairs[i].0 == k);
            }
        }
    }
    assert forall|k: K| after.contains_key(k) implies #[trigger] after[k] == with_item(
        before,
        pair.0,
        pair.1,
    )[k] by {
        if !has_key(pairs, k) {
            lemma_no_items(pairs, k);
        }
        assert(listed(m, k) + items_of(pairs, k).push(pair.1) =~= (listed(m, k) + items_of(
            pairs,
            k,
        )).push(pair.1));
        assert(Seq::<T>::empty() + Seq::<T>::empty() =~= Seq::<T>::empty());
    }
    assert(after =~= with_item(before, pair.0, pair.1));
}

pub proof fn lemma_no_items<K, T>(pairs: Seq<(K, T)>, k: K)
    requires
        !has_key(pairs, k),
    ensures
        items_of(pairs, k) == Seq::<T>::empty(),
    decreases pairs.len(),
{
    if pairs.len() > 0 {
        assert(pairs[pairs.len() - 1].0 != k);
        assert forall|i: int| 0 <= i < pairs.drop_last().len() implies (
        #[trigger] pairs.drop_last()[i]).0 != k by {
            assert(pairs[i].0 != k);
        }
        lemma_no_items(pairs.drop_last(), k);
    }
}

/// Filing two batches one after the other is filing both at once.
pub proof fn lemma_extended_twice<K, T>(m: Map<K, Seq<T>>, a: Seq<(K, T)>, b: Seq<(K, T)>)
    ensures
        extended(extended(m, a), b) == extended(m, a + b),
    decreases b.len(),
{
    if b.len() == 0 {
        assert(a + b =~= a);
        assert(b =~= Seq::empty());
        lemma_extended_by_nothing(extended(m, a));
    } else {
        let init = b.drop_last();
        lemma_extended_twice(m, a, init);
        assert(init.push(b.last()) =~= b);
        assert((a + init).push(b.last()) =~= a + b);
        lemma_extended_by_one(extended(m, a), init, b.last());
        lemma_extended_by_one(m, a + init, b.last());
    }
}

/// An item is filed under a key if and only if it stood beside that key.
pub proof fn lemma_items_hold<K, T>(pairs: Seq<(K, T)>, k: K, item: T)
    ensures
        items_of(pairs, k).contains(item) <==> pairs.contains((k, item)),
    decreases pairs.len(),
{
    let items = items_of(pairs, k);
    if pairs.len() > 0 {
        let init = pairs.drop_last();
        let before = items_of(init, k);
        lemma_items_hold(init, k, item);
        if pairs.contains((k, item)) {
            let i = choose|i: int| 0 <= i < pairs.len() && pairs[i] == (k, item);
            if i < init.len() {
                assert(init[i] == (k, item));
                let j = choose|j: int| 0 <= j < before.len() && before[j] == item;
                assert(items[j] == item);
            } else {
                assert(items[items.len() - 1] == item);
            }
        }
        if items.contains(item) {
            let j = choose|j: int| 0 <= j < items.len() && items[j] == item;
            if j < before.len() {
                assert(before[j] == item);
                let i = choose|i: int| 0 <= i < init.len() && init[i] == (k, item);
                assert(pairs[i] == (k, item));
            } else {
                assert(pairs[pairs.len() - 1] == (k, item));
            }
        }
    }
}

/// What holds of every item and its key before a batch is filed, and of every
/// item and key of the batch, holds afterwards.
pub proof fn lemma_extended_each<K, T>(
    m: Map<K, Seq<T>>,
    pairs: Seq<(K, T)>,
    p: spec_fn(K, T) -> bool,
)
    requires
        forall|k: K, i: int| m.contains_key(k) && 0 <= i < m[k].len() ==> p(k, #[trigger] m[k][i]),
        forall|j: int| 0 <= j < pairs.len() ==> p((#[trigger] pairs[j]).0, pairs[j].1),
    ensures
        forall|k: K, i: int|
            extended(m, pairs).contains_key(k) && 0 <= i < extended(m, pairs)[k].len() ==> p(
                k,
                #[trigger] extended(m, pairs)[k][i],
            ),
{
    let e = extended(m, pairs);
    assert forall|k: K, i: int| e.contains_key(k) && 0 <= i < e[k].len() implies p(
        k,
        #[trigger] e[k][i],
    ) by {
        let first = listed(m, k);
        if i < first.len() {
            assert(e[k][i] == m[k][i]);
        } else {
            let item = items_of(pairs, k)[i - first.len()];
            assert(e[k][i] == item);
            assert(items_of(pairs, k).contains(item));
            lemma_items_hold(pairs, k, item);
            let j = choose|j: int| 0 <= j < pairs.len() && pairs[j] == (k, item);
            assert(p(pairs[j].0, pairs[j].1));
        }
    }
}

/// Filing a batch leaves the keys finite.
pub proof fn lemma_extended_finite<K, T>(m: Map<K, Seq<T>>, pairs: Seq<(K, T)>)
    requires
        m.dom().finite(),
    ensures
        extended(m, pairs).dom().finite(),
    decreases pairs.len(),
{
    if pairs.len() == 0 {
        assert(pairs =~= Seq::empty());
        lemma_extended_by_nothing(m);
    } else {
        let init = pairs.drop_last();
        let last = pairs.last();
        lemma_extended_finite(m, init);
        lemma_extended_by_one(m, init, last);
        assert(init.push(last) =~= pairs);
        assert(with_item(extended(m, init), last.0, last.1).dom() =~= extended(
            m,
            init,
        ).dom().insert(last.0));
    }
}

/// Two items that stand beside one key are both filed under it.
pub proof fn lemma_two_items<K, T>(pairs: Seq<(K, T)>, k: K, i: int, j: int)
    requires
        0 <= i < j < pairs.len(),
        pairs[i].0 == k,
        pairs[j].0 == k,
    ensures
        items_of(pairs, k).len() > 1,
    decreases pairs.len(),
{
    let init = pairs.drop_last();
    if j < init.len() {
        lemma_two_items(init, k, i, j);
    } else {
        assert(init[i] == (k, pairs[i].1));
        lemma_items_hold(init, k, pairs[i].1);
        assert(init.contains((k, pairs[i].1)));
    }
}

/// The contents of the lists of a map.
pub open spec fn contents<K, T: DeepView>(m: Map<K, Vec<T>>) -> Map<K, Seq<T::V>> {
    m.map_values(|v: Vec<T>| v.deep_view())
}

/// Files `item` under `k`.
pub fn add_item<T: DeepView>(m: &mut BTreeMap<u64, Vec<T>>, k: u64, item: T)
    ensures
        contents(final(m)@) == with_item(contents(old(m)@), k, item.deep_view()),
{
    let mut list: Vec<T> = match m.remove(&k) {
        Some(list) => list,
        None => Vec::new(),
    };
    let ghost before = list.deep_view();
    assert(before =~= listed(contents(old(m)@), k));
    list.push(item);
    assert(list.deep_view() =~= before.push(item.deep_view()));
    m.insert(k, list);
    assert(contents(m@) =~= with_item(contents(old(m)@), k, item.deep_view()));
}

// ---------------------------------------------------------------------------
// Keys in order
// ---------------------------------------------------------------------------

/// Each number is less than those that follow it.
pub open spec fn ascending(s: Seq<u64>) -> bool {
    forall|i: int, j: int| 0 <= i < j < s.len() ==> s[i] < s[j]
}

/// `s` is the keys of `m`, in ascending order.
pub open spec fn lists_keys<V>(s: Seq<u64>, m: Map<u64, V>) -> bool {
    &&& ascending(s)
    &&& forall|k: u64| #[trigger] s.contains(k) <==> m.contains_key(k)
}

/// The keys of `m`, in ascending order.
pub open spec fn keys_of<V>(m: Map<u64, V>) -> Seq<u64> {
    choose|s: Seq<u64>| lists_keys(s, m)
}

/// A set of numbers has one ascending order.
proof fn lemma_ascending_unique(a: Seq<u64>, b: Seq<u64>)
    requires
        ascending(a),
        ascending(b),
        forall|k: u64| #[trigger] a.contains(k) <==> b.contains(k),
    ensures
        a == b,
    decreases a.len(),
{
    if a.len() == 0 {
        if b.len() > 0 {
            assert(b.contains(b[0]));
            assert(a.contains(b[0]));
        }
        assert(a =~= b);
    } else {
        assert(a.contains(a.last()));
        assert(b.contains(a.last()));
        assert(b.contains(b.last()));
        assert(a.contains(b.last()));
        let i = choose|i: int| 0 <= i < a.len() && a[i] == b.last();
        let j = choose|j: int| 0 <= j < b.len() && b[j] == a.last();
        assert(a[i] <= a.last());
        assert(b[j] <= b.last());
        assert(a.last() == b.last());
        assert forall|k: u64| #[trigger] a.drop_last().contains(k) <==> b.drop_last().contains(
            k,
        ) by {
            lemma_without_last(a, k);
            lemma_without_last(b, k);
        }
        lemma_ascending_unique(a.drop_last(), b.drop_last());
        assert(a =~= a.drop_last().push(a.last()));
        assert(b =~= b.drop_last().push(b.last()));
    }
}

proof fn lemma_without_last(a: Seq<u64>, k: u64)
    requires
        ascending(a),
        a.len() > 0,
    ensures
        a.drop_last().contains(k) <==> a.contains(k) && k != a.last(),
{
    if a.contains(k) && k != a.last() {
        let i = choose|i: int| 0 <= i < a.len() && a[i] == k;
        assert(a.drop_last()[i] == k);
    }
    if a.drop_last().contains(k) {
        let i = choose|i: int| 0 <= i < a.drop_last().len() && a.drop_last()[i] == k;
        assert(a[i] == k);
        assert(a[i] < a[a.len() - 1]);
    }
}

/// An ascending list of the keys of `m` is the list of its keys.
pub proof fn lemma_keys_are<V>(s: Seq<u64>, m: Map<u64, V>)
    requires
        lists_keys(s, m),
    ensures
        keys_of(m) == s,
{
    let t = keys_of(m);
    assert(lists_keys(t, m));
    assert forall|k: u64| #[trigger] t.contains(k) <==> s.contains(k) by {
        assert(m.contains_key(k) == s.contains(k));
    }
    lemma_ascending_unique(t, s);
}

proof fn lemma_place_in_order(s: Seq<u64>, a: u64) -> (r: Seq<u64>)
    requires
        ascending(s),
        !s.contains(a),
    ensures
        ascending(r),
        forall|k: u64| #[trigger] r.contains(k) <==> s.contains(k) || k == a,
    decreases s.len(),
{
    if s.len() == 0 || s.last() < a {
        let r = s.push(a);
        assert forall|k: u64| #[trigger] r.contains(k) <==> s.contains(k) || k == a by {
            if s.contains(k) {
                let i = choose|i: int| 0 <= i < s.len() && s[i] == k;
                assert(r[i] == k);
            }
            assert(r[s.len() as int] == a);
        }
        r
    } else {
        let init = s.drop_last();
        assert(s[s.len() - 1] == s.last());
        assert(s.contains(s.last()));
        lemma_without_last(s, a);
        let placed = lemma_place_in_order(init, a);
        let r = placed.push(s.last());
        assert forall|i: int, j: int| 0 <= i < j < r.len() implies r[i] < r[j] by {
            if j == placed.len() {
                assert(placed.contains(placed[i]));
                if placed[i] != a {
                    lemma_without_last(s, placed[i]);
                    let h = choose|h: int| 0 <= h < init.len() && init[h] == placed[i];
                    assert(s[h] < s[s.len() - 1]);
                }
            }
        }
        assert forall|k: u64| #[trigger] r.contains(k) <==> s.contains(k) || k == a by {
            lemma_without_last(s, k);
            assert(r[placed.len() as int] == s.last());
            if placed.contains(k) {
                let i = choose|i: int| 0 <= i < placed.len() && placed[i] == k;
                assert(r[i] == k);
            }
            if r.contains(k) && k != s.last() {
                let i = choose|i: int| 0 <= i < r.len() && r[i] == k;
                assert(placed[i] == k);
            }
        }
        r
    }
}

proof fn lemma_order_exists(d: Set<u64>) -> (r: Seq<u64>)
    requires
        d.finite(),
    ensures
        ascending(r),
        forall|k: u64| #[trigger] r.contains(k) <==> d.contains(k),
    decreases d.len(),
{
    if d.len() == 0 {
        Seq::empty()
    } else {
        let a = d.choose();
        let rest = lemma_order_exists(d.remove(a));
        assert(!rest.contains(a));
        lemma_place_in_order(rest, a)
    }
}

/// The keys of a finite map can be listed in order.
pub proof fn lemma_keys_exist<V>(m: Map<u64, V>)
    requires
        m.dom().finite(),
    ensures
        lists_keys(keys_of(m), m),
{
    let s = lemma_order_exists(m.dom());
    assert(lists_keys(s, m));
}

/// Walking the keys of a `BTreeMap` lists them in ascending order.
proof fn lemma_walk_lists_keys<V>(m: &BTreeMap<u64, V>)
    ensures
        lists_keys(vstd::std_specs::iter::IteratorSpec::remaining(&m.keys()).unref(), m@),
{
    let walk = vstd::std_specs::iter::IteratorSpec::remaining(&m.keys());
    assert(vstd::laws_cmp::obeys_cmp::<&u64>());
    assert(vstd::std_specs::btree::increasing_seq(walk));
    assert(walk.unref().to_set() == m@.dom());
    let s = walk.unref();
    assert forall|i: int, j: int| 0 <= i < j < s.len() implies s[i] < s[j] by {
        assert(s[i] == *walk[i] && s[j] == *walk[j]);
        assert(vstd::std_specs::cmp::OrdSpec::cmp_spec(&walk[i], &walk[j]) is Less);
        assert(vstd::std_specs::cmp::OrdSpec::cmp_spec(walk[i], walk[j]) is Less);
    }
    assert forall|k: u64| #[trigger] s.contains(k) <==> m@.contains_key(k) by {
        assert(s.to_set().contains(k) == s.contains(k));
    }
}

/// The keys of a map, in ascending order.
pub fn keys_in_order<V>(m: &BTreeMap<u64, V>) -> (r: Vec<u64>)
    ensures
        r@ == keys_of(m@),
        lists_keys(r@, m@),
{
    let mut r: Vec<u64> = Vec::new();
    for k in it: m.keys()
        invariant
            it.seq() == vstd::std_specs::iter::IteratorSpec::remaining(&m.keys()),
            r@ == it.seq().unref().take(it.index() as int),
    {
        r.push(*k);
        assert(r@ =~= it.seq().unref().take(it.index() + 1));
    }
    proof {
        assert(r@ =~= vstd::std_specs::iter::IteratorSpec::remaining(&m.keys()).unref());
        lemma_walk_lists_keys(m);
        lemma_keys_are(r@, m@);
    }
    r
}

// ---------------------------------------------------------------------------
// Laws
// ---------------------------------------------------------------------------

/// What is filed stands behind what was there: under each key first the items that
/// stood there, then those of the pairs with that key, in their order and each as
/// often as it comes. There is no key but those of the map and of the pairs.
pub proof fn law_items_are_filed<K, T>(m: Map<K, Seq<T>>, pairs: Seq<(K, T)>, k: K)
    ensures
        extended(m, pairs).contains_key(k) <==> m.contains_key(k) || exists|i: int|
            0 <= i < pairs.len() && (#[trigger] pairs[i]).0 == k,
        extended(m, pairs).contains_key(k) ==> extended(m, pairs)[k] == (if m.contains_key(k) {
            m[k]
        } else {
            Seq::empty()
        }) + pairs.filter(|p: (K, T)| p.0 == k).map_values(|p: (K, T)| p.1),
        gathered(pairs).contains_key(k) <==> exists|i: int|
            0 <= i < pairs.len() && (#[trigger] pairs[i]).0 == k,
        gathered(pairs).contains_key(k) ==> gathered(pairs)[k] == pairs.filter(
            |p: (K, T)| p.0 == k,
        ).map_values(|p: (K, T)| p.1),
{
    lemma_items_are_filtered(pairs, k);
    let items = pairs.filter(|p: (K, T)| p.0 == k).map_values(|p: (K, T)| p.1);
    assert(Seq::<T>::empty() + items =~= items);
}

proof fn lemma_items_are_filtered<K, T>(pairs: Seq<(K, T)>, k: K)
    ensures
        items_of(pairs, k) == pairs.filter(|p: (K, T)| p.0 == k).map_values(|p: (K, T)| p.1),
    decreases pairs.len(),
{
    reveal(Seq::filter);
    let items = pairs.filter(|p: (K, T)| p.0 == k).map_values(|p: (K, T)| p.1);
    if pairs.len() > 0 {
        lemma_items_are_filtered(pairs.drop_last(), k);
        let before = pairs.drop_last().filter(|p: (K, T)| p.0 == k).map_values(|p: (K, T)| p.1);
        if pairs.last().0 == k {
            assert(items =~= before.push(pairs.last().1));
        }
    } else {
        assert(items =~= Seq::empty());
    }
}

/// One item more stands at the end under its key, and nothing else changes.
pub proof fn law_item_is_added<K, T>(m: Map<K, Seq<T>>, k: K, item: T, l: K)
    ensures
        with_item(m, k, item).contains_key(l) <==> l == k || m.contains_key(l),
        with_item(m, k, item)[k].last() == item,
        with_item(m, k, item)[k].drop_last() == (if m.contains_key(k) {
            m[k]
        } else {
            Seq::empty()
        }),
        with_item(m, k, item)[k].len() == (if m.contains_key(k) {
            m[k].len()
        } else {
            0
        }) + 1,
        l != k && m.contains_key(l) ==> with_item(m, k, item)[l] == m[l],
{
    assert(with_item(m, k, item)[k].drop_last() =~= listed(m, k));
}

/// What a map of lists is leaves nothing out.
pub proof fn law_contents_are_all<K, T: DeepView>(m: Map<K, Vec<T>>, k: K)
    ensures
        contents(m).contains_key(k) <==> m.contains_key(k),
        m.contains_key(k) ==> contents(m)[k].len() == m[k]@.len() && forall|i: int|
            0 <= i < m[k]@.len() ==> #[trigger] contents(m)[k][i] == m[k]@[i].deep_view(),
{
}

/// The keys are listed in ascending order, each once, and all of them.
pub proof fn law_keys_ascend<V>(m: Map<u64, V>)
    requires
        m.dom().finite(),
    ensures
        forall|i: int, j: int| 0 <= i < j < keys_of(m).len() ==> keys_of(m)[i] < keys_of(m)[j],
        forall|k: u64|
            m.contains_key(k) <==> exists|i: int|
                0 <= i < keys_of(m).len() && #[trigger] keys_of(m)[i] == k,
{
    lemma_keys_exist(m);
    assert forall|k: u64|
        m.contains_key(k) <==> exists|i: int|
            0 <= i < keys_of(m).len() && #[trigger] keys_of(m)[i] == k by {
        assert(keys_of(m).contains(k) <==> m.contains_key(k));
    }
}

} // verus!
