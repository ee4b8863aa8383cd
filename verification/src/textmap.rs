//! A map from texts that keeps its keys in order.
use crate::grouping;
use crate::text;
use vstd::prelude::*;

verus! {

/// Each text comes before those that follow it.
pub open spec fn in_order(s: Seq<Seq<char>>) -> bool {
    forall|i: int, j: int| 0 <= i < j < s.len() ==> text::precedes(#[trigger] s[i], #[trigger] s[j])
}

/// `s` is the keys of `m`, in order.
pub open spec fn lists_keys<V>(s: Seq<Seq<char>>, m: Map<Seq<char>, V>) -> bool {
    &&& in_order(s)
    &&& forall|k: Seq<char>| #[trigger] s.contains(k) <==> m.contains_key(k)
}

/// The keys of `m`, in order.
pub open spec fn keys_of<V>(m: Map<Seq<char>, V>) -> Seq<Seq<char>> {
    choose|s: Seq<Seq<char>>| lists_keys(s, m)
}

proof fn lemma_without_last(a: Seq<Seq<char>>, k: Seq<char>)
    requires
        in_order(a),
        a.len() > 0,
    ensures
        a.drop_last().contains(k) <==> a.contains(k) && k != a.last(),
{
    if a.contains(k) && k != a.last() {
        let i = choose|i: int| 0 <= i < a.len() && a[i] == k;
        assert(a.drop_last()[i] == k);
    }
    if a.drop_last().contains(k) {
        let i = choose|i: int| 0 <= i < a.drop_last().len() && a.drop_last()[i] == k;
        assert(a[i] == k);
        assert(text::precedes(a[i], a[a.len() - 1]));
        text::lemma_precedes_irreflexive(k);
    }
}

proof fn lemma_order_unique(a: Seq<Seq<char>>, b: Seq<Seq<char>>)
    requires
        in_order(a),
        in_order(b),
        forall|k: Seq<char>| #[trigger] a.contains(k) <==> b.contains(k),
    ensures
        a == b,
    decreases a.len(),
{
    if a.len() == 0 {
        if b.len() > 0 {
            assert(b.contains(b[0]));
            assert(a.contains(b[0]));
        }
        assert(a =~= b);
    } else {
        assert(a.contains(a.last()));
        assert(b.contains(a.last()));
        assert(b.contains(b.last()));
        assert(a.contains(b.last()));
        let i = choose|i: int| 0 <= i < a.len() && a[i] == b.last();
        let j = choose|j: int| 0 <= j < b.len() && b[j] == a.last();
        if a.last() != b.last() {
            assert(text::precedes(a[i], a[a.len() - 1]));
            assert(text::precedes(b[j], b[b.len() - 1]));
            text::lemma_precedes_transitive(a.last(), b.last(), a.last());
            text::lemma_precedes_irreflexive(a.last());
        }
        assert forall|k: Seq<char>| #[trigger]
            a.drop_last().contains(k) <==> b.drop_last().contains(k) by {
            lemma_without_last(a, k);
            lemma_without_last(b, k);
        }
        lemma_order_unique(a.drop_last(), b.drop_last());
        assert(a =~= a.drop_last().push(a.last()));
        assert(b =~= b.drop_last().push(b.last()));
    }
}

/// An ordered list of the keys of `m` is the list of its keys.
pub proof fn lemma_keys_are<V>(s: Seq<Seq<char>>, m: Map<Seq<char>, V>)
    requires
        lists_keys(s, m),
    ensures
        keys_of(m) == s,
{
    let t = keys_of(m);
    assert(lists_keys(t, m));
    assert forall|k: Seq<char>| #[trigger] t.contains(k) <==> s.contains(k) by {
        assert(m.contains_key(k) == s.contains(k));
    }
    lemma_order_unique(t, s);
}

/// Values filed under texts, kept in the order of the texts.
pub struct TextMap<V> {
    entries: Vec<(String, V)>,
}

/// An ordered list can take one more text.
proof fn lemma_place_in_order(s: Seq<Seq<char>>, a: Seq<char>) -> (r: Seq<Seq<char>>)
    requires
        in_order(s),
        !s.contains(a),
    ensures
        in_order(r),
        forall|k: Seq<char>| #[trigger] r.contains(k) <==> s.contains(k) || k == a,
    decreases s.len(),
{
    if s.len() == 0 {
        let r = seq![a];
        assert(r[0] == a);
        r
    } else {
        let last = s.last();
        assert(s.contains(last));
        text::lemma_precedes_total(a, last);
        if text::precedes(last, a) {
            let r = s.push(a);
            assert forall|i: int, j: int| 0 <= i < j < r.len() implies text::precedes(
                #[trigger] r[i],
                #[trigger] r[j],
            ) by {
                if j == s.len() && i < s.len() - 1 {
                    text::lemma_precedes_transitive(s[i], last, a);
                }
            }
            assert forall|k: Seq<char>| #[trigger] r.contains(k) <==> s.contains(k) || k == a by {
                if s.contains(k) {
                    let i = choose|i: int| 0 <= i < s.len() && s[i] == k;
                    assert(r[i] == k);
                }
                assert(r[s.len() as int] == a);
            }
            r
        } else {
            let init = s.drop_last();
            assert forall|k: Seq<char>| #[trigger] init.contains(k) implies s.contains(k) by {
                let i = choose|i: int| 0 <= i < init.len() && init[i] == k;
                assert(s[i] == k);
            }
            let placed = lemma_place_in_order(init, a);
            let r = placed.push(last);
            assert forall|i: int, j: int| 0 <= i < j < r.len() implies text::precedes(
                #[trigger] r[i],
                #[trigger] r[j],
            ) by {
                if j == placed.len() {
                    assert(placed.contains(placed[i]));
                    if placed[i] != a {
                        let h = choose|h: int| 0 <= h < init.len() && init[h] == placed[i];
                        assert(text::precedes(s[h], s[s.len() - 1]));
                    }
                }
            }
            assert forall|k: Seq<char>| #[trigger] r.contains(k) <==> s.contains(k) || k == a by {
                lemma_without_last(s, k);
                assert(r[placed.len() as int] == last);
                if placed.contains(k) {
                    let i = choose|i: int| 0 <= i < placed.len() && placed[i] == k;
                    assert(r[i] == k);
                }
                if r.contains(k) && k != last {
                    let i = choose|i: int| 0 <= i < r.len() && r[i] == k;
                    assert(placed[i] == k);
                }
            }
            r
        }
    }
}

proof fn lemma_order_exists(d: Set<Seq<char>>) -> (r: Seq<Seq<char>>)
    requires
        d.finite(),
    ensures
        in_order(r),
        forall|k: Seq<char>| #[trigger] r.contains(k) <==> d.contains(k),
    decreases d.len(),
{
    if d.len() == 0 {
        Seq::empty()
    } else {
        let a = d.choose();
        let rest = lemma_order_exists(d.remove(a));
        assert(!rest.contains(a));
        lemma_place_in_order(rest, a)
    }
}

/// The keys of a finite map can be listed in order.
pub proof fn lemma_keys_exist<V>(m: Map<Seq<char>, V>)
    requires
        m.dom().finite(),
    ensures
        lists_keys(keys_of(m), m),
{
    let s = lemma_order_exists(m.dom());
    assert(lists_keys(s, m));
}

spec fn entry_keys<V>(entries: Seq<(String, V)>) -> Seq<Seq<char>> {
    entries.map_values(|e: (String, V)| e.0@)
}

spec fn entry_map<V>(entries: Seq<(String, V)>) -> Map<Seq<char>, V> {
    Map::new(
        |k: Seq<char>| entry_keys(entries).contains(k),
        |k: Seq<char>| entries[entry_keys(entries).index_of(k)].1,
    )
}

proof fn lemma_distinct(s: Seq<Seq<char>>, i: int, j: int)
    requires
        in_order(s),
        0 <= i < s.len(),
        0 <= j < s.len(),
        s[i] == s[j],
    ensures
        i == j,
{
    text::lemma_precedes_irreflexive(s[i]);
    if i < j {
        assert(text::precedes(s[i], s[j]));
    } else if j < i {
        assert(text::precedes(s[j], s[i]));
    }
}

proof fn lemma_entry_map_at<V>(entries: Seq<(String, V)>, i: int)
    requires
        in_order(entry_keys(entries)),
        0 <= i < entries.len(),
    ensures
        entry_map(entries).contains_key(entries[i].0@),
        entry_map(entries)[entries[i].0@] == entries[i].1,
{
    let keys = entry_keys(entries);
    let k = entries[i].0@;
    assert(keys[i] == k);
    assert(keys.contains(k));
    let j = keys.index_of(k);
    assert(keys[j] == k);
    lemma_distinct(keys, i, j);
}

impl<V> View for TextMap<V> {
    type V = Map<Seq<char>, V>;

    closed spec fn view(&self) -> Map<Seq<char>, V> {
        entry_map(self.entries@)
    }
}

impl<V> TextMap<V> {
    #[verifier::type_invariant]
    spec fn sorted(self) -> bool {
        in_order(entry_keys(self.entries@))
    }

    /// A map without keys.
    pub fn new() -> (r: Self)
        ensures
            r@ == Map::<Seq<char>, V>::empty(),
    {
        let r = TextMap { entries: Vec::new() };
        assert(entry_keys(r.entries@).len() == 0);
        assert(r@ =~= Map::<Seq<char>, V>::empty());
        r
    }

    proof fn lemma_keys(self)
        requires
            self.sorted(),
        ensures
            keys_of(self@) == entry_keys(self.entries@),
            lists_keys(keys_of(self@), self@),
    {
        let keys = entry_keys(self.entries@);
        assert forall|k: Seq<char>| #[trigger] keys.contains(k) <==> self@.contains_key(k) by {}
        lemma_keys_are(keys, self@);
    }

    /// How many keys there are.
    pub fn len(&self) -> (r: usize)
        ensures
            r == keys_of(self@).len(),
            lists_keys(keys_of(self@), self@),
    {
        proof {
            use_type_invariant(self);
            self.lemma_keys();
        }
        self.entries.len()
    }

    /// The key at place `i` of the order.
    pub fn key_at(&self, i: usize) -> (r: &String)
        requires
            i < keys_of(self@).len(),
        ensures
            r@ == keys_of(self@)[i as int],
    {
        proof {
            use_type_invariant(self);
            self.lemma_keys();
        }
        &self.entries[i].0
    }

    /// The value of the key at place `i` of the order.
    pub fn value_at(&self, i: usize) -> (r: &V)
        requires
            i < keys_of(self@).len(),
        ensures
            self@.contains_key(keys_of(self@)[i as int]),
            *r == self@[keys_of(self@)[i as int]],
    {
        proof {
            use_type_invariant(self);
            self.lemma_keys();
            lemma_entry_map_at(self.entries@, i as int);
        }
        &self.entries[i].1
    }

    /// Where `key` stands among the entries, or where it would stand.
    fn position(entries: &Vec<(String, V)>, key: &str) -> (r: (bool, usize))
        requires
            in_order(entry_keys(entries@)),
        ensures
            r.1 <= entries.len(),
            r.0 ==> r.1 < entries.len() && entries[r.1 as int].0@ == key@,
            !r.0 ==> !entry_keys(entries@).contains(key@),
            !r.0 ==> forall|j: int|
                0 <= j < r.1 ==> text::precedes(#[trigger] entry_keys(entries@)[j], key@),
            !r.0 ==> forall|j: int|
                r.1 <= j < entries.len() ==> text::precedes(
                    key@,
                    #[trigger] entry_keys(entries@)[j],
                ),
    {
        let mut low: usize = 0;
        let mut high: usize = entries.len();
        let ghost keys = entry_keys(entries@);
        while low < high
            invariant
                keys == entry_keys(entries@),
                in_order(keys),
                keys.len() == entries.len(),
                low <= high <= entries.len(),
                forall|j: int| 0 <= j < low ==> text::precedes(#[trigger] keys[j], key@),
                forall|j: int| high <= j < keys.len() ==> text::precedes(key@, #[trigger] keys[j]),
            decreases high - low,
        {
            let mid: usize = low + (high - low) / 2;
            let here: &str = entries[mid].0.as_str();
            assert(keys[mid as int] == here@);
            if text::comes_before(here, key) {
                proof {
                    assert forall|j: int| 0 <= j < mid + 1 implies text::precedes(
                        #[trigger] keys[j],
                        key@,
                    ) by {
                        if j < mid {
                            assert(text::precedes(keys[j], keys[mid as int]));
                            text::lemma_precedes_transitive(keys[j], keys[mid as int], key@);
                        }
                    }
                }
                low = mid + 1;
            } else if text::comes_before(key, here) {
                proof {
                    assert forall|j: int| mid <= j < keys.len() implies text::precedes(
                        key@,
                        #[trigger] keys[j],
                    ) by {
                        if j > mid {
                            assert(text::precedes(keys[mid as int], keys[j]));
                            text::lemma_precedes_transitive(key@, keys[mid as int], keys[j]);
                        }
                    }
                }
                high = mid;
            } else {
                proof {
                    text::lemma_precedes_total(here@, key@);
                }
                return (true, mid);
            }
        }
        proof {
            if keys.contains(key@) {
                let j = choose|j: int| 0 <= j < keys.len() && keys[j] == key@;
                text::lemma_precedes_irreflexive(key@);
                assert(j < low || j >= high);
            }
        }
        (false, low)
    }

    /// The value of `key`.
    pub fn get(&self, key: &str) -> (r: Option<&V>)
        ensures
            match r {
                Some(v) => self@.contains_key(key@) && *v == self@[key@],
                None => !self@.contains_key(key@),
            },
    {
        proof {
            use_type_invariant(self);
        }
        let (found, i): (bool, usize) = Self::position(&self.entries, key);
        if found {
            proof {
                lemma_entry_map_at(self.entries@, i as int);
            }
            Some(&self.entries[i].1)
        } else {
            None
        }
    }

    /// Gives `key` the value `value`.
    pub fn insert(&mut self, key: String, value: V)
        ensures
            final(self)@ == old(self)@.insert(key@, value),
    {
        proof {
            use_type_invariant(&*self);
        }
        let mut entries: Vec<(String, V)> = Vec::new();
        assert(entry_keys(entries@).len() == 0);
        std::mem::swap(&mut entries, &mut self.entries);
        let ghost before = entries@;
        let (found, i): (bool, usize) = Self::position(&entries, key.as_str());
        if found {
            entries.remove(i);
        }
        let ghost middle = entries@;
        entries.insert(i, (key, value));
        proof {
            lemma_inserted(before, middle, entries@, found, i as int, (key, value));
        }
        self.entries = entries;
    }
}

impl<T: DeepView> TextMap<Vec<T>> {
    /// Files `item` under `key`.
    pub fn add_item(&mut self, key: &str, item: T)
        ensures
            grouping::contents(final(self)@) == grouping::with_item(
                grouping::contents(old(self)@),
                key@,
                item.deep_view(),
            ),
    {
        proof {
            use_type_invariant(&*self);
        }
        let mut entries: Vec<(String, Vec<T>)> = Vec::new();
        assert(entry_keys(entries@).len() == 0);
        std::mem::swap(&mut entries, &mut self.entries);
        let ghost before = entries@;
        let (found, i): (bool, usize) = Self::position(&entries, key);
        if found {
            proof {
                lemma_entry_map_at(before, i as int);
            }
            entries[i].1.push(item);
            proof {
                assert(entries@[i as int].1.deep_view() =~= before[i as int].1.deep_view().push(
                    item.deep_view(),
                ));
                assert(entries@ =~= before.remove(i as int).insert(i as int, entries@[i as int]));
                lemma_inserted(
                    before,
                    before.remove(i as int),
                    entries@,
                    true,
                    i as int,
                    entries@[i as int],
                );
            }
        } else {
            let mut list: Vec<T> = Vec::new();
            list.push(item);
            assert(list.deep_view() =~= Seq::<T::V>::empty().push(item.deep_view()));
            let entry: (String, Vec<T>) = (key.to_owned(), list);
            entries.insert(i, entry);
            proof {
                lemma_inserted(before, before, entries@, false, i as int, entry);
            }
        }
        self.entries = entries;
        proof {
            assert(grouping::contents(self@) =~= grouping::with_item(
                grouping::contents(old(self)@),
                key@,
                item.deep_view(),
            ));
        }
    }
}

proof fn lemma_inserted<V>(
    before: Seq<(String, V)>,
    middle: Seq<(String, V)>,
    after: Seq<(String, V)>,
    found: bool,
    i: int,
    entry: (String, V),
)
    requires
        in_order(entry_keys(before)),
        0 <= i <= before.len(),
        found ==> i < before.len() && before[i].0@ == entry.0@ && middle == before.remove(i),
        !found ==> {
            &&& middle == before
            &&& !entry_keys(before).contains(entry.0@)
            &&& forall|j: int|
                0 <= j < i ==> text::precedes(#[trigger] entry_keys(before)[j], entry.0@)
            &&& forall|j: int|
                i <= j < before.len() ==> text::precedes(
                    entry.0@,
                    #[trigger] entry_keys(before)[j],
                )
        },
        after == middle.insert(i, entry),
    ensures
        in_order(entry_keys(after)),
        entry_map(after) == entry_map(before).insert(entry.0@, entry.1),
{
    let old_keys = entry_keys(before);
    let new_keys = entry_keys(after);
    if found {
        assert(new_keys =~= old_keys);
    } else {
        assert(new_keys =~= old_keys.insert(i, entry.0@));
    }
    assert forall|a: int, b: int| 0 <= a < b < new_keys.len() implies text::precedes(
        #[trigger] new_keys[a],
        #[trigger] new_keys[b],
    ) by {
        if !found {
            let oa = if a < i { a } else { a - 1 };
            let ob = if b < i { b } else { b - 1 };
            if a != i && b != i {
                assert(text::precedes(old_keys[oa], old_keys[ob]));
            } else if a == i {
                assert(text::precedes(entry.0@, old_keys[ob]));
            } else {
                assert(text::precedes(old_keys[oa], entry.0@));
            }
        }
    }
    let target = entry_map(before).insert(entry.0@, entry.1);
    assert forall|k: Seq<char>| new_keys.contains(k) <==> old_keys.contains(k) || k == entry.0@ by {
        if new_keys.contains(k) {
            let a = choose|a: int| 0 <= a < new_keys.len() && new_keys[a] == k;
            if !found && a != i {
                assert(old_keys[if a < i { a } else { a - 1 }] == k);
            }
        }
        if old_keys.contains(k) {
            let a = choose|a: int| 0 <= a < old_keys.len() && old_keys[a] == k;
            if !found {
                assert(new_keys[if a < i { a } else { a + 1 }] == k);
            }
        }
        assert(new_keys[i] == entry.0@);
    }
    assert forall|k: Seq<char>| entry_map(after).contains_key(k) implies #[trigger] entry_map(
        after,
    )[k] == target[k] by {
        let a = choose|a: int| 0 <= a < new_keys.len() && new_keys[a] == k;
        lemma_entry_map_at(after, a);
        if a == i {
        } else {
            let oa = if found || a < i { a } else { a - 1 };
            assert(before[oa] == after[a]);
            lemma_entry_map_at(before, oa);
            if k == entry.0@ {
                lemma_distinct(new_keys, a, i);
            }
        }
    }
    assert(entry_map(after) =~= target);
}

/// The keys are listed in the order of texts, each once, and all of them.
pub proof fn law_keys_are_in_order<V>(m: Map<Seq<char>, V>)
    requires
        m.dom().finite(),
    ensures
        forall|i: int, j: int|
            0 <= i < j < keys_of(m).len() ==> text::precedes(
                #[trigger] keys_of(m)[i],
                #[trigger] keys_of(m)[j],
            ),
        forall|k: Seq<char>|
            m.contains_key(k) <==> exists|i: int|
                0 <= i < keys_of(m).len() && #[trigger] keys_of(m)[i] == k,
{
    lemma_keys_exist(m);
    assert forall|k: Seq<char>|
        m.contains_key(k) <==> exists|i: int|
            0 <= i < keys_of(m).len() && #[trigger] keys_of(m)[i] == k by {
        assert(keys_of(m).contains(k) <==> m.contains_key(k));
    }
}

} // verus!
