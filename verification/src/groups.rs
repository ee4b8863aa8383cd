//! Groups of files that have something in common.
use crate::grouping;
use crate::model::FileView;
use crate::textmap;
use vstd::prelude::*;

verus! {

/// The groups under some keys, each beside its key.
pub open spec fn groups_under<K>(keys: Seq<K>, m: Map<K, Seq<FileView>>) -> Seq<
    (K, Seq<FileView>),
> {
    keys.map_values(|k: K| (k, m[k]))
}

/// The groups of `m`, in the order of their sizes.
pub open spec fn by_size(m: Map<u64, Seq<FileView>>) -> Seq<(u64, Seq<FileView>)> {
    groups_under(grouping::keys_of(m), m)
}

/// The groups of `m`, in the order of their names.
pub open spec fn by_name(m: Map<Seq<char>, Seq<FileView>>) -> Seq<(Seq<char>, Seq<FileView>)> {
    groups_under(textmap::keys_of(m), m)
}

/// The groups under some keys, key by key.
pub open spec fn lists_under(keys: Seq<u64>, m: Map<u64, Seq<Seq<FileView>>>) -> Seq<
    (u64, Seq<FileView>),
>
    decreases keys.len(),
{
    if keys.len() == 0 {
        Seq::empty()
    } else {
        lists_under(keys.drop_last(), m) + m[keys.last()].map_values(
            |g: Seq<FileView>| (keys.last(), g),
        )
    }
}

/// The groups of `m`, in the order of their sizes.
pub open spec fn by_hash(m: Map<u64, Seq<Seq<FileView>>>) -> Seq<(u64, Seq<FileView>)> {
    lists_under(grouping::keys_of(m), m)
}

/// The groups of at least two files.
pub open spec fn duplicated<K>(m: Map<K, Seq<FileView>>) -> Map<K, Seq<FileView>> {
    Map::new(|k: K| m.contains_key(k) && m[k].len() > 1, |k: K| m[k])
}

/// The groups under some keys that hold at least two files.
pub open spec fn large_groups<K>(keys: Seq<K>, m: Map<K, Seq<FileView>>) -> Seq<
    (K, Seq<FileView>),
>
    decreases keys.len(),
{
    if keys.len() == 0 {
        Seq::empty()
    } else if m[keys.last()].len() > 1 {
        large_groups(keys.drop_last(), m).push((keys.last(), m[keys.last()]))
    } else {
        large_groups(keys.drop_last(), m)
    }
}

/// How many files there are beyond the first of each group.
pub open spec fn extra_files<K>(groups: Seq<(K, Seq<FileView>)>) -> int
    decreases groups.len(),
{
    if groups.len() == 0 {
        0
    } else {
        extra_files(groups.drop_last()) + (groups.last().1.len() - 1)
    }
}

/// The space that the files beyond the first of each group take.
pub open spec fn lost_space(groups: Seq<(u64, Seq<FileView>)>) -> int
    decreases groups.len(),
{
    if groups.len() == 0 {
        0
    } else {
        lost_space(groups.drop_last()) + (groups.last().1.len() - 1) * groups.last().0
    }
}

/// No group is empty.
pub open spec fn none_empty<K>(groups: Seq<(K, Seq<FileView>)>) -> bool {
    forall|i: int| 0 <= i < groups.len() ==> (#[trigger] groups[i]).1.len() > 0
}

/// Each group holds at least two files.
pub open spec fn all_large<K>(groups: Seq<(K, Seq<FileView>)>) -> bool {
    forall|i: int| 0 <= i < groups.len() ==> (#[trigger] groups[i]).1.len() > 1
}

/// A beginning of the groups has no more extra files than all of them.
pub proof fn lemma_extra_files_grow<K>(groups: Seq<(K, Seq<FileView>)>, n: int)
    requires
        none_empty(groups),
        0 <= n <= groups.len(),
    ensures
        0 <= extra_files(groups.take(n)) <= extra_files(groups),
    decreases groups.len(),
{
    if groups.len() == 0 {
        assert(groups.take(n) =~= groups);
    } else if n == groups.len() {
        assert(groups.take(n) =~= groups);
        assert(groups[n - 1].1.len() > 0);
        lemma_extra_files_grow(groups.drop_last(), 0);
        assert(groups.drop_last().take(0) =~= Seq::empty());
    } else {
        assert(groups[groups.len() - 1].1.len() > 0);
        assert(none_empty(groups.drop_last())) by {
            assert forall|i: int| 0 <= i < groups.drop_last().len() implies (
            #[trigger] groups.drop_last()[i]).1.len() > 0 by {
                assert(groups[i].1.len() > 0);
            }
        }
        lemma_extra_files_grow(groups.drop_last(), n);
        assert(groups.drop_last().take(n) =~= groups.take(n));
    }
}

/// A beginning of the groups wastes no more space than all of them.
pub proof fn lemma_lost_space_grows(groups: Seq<(u64, Seq<FileView>)>, n: int)
    requires
        none_empty(groups),
        0 <= n <= groups.len(),
    ensures
        0 <= lost_space(groups.take(n)) <= lost_space(groups),
    decreases groups.len(),
{
    if groups.len() == 0 {
        assert(groups.take(n) =~= groups);
    } else {
        let last = groups.last();
        assert(groups[groups.len() - 1].1.len() > 0);
        assert((last.1.len() - 1) * last.0 >= 0) by (nonlinear_arith)
            requires
                last.1.len() > 0,
        ;
        assert(none_empty(groups.drop_last())) by {
            assert forall|i: int| 0 <= i < groups.drop_last().len() implies (
            #[trigger] groups.drop_last()[i]).1.len() > 0 by {
                assert(groups[i].1.len() > 0);
            }
        }
        if n == groups.len() {
            assert(groups.take(n) =~= groups);
            lemma_lost_space_grows(groups.drop_last(), 0);
            assert(groups.drop_last().take(0) =~= Seq::empty());
        } else {
            lemma_lost_space_grows(groups.drop_last(), n);
            assert(groups.drop_last().take(n) =~= groups.take(n));
        }
    }
}

pub proof fn lemma_large_groups<K>(keys: Seq<K>, m: Map<K, Seq<FileView>>)
    ensures
        all_large(large_groups(keys, m)),
        large_groups(keys, m).len() <= keys.len(),
    decreases keys.len(),
{
    if keys.len() > 0 {
        lemma_large_groups(keys.drop_last(), m);
    }
}

/// The keys of large groups.
pub open spec fn large_keys<K>(keys: Seq<K>, m: Map<K, Seq<FileView>>) -> Seq<K> {
    large_groups(keys, m).map_values(|g: (K, Seq<FileView>)| g.0)
}

/// A group is among the large ones if its key is and it holds at least two files.
pub proof fn lemma_large_keys<K>(keys: Seq<K>, m: Map<K, Seq<FileView>>)
    ensures
        forall|k: K| #[trigger]
            large_keys(keys, m).contains(k) <==> keys.contains(k) && m[k].len() > 1,
        forall|i: int|
            0 <= i < large_groups(keys, m).len() ==> {
                let g = #[trigger] large_groups(keys, m)[i];
                g == (g.0, m[g.0])
            },
    decreases keys.len(),
{
    if keys.len() > 0 {
        let init = keys.drop_last();
        let last = keys.last();
        lemma_large_keys(init, m);
        assert forall|k: K| #[trigger]
            large_keys(keys, m).contains(k) <==> keys.contains(k) && m[k].len() > 1 by {
            if keys.contains(k) {
                let i = choose|i: int| 0 <= i < keys.len() && keys[i] == k;
                if i < init.len() {
                    assert(init[i] == k);
                    assert(init.contains(k));
                }
            }
            if init.contains(k) {
                let i = choose|i: int| 0 <= i < init.len() && init[i] == k;
                assert(keys[i] == k);
            }
            assert(keys[keys.len() - 1] == last);
            let before = large_keys(init, m);
            let after = large_keys(keys, m);
            if m[last].len() > 1 {
                assert(after =~= before.push(last));
                if before.contains(k) {
                    let i = choose|i: int| 0 <= i < before.len() && before[i] == k;
                    assert(after[i] == k);
                }
                assert(after[before.len() as int] == last);
                if after.contains(k) {
                    let i = choose|i: int| 0 <= i < after.len() && after[i] == k;
                    if i < before.len() {
                        assert(before[i] == k);
                        assert(before.contains(k));
                    }
                }
            } else {
                assert(after =~= before);
            }
        }
        assert forall|i: int| 0 <= i < large_groups(keys, m).len() implies {
            let g = #[trigger] large_groups(keys, m)[i];
            g == (g.0, m[g.0])
        } by {
            if i < large_groups(init, m).len() {
                assert(large_groups(keys, m)[i] == large_groups(init, m)[i]);
            }
        }
    }
}

/// The large groups of a map of sizes are the groups that remain of it when the
/// others are left out.
pub proof fn lemma_large_by_size(m: Map<u64, Seq<FileView>>, keys: Seq<u64>)
    requires
        grouping::lists_keys(keys, m),
    ensures
        large_groups(keys, m) == by_size(duplicated(m)),
{
    let large = large_keys(keys, m);
    let kept = duplicated(m);
    lemma_large_keys(keys, m);
    lemma_large_ascending(keys, m);
    assert forall|k: u64| #[trigger] large.contains(k) <==> kept.contains_key(k) by {
        assert(keys.contains(k) == m.contains_key(k));
    }
    grouping::lemma_keys_are(large, kept);
    let groups = large_groups(keys, m);
    assert forall|i: int| 0 <= i < groups.len() implies groups[i] == by_size(kept)[i] by {
        assert(large[i] == groups[i].0);
        assert(large.contains(large[i]));
    }
    assert(groups =~= by_size(kept));
}

proof fn lemma_large_ascending(keys: Seq<u64>, m: Map<u64, Seq<FileView>>)
    requires
        grouping::ascending(keys),
    ensures
        grouping::ascending(large_keys(keys, m)),
    decreases keys.len(),
{
    if keys.len() > 0 {
        let init = keys.drop_last();
        lemma_large_ascending(init, m);
        lemma_large_keys(init, m);
        let before = large_keys(init, m);
        let after = large_keys(keys, m);
        if m[keys.last()].len() > 1 {
            assert(after =~= before.push(keys.last()));
            assert forall|i: int| 0 <= i < before.len() implies before[i] < keys.last() by {
                assert(before.contains(before[i]));
                let j = choose|j: int| 0 <= j < init.len() && init[j] == before[i];
                assert(keys[j] < keys[keys.len() - 1]);
            }
        } else {
            assert(after =~= before);
        }
    }
}

/// The large groups of a map of names are the groups that remain of it when the
/// others are left out.
pub proof fn lemma_large_by_name(m: Map<Seq<char>, Seq<FileView>>, keys: Seq<Seq<char>>)
    requires
        textmap::lists_keys(keys, m),
    ensures
        large_groups(keys, m) == by_name(duplicated(m)),
{
    let large = large_keys(keys, m);
    let kept = duplicated(m);
    lemma_large_keys(keys, m);
    lemma_large_in_order(keys, m);
    assert forall|k: Seq<char>| #[trigger] large.contains(k) <==> kept.contains_key(k) by {
        assert(keys.contains(k) == m.contains_key(k));
    }
    textmap::lemma_keys_are(large, kept);
    let groups = large_groups(keys, m);
    assert forall|i: int| 0 <= i < groups.len() implies groups[i] == by_name(kept)[i] by {
        assert(large[i] == groups[i].0);
        assert(large.contains(large[i]));
    }
    assert(groups =~= by_name(kept));
}

proof fn lemma_large_in_order(keys: Seq<Seq<char>>, m: Map<Seq<char>, Seq<FileView>>)
    requires
        textmap::in_order(keys),
    ensures
        textmap::in_order(large_keys(keys, m)),
    decreases keys.len(),
{
    if keys.len() > 0 {
        let init = keys.drop_last();
        lemma_large_in_order(init, m);
        lemma_large_keys(init, m);
        let before = large_keys(init, m);
        let after = large_keys(keys, m);
        if m[keys.last()].len() > 1 {
            assert(after =~= before.push(keys.last()));
            assert forall|i: int, j: int| 0 <= i < j < after.len() implies crate::text::precedes(
                #[trigger] after[i],
                #[trigger] after[j],
            ) by {
                if j < before.len() {
                    assert(crate::text::precedes(before[i], before[j]));
                } else {
                    assert(before.contains(before[i]));
                    let p = choose|p: int| 0 <= p < init.len() && init[p] == before[i];
                    assert(crate::text::precedes(keys[p], keys[keys.len() - 1]));
                }
            }
        } else {
            assert(after =~= before);
        }
    }
}

/// The part of `m` under some keys.
pub open spec fn part_under<K>(m: Map<K, Seq<FileView>>, keys: Seq<K>) -> Map<K, Seq<FileView>> {
    Map::new(|k: K| m.contains_key(k) && keys.contains(k), |k: K| m[k])
}

pub proof fn lemma_part_next<K>(m: Map<K, Seq<FileView>>, keys: Seq<K>, i: int)
    requires
        0 <= i < keys.len(),
    ensures
        part_under(m, keys.take(i + 1)) == if m.contains_key(keys[i]) {
            part_under(m, keys.take(i)).insert(keys[i], m[keys[i]])
        } else {
            part_under(m, keys.take(i))
        },
{
    let a = keys.take(i);
    let b = keys.take(i + 1);
    let k = keys[i];
    assert forall|q: K| #[trigger] b.contains(q) <==> a.contains(q) || q == k by {
        assert(b[i] == k);
        if a.contains(q) {
            let j = choose|j: int| 0 <= j < a.len() && a[j] == q;
            assert(b[j] == q);
        }
        if b.contains(q) {
            let j = choose|j: int| 0 <= j < b.len() && b[j] == q;
            if j < i {
                assert(a[j] == q);
            }
        }
    }
    if m.contains_key(k) {
        assert(part_under(m, b) =~= part_under(m, a).insert(k, m[k]));
    } else {
        assert(part_under(m, b) =~= part_under(m, a));
    }
}

/// The number of files in some groups.
pub open spec fn total_files<K>(groups: Seq<(K, Seq<FileView>)>) -> nat
    decreases groups.len(),
{
    if groups.len() == 0 {
        0
    } else {
        total_files(groups.drop_last()) + groups.last().1.len()
    }
}

proof fn lemma_total_files_grow<K>(groups: Seq<(K, Seq<FileView>)>, n: int)
    requires
        0 <= n <= groups.len(),
    ensures
        total_files(groups.take(n)) <= total_files(groups),
    decreases groups.len(),
{
    if n == groups.len() {
        assert(groups.take(n) =~= groups);
    } else {
        lemma_total_files_grow(groups.drop_last(), n);
        assert(groups.drop_last().take(n) =~= groups.take(n));
    }
}

/// The number of files in a beginning of the groups, and in one group more.
pub proof fn lemma_total_files_next<K>(groups: Seq<(K, Seq<FileView>)>, i: int)
    requires
        0 <= i < groups.len(),
    ensures
        total_files(groups.take(i + 1)) == total_files(groups.take(i)) + groups[i].1.len(),
        total_files(groups.take(i + 1)) <= total_files(groups),
{
    assert(groups.take(i + 1).drop_last() =~= groups.take(i));
    lemma_total_files_grow(groups, i + 1);
}

// ---------------------------------------------------------------------------
// Laws
// ---------------------------------------------------------------------------

/// A key is kept if it has at least two files, with all its files; every other goes.
pub proof fn law_single_files_go<K>(m: Map<K, Seq<FileView>>, k: K)
    ensures
        duplicated(m).contains_key(k) <==> m.contains_key(k) && m[k].len() >= 2,
        duplicated(m).contains_key(k) ==> duplicated(m)[k] == m[k],
{
}

/// Groups are listed with all their files: one for each name, one for each size, and of
/// hashes one for each under each size.
pub proof fn law_groups_are_listed(
    names: Map<Seq<char>, Seq<FileView>>,
    sizes: Map<u64, Seq<FileView>>,
    hashes: Map<u64, Seq<Seq<FileView>>>,
)
    ensures
        by_name(names) == textmap::keys_of(names).map_values(|k: Seq<char>| (k, names[k])),
        by_size(sizes) == grouping::keys_of(sizes).map_values(|k: u64| (k, sizes[k])),
        by_hash(hashes) == grouping::keys_of(hashes).map_values(
            |k: u64| hashes[k].map_values(|g: Seq<FileView>| (k, g)),
        ).flatten(),
{
    lemma_lists_are_flat(grouping::keys_of(hashes), hashes);
}

proof fn lemma_lists_are_flat(keys: Seq<u64>, m: Map<u64, Seq<Seq<FileView>>>)
    ensures
        lists_under(keys, m) == keys.map_values(
            |k: u64| m[k].map_values(|g: Seq<FileView>| (k, g)),
        ).flatten(),
    decreases keys.len(),
{
    let f = |k: u64| m[k].map_values(|g: Seq<FileView>| (k, g));
    let parts = keys.map_values(f);
    if keys.len() > 0 {
        let init = keys.drop_last();
        let k = keys.last();
        lemma_lists_are_flat(init, m);
        assert(parts.drop_last() =~= init.map_values(f));
        assert(parts.last() =~= m[k].map_values(|g: Seq<FileView>| (k, g)));
        parts.drop_last().lemma_flatten_push(parts.last());
        assert(parts.drop_last().push(parts.last()) =~= parts);
        assert(m[keys.last()].map_values(|g: Seq<FileView>| (keys.last(), g)) =~= m[k].map_values(
            |g: Seq<FileView>| (k, g),
        ));
    } else {
        assert(parts =~= Seq::empty());
    }
}

/// Of each group every file but one is a duplicate, and all files are counted; the
/// numbers of several groups are the sums of those of each.
pub proof fn law_duplicates_add_up<K>(
    groups: Seq<(K, Seq<FileView>)>,
    k: K,
    files: Seq<FileView>,
)
    ensures
        extra_files(Seq::<(K, Seq<FileView>)>::empty()) == 0,
        extra_files(groups.push((k, files))) == extra_files(groups) + files.len() - 1,
        total_files(Seq::<(K, Seq<FileView>)>::empty()) == 0,
        total_files(groups.push((k, files))) == total_files(groups) + files.len(),
{
    assert(groups.push((k, files)).drop_last() =~= groups);
}

/// Each group loses the space of every file but one, by the size that its files have.
pub proof fn law_lost_space_adds_up(
    groups: Seq<(u64, Seq<FileView>)>,
    size: u64,
    files: Seq<FileView>,
)
    ensures
        lost_space(Seq::empty()) == 0,
        lost_space(groups.push((size, files))) == lost_space(groups) + (files.len() - 1) * size,
{
    assert(groups.push((size, files)).drop_last() =~= groups);
}

/// When no group is empty, and when none has a single file.
pub proof fn law_sizes_of_groups<K>(groups: Seq<(K, Seq<FileView>)>)
    ensures
        none_empty(groups) <==> forall|i: int|
            0 <= i < groups.len() ==> (#[trigger] groups[i]).1.len() >= 1,
        all_large(groups) <==> forall|i: int|
            0 <= i < groups.len() ==> (#[trigger] groups[i]).1.len() >= 2,
{
}

} // verus!
