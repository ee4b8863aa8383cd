//! Comparing by hash narrows what comparing by size has found.
use crate::counting;
use crate::digest::HashStage;
use crate::finder::DuplicateFinder;
use crate::grouping;
use crate::groups;
use crate::hashing;
use crate::hashing::{GroupView, OutcomeView};
use crate::laws;
use crate::model;
use crate::model::{FileView, Info, PathView};
use crate::reuse;
use crate::scan::ListedEntry;
use crate::textmap;
use crate::walk;
use vstd::prelude::*;

verus! {

// ---------------------------------------------------------------------------
// Counting files by key
// ---------------------------------------------------------------------------

/// How many of the files satisfy `p`.
pub open spec fn how_many(files: Seq<FileView>, p: spec_fn(FileView) -> bool) -> nat
    decreases files.len(),
{
    if files.len() == 0 {
        0
    } else {
        how_many(files.drop_last(), p) + (if p(files.last()) {
            1nat
        } else {
            0nat
        })
    }
}

/// How many files some groups hold.
pub open spec fn files_of(groups: Seq<Seq<FileView>>) -> nat
    decreases groups.len(),
{
    if groups.len() == 0 {
        0
    } else {
        files_of(groups.drop_last()) + groups.last().len()
    }
}

/// How many of the files that some groups hold satisfy `p`.
pub open spec fn how_many_in(groups: Seq<Seq<FileView>>, p: spec_fn(FileView) -> bool) -> nat
    decreases groups.len(),
{
    if groups.len() == 0 {
        0
    } else {
        how_many_in(groups.drop_last(), p) + how_many(groups.last(), p)
    }
}

/// How many of the files in groups beside `k` satisfy `p`.
spec fn how_many_for(
    groups: Seq<(u64, Seq<FileView>)>,
    k: u64,
    p: spec_fn(FileView) -> bool,
) -> nat
    decreases groups.len(),
{
    if groups.len() == 0 {
        0
    } else {
        how_many_for(groups.drop_last(), k, p) + (if groups.last().0 == k {
            how_many(groups.last().1, p)
        } else {
            0
        })
    }
}

/// How many of the files that stand beside something satisfy `p`.
spec fn how_many_beside<K>(pairs: Seq<(K, FileView)>, p: spec_fn(FileView) -> bool) -> nat
    decreases pairs.len(),
{
    if pairs.len() == 0 {
        0
    } else {
        how_many_beside(pairs.drop_last(), p) + (if p(pairs.last().1) {
            1nat
        } else {
            0nat
        })
    }
}

/// Every file satisfies it.
spec fn any_file() -> spec_fn(FileView) -> bool {
    |f: FileView| true
}

proof fn lemma_all_count(files: Seq<FileView>)
    ensures
        how_many(files, any_file()) == files.len(),
    decreases files.len(),
{
    if files.len() > 0 {
        lemma_all_count(files.drop_last());
    }
}

proof fn lemma_all_count_in(groups: Seq<Seq<FileView>>)
    ensures
        how_many_in(groups, any_file()) == files_of(groups),
    decreases groups.len(),
{
    if groups.len() > 0 {
        lemma_all_count_in(groups.drop_last());
        lemma_all_count(groups.last());
    }
}

proof fn lemma_how_many_sum(a: Seq<FileView>, b: Seq<FileView>, p: spec_fn(FileView) -> bool)
    ensures
        how_many(a + b, p) == how_many(a, p) + how_many(b, p),
    decreases b.len(),
{
    if b.len() == 0 {
        assert(a + b =~= a);
    } else {
        assert((a + b).drop_last() =~= a + b.drop_last());
        assert((a + b).last() == b.last());
        lemma_how_many_sum(a, b.drop_last(), p);
    }
}

proof fn lemma_beside_sum<K>(
    a: Seq<(K, FileView)>,
    b: Seq<(K, FileView)>,
    p: spec_fn(FileView) -> bool,
)
    ensures
        how_many_beside(a + b, p) == how_many_beside(a, p) + how_many_beside(b, p),
    decreases b.len(),
{
    if b.len() == 0 {
        assert(a + b =~= a);
    } else {
        assert((a + b).drop_last() =~= a + b.drop_last());
        assert((a + b).last() == b.last());
        lemma_beside_sum(a, b.drop_last(), p);
    }
}

proof fn lemma_how_many_for_sum(
    a: Seq<(u64, Seq<FileView>)>,
    b: Seq<(u64, Seq<FileView>)>,
    k: u64,
    p: spec_fn(FileView) -> bool,
)
    ensures
        how_many_for(a + b, k, p) == how_many_for(a, k, p) + how_many_for(b, k, p),
    decreases b.len(),
{
    if b.len() == 0 {
        assert(a + b =~= a);
    } else {
        assert((a + b).drop_last() =~= a + b.drop_last());
        assert((a + b).last() == b.last());
        lemma_how_many_for_sum(a, b.drop_last(), k, p);
    }
}

proof fn lemma_items_of_sum<K, T>(a: Seq<(K, T)>, b: Seq<(K, T)>, k: K)
    ensures
        grouping::items_of(a + b, k) == grouping::items_of(a, k) + grouping::items_of(b, k),
    decreases b.len(),
{
    if b.len() == 0 {
        assert(a + b =~= a);
        assert(grouping::items_of(a, k) + grouping::items_of(b, k) =~= grouping::items_of(a, k));
    } else {
        assert((a + b).drop_last() =~= a + b.drop_last());
        assert((a + b).last() == b.last());
        lemma_items_of_sum(a, b.drop_last(), k);
        assert(grouping::items_of(a + b, k) =~= grouping::items_of(a, k) + grouping::items_of(
            b,
            k,
        ));
    }
}

proof fn lemma_items_beside(k: u64, files: Seq<FileView>, key: u64)
    ensures
        grouping::items_of(hashing::beside(k, files), key) == if key == k {
            files
        } else {
            Seq::empty()
        },
    decreases files.len(),
{
    let pairs = hashing::beside(k, files);
    if files.len() > 0 {
        lemma_items_beside(k, files.drop_last(), key);
        assert(pairs.drop_last() =~= hashing::beside(k, files.drop_last()));
        assert(files.drop_last().push(files.last()) =~= files);
    } else {
        assert(files =~= Seq::empty());
    }
}

/// The files of some groups that are filed under a key are those of the groups
/// beside it.
proof fn lemma_files_filed(
    groups: Seq<(u64, Seq<FileView>)>,
    k: u64,
    p: spec_fn(FileView) -> bool,
)
    ensures
        how_many(grouping::items_of(hashing::all_files(groups), k), p) == how_many_for(
            groups,
            k,
            p,
        ),
    decreases groups.len(),
{
    if groups.len() > 0 {
        let init = groups.drop_last();
        let last = groups.last();
        let more = hashing::beside(last.0, last.1);
        lemma_files_filed(init, k, p);
        lemma_items_of_sum(hashing::all_files(init), more, k);
        lemma_items_beside(last.0, last.1, k);
        lemma_how_many_sum(
            grouping::items_of(hashing::all_files(init), k),
            grouping::items_of(more, k),
            p,
        );
    }
}

/// The groups that are filed under a key hold the files of the groups beside it.
proof fn lemma_groups_filed(
    groups: Seq<(u64, Seq<FileView>)>,
    k: u64,
    p: spec_fn(FileView) -> bool,
)
    ensures
        how_many_in(grouping::items_of(groups, k), p) == how_many_for(groups, k, p),
    decreases groups.len(),
{
    if groups.len() > 0 {
        let init = groups.drop_last();
        lemma_groups_filed(init, k, p);
        let before = grouping::items_of(init, k);
        if groups.last().0 == k {
            assert(before.push(groups.last().1).drop_last() =~= before);
        }
    }
}

/// How many of the items under some keys satisfy `p`.
spec fn how_many_under<K>(
    keys: Seq<K>,
    pairs: Seq<(K, FileView)>,
    p: spec_fn(FileView) -> bool,
) -> nat
    decreases keys.len(),
{
    if keys.len() == 0 {
        0
    } else {
        how_many_under(keys.drop_last(), pairs, p) + how_many(
            grouping::items_of(pairs, keys.last()),
            p,
        )
    }
}

proof fn lemma_how_many_under_step<K>(
    keys: Seq<K>,
    pairs: Seq<(K, FileView)>,
    p: spec_fn(FileView) -> bool,
)
    requires
        pairs.len() > 0,
        keys.no_duplicates(),
    ensures
        how_many_under(keys, pairs, p) <= how_many_under(keys, pairs.drop_last(), p) + if
            keys.contains(pairs.last().0) && p(pairs.last().1) {
            1nat
        } else {
            0nat
        },
    decreases keys.len(),
{
    if keys.len() > 0 {
        let init = keys.drop_last();
        let k = pairs.last().0;
        let f = pairs.last().1;
        assert(init.no_duplicates());
        lemma_how_many_under_step(init, pairs, p);
        assert(keys[keys.len() - 1] == keys.last());
        if init.contains(k) {
            let i = choose|i: int| 0 <= i < init.len() && init[i] == k;
            assert(keys[i] == k);
            assert(keys.contains(k));
            assert(keys.last() != k);
        }
        if keys.last() == k {
            assert(keys.contains(k));
            let before = grouping::items_of(pairs.drop_last(), k);
            assert(before.push(f).drop_last() =~= before);
        }
    }
}

/// Under different keys no more items satisfy `p` than do in all.
proof fn lemma_how_many_under<K>(
    keys: Seq<K>,
    pairs: Seq<(K, FileView)>,
    p: spec_fn(FileView) -> bool,
)
    requires
        keys.no_duplicates(),
    ensures
        how_many_under(keys, pairs, p) <= how_many_beside(pairs, p),
    decreases pairs.len(),
{
    if pairs.len() == 0 {
        lemma_nothing_under(keys, pairs, p);
    } else {
        lemma_how_many_under(keys, pairs.drop_last(), p);
        lemma_how_many_under_step(keys, pairs, p);
    }
}

proof fn lemma_nothing_under<K>(
    keys: Seq<K>,
    pairs: Seq<(K, FileView)>,
    p: spec_fn(FileView) -> bool,
)
    requires
        pairs.len() == 0,
    ensures
        how_many_under(keys, pairs, p) == 0,
    decreases keys.len(),
{
    if keys.len() > 0 {
        lemma_nothing_under(keys.drop_last(), pairs, p);
    }
}

proof fn lemma_in_order_distinct(keys: Seq<Seq<char>>)
    requires
        textmap::in_order(keys),
    ensures
        keys.no_duplicates(),
{
    assert forall|i: int, j: int|
        0 <= i < keys.len() && 0 <= j < keys.len() && i != j implies keys[i] != keys[j] by {
        crate::text::lemma_precedes_irreflexive(keys[i]);
        if i < j {
            assert(crate::text::precedes(keys[i], keys[j]));
        } else {
            assert(crate::text::precedes(keys[j], keys[i]));
        }
    }
}

/// In the groups of a result no more files satisfy `p` than among those that were
/// filed under its hashes.
proof fn lemma_result_bound(
    result: GroupView,
    pairs: Seq<(Seq<char>, FileView)>,
    k: u64,
    p: spec_fn(FileView) -> bool,
)
    requires
        result.hashes == grouping::gathered(pairs),
    ensures
        how_many_for(hashing::groups_of(result), k, p) <= if result.size == k {
            how_many_beside(pairs, p)
        } else {
            0
        },
{
    let m = groups::duplicated(result.hashes);
    grouping::lemma_extended_finite(Map::<Seq<char>, Seq<FileView>>::empty(), pairs);
    assert(m.dom().subset_of(result.hashes.dom()));
    vstd::set_lib::lemma_set_subset_finite(result.hashes.dom(), m.dom());
    textmap::lemma_keys_exist(m);
    let keys = textmap::keys_of(m);
    lemma_in_order_distinct(keys);
    lemma_how_many_under(keys, pairs, p);
    assert forall|i: int| 0 <= i < keys.len() implies m.contains_key(#[trigger] keys[i]) by {
        assert(keys.contains(keys[i]));
    }
    lemma_retagged_bound(result, pairs, keys, k, p);
    assert(hashing::groups_of(result) =~= with_size(result, keys));
}

/// The groups of a result under some hashes, each beside its size.
spec fn with_size(result: GroupView, keys: Seq<Seq<char>>) -> Seq<(u64, Seq<FileView>)> {
    keys.map_values(|h: Seq<char>| (result.size, groups::duplicated(result.hashes)[h]))
}

proof fn lemma_retagged_bound(
    result: GroupView,
    pairs: Seq<(Seq<char>, FileView)>,
    keys: Seq<Seq<char>>,
    k: u64,
    p: spec_fn(FileView) -> bool,
)
    requires
        result.hashes == grouping::gathered(pairs),
        forall|i: int|
            0 <= i < keys.len() ==> groups::duplicated(result.hashes).contains_key(
                #[trigger] keys[i],
            ),
    ensures
        how_many_for(with_size(result, keys), k, p) == if result.size == k {
            how_many_under(keys, pairs, p)
        } else {
            0
        },
    decreases keys.len(),
{
    let gs = with_size(result, keys);
    if keys.len() > 0 {
        let init = keys.drop_last();
        assert forall|i: int| 0 <= i < init.len() implies groups::duplicated(
            result.hashes,
        ).contains_key(#[trigger] init[i]) by {
            assert(init[i] == keys[i]);
        }
        lemma_retagged_bound(result, pairs, init, k, p);
        assert(gs.drop_last() =~= with_size(result, init));
        let h = keys[keys.len() - 1];
        assert(groups::duplicated(result.hashes).contains_key(h));
        assert(result.hashes[h] =~= grouping::items_of(pairs, h));
    }
}

/// In the groups of a size no more files satisfy `p` than among those that were
/// filed under the hashes of the one result for it.
proof fn lemma_results_bound(
    results: Seq<GroupView>,
    pairs: Map<u64, Seq<(Seq<char>, FileView)>>,
    k: u64,
    p: spec_fn(FileView) -> bool,
)
    requires
        hashing::distinct_sizes(results),
        forall|r: int|
            0 <= r < results.len() ==> (#[trigger] results[r]).hashes == grouping::gathered(
                pairs[results[r].size],
            ),
    ensures
        how_many_for(hashing::all_groups(results), k, p) <= how_many_beside(pairs[k], p),
        !hashing::has_result(results, k) ==> how_many_for(hashing::all_groups(results), k, p) == 0,
    decreases results.len(),
{
    if results.len() > 0 {
        let init = results.drop_last();
        let last = results[results.len() - 1];
        assert forall|i: int, j: int| 0 <= i < j < init.len() implies (#[trigger] init[i]).size != (
        #[trigger] init[j]).size by {
            assert(results[i].size != results[j].size);
        }
        assert forall|r: int| 0 <= r < init.len() implies (#[trigger] init[r]).hashes
            == grouping::gathered(pairs[init[r].size]) by {
            assert(results[r] == init[r]);
        }
        lemma_results_bound(init, pairs, k, p);
        lemma_how_many_for_sum(hashing::all_groups(init), hashing::groups_of(last), k, p);
        lemma_result_bound(last, pairs[last.size], k, p);
        if last.size == k {
            assert(!hashing::has_result(init, k)) by {
                assert forall|r: int| 0 <= r < init.len() implies (#[trigger] init[r]).size
                    != k by {
                    assert(results[r].size != results[results.len() - 1].size);
                }
            }
        }
        if !hashing::has_result(results, k) {
            assert(last.size != k);
            assert forall|r: int| 0 <= r < init.len() implies (#[trigger] init[r]).size != k by {
                assert(results[r].size != k);
            }
        }
    }
}

/// A file that is kept satisfies `p` only if the file that was read satisfies `q`.
spec fn kept_implies(
    stage: HashStage,
    p: spec_fn(FileView) -> bool,
    q: spec_fn(FileView) -> bool,
) -> bool {
    forall|f: FileView, h: Seq<char>| #[trigger] p(hashing::kept_file(stage, f, h)) ==> q(f)
}

/// A record satisfies `p` only if a file that it is about satisfies `q`.
spec fn record_implies(p: spec_fn(FileView) -> bool, q: spec_fn(FileView) -> bool) -> bool {
    forall|r: FileView, f: FileView| #[trigger] reuse::is_record_of(r, f) && p(r) ==> q(f)
}

proof fn lemma_hashed_no_more(
    stage: HashStage,
    files: Seq<FileView>,
    outcomes: Seq<OutcomeView>,
    p: spec_fn(FileView) -> bool,
    q: spec_fn(FileView) -> bool,
)
    requires
        kept_implies(stage, p, q),
    ensures
        how_many_beside(hashing::hashed_files(stage, files, outcomes), p) <= how_many(files, q),
    decreases files.len(),
{
    if files.len() > 0 {
        lemma_hashed_no_more(stage, files.drop_last(), outcomes.drop_last(), p, q);
        let before = hashing::hashed_files(stage, files.drop_last(), outcomes.drop_last());
        if let OutcomeView::Hashed(h, _) = outcomes.last() {
            let kept = hashing::kept_file(stage, files.last(), h);
            assert(before.push((h, kept)).drop_last() =~= before);
            assert(p(hashing::kept_file(stage, files.last(), h)) ==> q(files.last()));
        }
    }
}

/// Of the files that have a record and those that have none no more count than of
/// all.
proof fn lemma_parted_no_more(
    files: Seq<FileView>,
    records: Seq<FileView>,
    p: spec_fn(FileView) -> bool,
    q: spec_fn(FileView) -> bool,
)
    requires
        record_implies(p, q),
    ensures
        how_many(reuse::records_of(files, records), p) + how_many(
            reuse::unrecorded(files, records),
            q,
        ) <= how_many(files, q),
    decreases files.len(),
{
    if files.len() > 0 {
        let init = files.drop_last();
        lemma_parted_no_more(init, records, p, q);
        let known = reuse::records_of(init, records);
        let unknown = reuse::unrecorded(init, records);
        match reuse::record_of(files.last(), records) {
            Some(record) => {
                reuse::lemma_record_of(files.last(), records);
                assert(reuse::is_record_of(record, files.last()));
                assert(known.push(record).drop_last() =~= known);
            },
            None => {
                assert(unknown.push(files.last()).drop_last() =~= unknown);
            },
        }
    }
}

proof fn lemma_own_hash_count(records: Seq<FileView>, p: spec_fn(FileView) -> bool)
    ensures
        how_many_beside(reuse::by_own_hash(records), p) == how_many(records, p),
    decreases records.len(),
{
    let pairs = reuse::by_own_hash(records);
    if records.len() > 0 {
        lemma_own_hash_count(records.drop_last(), p);
        assert(pairs.drop_last() =~= reuse::by_own_hash(records.drop_last()));
    }
}

// ---------------------------------------------------------------------------
// The files that are left
// ---------------------------------------------------------------------------

proof fn lemma_file_has_group(groups: Seq<(u64, Seq<FileView>)>, k: u64, file: FileView) -> (g: int)
    requires
        hashing::all_files(groups).contains((k, file)),
    ensures
        0 <= g < groups.len(),
        groups[g].0 == k,
        groups[g].1.contains(file),
    decreases groups.len(),
{
    let all = hashing::all_files(groups);
    let i = choose|i: int| 0 <= i < all.len() && all[i] == (k, file);
    let init = groups.drop_last();
    let before = hashing::all_files(init);
    if i < before.len() {
        assert(before[i] == (k, file));
        lemma_file_has_group(init, k, file)
    } else {
        let last = groups.last();
        assert(last.1[i - before.len()] == file);
        groups.len() - 1
    }
}

proof fn lemma_readings_finite(
    results: Seq<GroupView>,
    stage: HashStage,
    files: Map<u64, Seq<FileView>>,
    outcomes: Map<u64, Seq<OutcomeView>>,
)
    requires
        hashing::are_readings_of(results, stage, files, outcomes),
    ensures
        forall|r: int| 0 <= r < results.len() ==> (#[trigger] results[r]).hashes.dom().finite(),
{
    assert forall|r: int| 0 <= r < results.len() implies (
    #[trigger] results[r]).hashes.dom().finite() by {
        assert(hashing::is_reading_of(results[r], stage, files, outcomes));
        let k = results[r].size;
        grouping::lemma_extended_finite(
            Map::<Seq<char>, Seq<FileView>>::empty(),
            hashing::hashed_files(stage, files[k], outcomes[k]),
        );
    }
}

/// The files that are left after their beginnings were hashed.
pub open spec fn files_left(first: Seq<GroupView>) -> Map<u64, Seq<FileView>> {
    grouping::gathered(hashing::all_files(hashing::all_groups(first)))
}

/// Of the files of a size that are left no more satisfy `q` than of all.
proof fn lemma_left_bound(
    sizes: Map<u64, Seq<FileView>>,
    beginnings: Map<u64, Seq<OutcomeView>>,
    first: Seq<GroupView>,
    k: u64,
    q: spec_fn(FileView) -> bool,
)
    requires
        hashing::are_readings_of(first, HashStage::Prehash, sizes, beginnings),
        files_left(first).contains_key(k),
    ensures
        how_many(files_left(first)[k], q) <= how_many(sizes[k], q),
{
    let stage = HashStage::Prehash;
    let all = hashing::all_groups(first);
    let flat = hashing::all_files(all);
    let pairs = Map::new(
        |n: u64| true,
        |n: u64| hashing::hashed_files(stage, sizes[n], beginnings[n]),
    );
    assert(files_left(first)[k] =~= grouping::items_of(flat, k));
    assert forall|r: int| 0 <= r < first.len() implies (#[trigger] first[r]).hashes
        == grouping::gathered(pairs[first[r].size]) by {
        assert(hashing::is_reading_of(first[r], stage, sizes, beginnings));
    }
    lemma_results_bound(first, pairs, k, q);
    lemma_files_filed(all, k, q);
    lemma_hashed_no_more(stage, sizes[k], beginnings[k], q, q);
}

/// The files that are left of a size are files of that size, and no more than
/// there were.
pub proof fn law_files_left_are_among_all(
    sizes: Map<u64, Seq<FileView>>,
    beginnings: Map<u64, Seq<OutcomeView>>,
    first: Seq<GroupView>,
    k: u64,
)
    requires
        hashing::are_readings_of(first, HashStage::Prehash, sizes, beginnings),
        files_left(first).contains_key(k),
    ensures
        sizes.contains_key(k),
        files_left(first)[k].len() <= sizes[k].len(),
        forall|i: int|
            0 <= i < files_left(first)[k].len() ==> sizes[k].contains(
                #[trigger] files_left(first)[k][i],
            ),
{
    let stage = HashStage::Prehash;
    let all = hashing::all_groups(first);
    let flat = hashing::all_files(all);
    let rest = files_left(first);
    assert(rest[k] =~= grouping::items_of(flat, k));
    lemma_readings_finite(first, stage, sizes, beginnings);
    lemma_left_bound(sizes, beginnings, first, k, any_file());
    lemma_all_count(rest[k]);
    lemma_all_count(sizes[k]);
    let n = choose|n: int| 0 <= n < flat.len() && (#[trigger] flat[n]).0 == k;
    assert(flat.contains((k, flat[n].1)));
    let g = lemma_file_has_group(all, k, flat[n].1);
    laws::law_groups_share_a_hash(first, g);
    let (r, h) = choose|r: int, h: Seq<char>| #[trigger] laws::comes_from(first, r, h, all[g]);
    assert(hashing::is_reading_of(first[r], stage, sizes, beginnings));
    assert forall|i: int| 0 <= i < rest[k].len() implies sizes[k].contains(
        #[trigger] rest[k][i],
    ) by {
        let file = rest[k][i];
        assert(grouping::items_of(flat, k).contains(file));
        grouping::lemma_items_hold(flat, k, file);
        let g = lemma_file_has_group(all, k, file);
        laws::law_groups_share_a_hash(first, g);
        let (r, h) = choose|r: int, h: Seq<char>| #[trigger] laws::comes_from(first, r, h, all[g]);
        assert(hashing::is_reading_of(first[r], stage, sizes, beginnings));
        laws::law_only_equal_hashes_stand_together(
            k,
            stage,
            sizes[k],
            beginnings[k],
            h,
            file,
        );
    }
}

// ---------------------------------------------------------------------------
// Hashes that were read and hashes that were known
// ---------------------------------------------------------------------------

/// The files of a size that were read, each beside its hash.
spec fn read_pairs(
    stage: HashStage,
    files: Map<u64, Seq<FileView>>,
    outcomes: Map<u64, Seq<OutcomeView>>,
    k: u64,
) -> Seq<(Seq<char>, FileView)> {
    if files.contains_key(k) {
        hashing::hashed_files(stage, files[k], outcomes[k])
    } else {
        Seq::empty()
    }
}

/// The records of some groups that stand beside `k`, each beside its hash.
spec fn record_pairs(groups: Seq<(u64, Seq<FileView>)>, k: u64) -> Seq<(Seq<char>, FileView)>
    decreases groups.len(),
{
    if groups.len() == 0 {
        Seq::empty()
    } else if groups.last().0 == k {
        record_pairs(groups.drop_last(), k) + reuse::by_own_hash(groups.last().1)
    } else {
        record_pairs(groups.drop_last(), k)
    }
}

/// Every group has a result for its size.
spec fn all_have_results(results: Seq<GroupView>, groups: Seq<(u64, Seq<FileView>)>) -> bool {
    forall|g: int| 0 <= g < groups.len() ==> hashing::has_result(results, (#[trigger] groups[g]).0)
}

proof fn lemma_no_records(groups: Seq<(u64, Seq<FileView>)>, k: u64)
    requires
        forall|g: int| 0 <= g < groups.len() ==> (#[trigger] groups[g]).0 != k,
    ensures
        record_pairs(groups, k) == Seq::<(Seq<char>, FileView)>::empty(),
    decreases groups.len(),
{
    if groups.len() > 0 {
        assert(groups[groups.len() - 1].0 != k);
        assert forall|g: int| 0 <= g < groups.drop_last().len() implies (
        #[trigger] groups.drop_last()[g]).0 != k by {
            assert(groups[g].0 != k);
        }
        lemma_no_records(groups.drop_last(), k);
    }
}

/// After records were filed there is still one result for each size, and under its
/// hashes stand the files that were read and the records.
proof fn lemma_merged(
    stage: HashStage,
    files: Map<u64, Seq<FileView>>,
    outcomes: Map<u64, Seq<OutcomeView>>,
    results: Seq<GroupView>,
    groups: Seq<(u64, Seq<FileView>)>,
)
    requires
        hashing::are_readings_of(results, stage, files, outcomes),
    ensures
        ({
            let after = reuse::with_all_records(results, groups);
            &&& hashing::distinct_sizes(after)
            &&& all_have_results(after, groups)
            &&& forall|k: u64| #[trigger] files.contains_key(k) ==> hashing::has_result(after, k)
            &&& forall|r: int|
                0 <= r < after.len() ==> (#[trigger] after[r]).hashes == grouping::gathered(
                    read_pairs(stage, files, outcomes, after[r].size) + record_pairs(
                        groups,
                        after[r].size,
                    ),
                )
        }),
    decreases groups.len(),
{
    let after = reuse::with_all_records(results, groups);
    if groups.len() == 0 {
        assert forall|r: int| 0 <= r < after.len() implies (#[trigger] after[r]).hashes
            == grouping::gathered(
            read_pairs(stage, files, outcomes, after[r].size) + record_pairs(groups, after[r].size),
        ) by {
            assert(hashing::is_reading_of(results[r], stage, files, outcomes));
            let p = read_pairs(stage, files, outcomes, after[r].size);
            assert(p + Seq::<(Seq<char>, FileView)>::empty() =~= p);
        }
    } else {
        let init = groups.drop_last();
        let size = groups.last().0;
        let records = groups.last().1;
        let more = reuse::by_own_hash(records);
        let before = reuse::with_all_records(results, init);
        lemma_merged(stage, files, outcomes, results, init);
        let i = reuse::result_for(before, size, 0);
        reuse::lemma_result_for_size(before, size, 0);
        reuse::lemma_result_for_none_before(before, size, 0);
        if i == before.len() {
            assert forall|r: int| 0 <= r < before.len() implies (#[trigger] before[r]).size
                != size by {}
            assert(!hashing::has_result(before, size));
            assert forall|g: int| 0 <= g < init.len() implies (#[trigger] init[g]).0 != size by {
                assert(hashing::has_result(before, init[g].0));
            }
            lemma_no_records(init, size);
        }
        assert forall|k: u64| hashing::has_result(before, k) || k == size implies
            #[trigger] hashing::has_result(after, k) by {
            if k == size {
                assert(after[i].size == size);
            } else {
                let r = choose|r: int| 0 <= r < before.len() && (#[trigger] before[r]).size == k;
                assert(after[r].size == k);
            }
        }
        assert(all_have_results(after, groups)) by {
            assert forall|g: int| 0 <= g < groups.len() implies hashing::has_result(
                after,
                (#[trigger] groups[g]).0,
            ) by {
                if g < init.len() {
                    assert(hashing::has_result(before, init[g].0));
                }
            }
        }
        assert forall|x: int, y: int| 0 <= x < y < after.len() implies (#[trigger] after[x]).size
            != (#[trigger] after[y]).size by {
            if y < before.len() {
                assert(before[x].size != before[y].size);
            } else {
                assert(before[x].size != size);
            }
        }
        assert forall|r: int| 0 <= r < after.len() implies (#[trigger] after[r]).hashes
            == grouping::gathered(
            read_pairs(stage, files, outcomes, after[r].size) + record_pairs(groups, after[r].size),
        ) by {
            let k = after[r].size;
            let read = read_pairs(stage, files, outcomes, k);
            let known = record_pairs(init, k);
            if r == i && i < before.len() {
                assert(before[r].hashes == grouping::gathered(read + known));
                grouping::lemma_extended_twice(
                    Map::<Seq<char>, Seq<FileView>>::empty(),
                    read + known,
                    more,
                );
                assert(read + known + more =~= read + (known + more));
            } else if r == i {
                assert(!files.contains_key(size));
                assert(read + (known + more) =~= more);
            } else {
                assert(after[r] == before[r]);
                assert(before[r].size != size) by {
                    if i < before.len() {
                        assert(before[i].size == size);
                        if r < i {
                            assert(before[r].size != before[i].size);
                        } else {
                            assert(before[i].size != before[r].size);
                        }
                    }
                }
            }
        }
    }
}

proof fn lemma_records_of_size(keys: Seq<u64>, m: Map<u64, Seq<FileView>>, k: u64)
    requires
        grouping::ascending(keys),
    ensures
        record_pairs(groups::groups_under(keys, m), k) == if keys.contains(k) {
            reuse::by_own_hash(m[k])
        } else {
            Seq::empty()
        },
    decreases keys.len(),
{
    let gs = groups::groups_under(keys, m);
    if keys.len() > 0 {
        let init = keys.drop_last();
        assert(gs.drop_last() =~= groups::groups_under(init, m));
        lemma_records_of_size(init, m, k);
        let last = keys[keys.len() - 1];
        assert(gs.last() == (last, m[last]));
        if last == k {
            assert(keys.contains(k));
            if init.contains(k) {
                let i = choose|i: int| 0 <= i < init.len() && init[i] == k;
                assert(keys[i] < keys[keys.len() - 1]);
            }
            assert(Seq::<(Seq<char>, FileView)>::empty() + reuse::by_own_hash(m[k])
                =~= reuse::by_own_hash(m[k]));
        } else {
            if keys.contains(k) {
                let i = choose|i: int| 0 <= i < keys.len() && keys[i] == k;
                assert(init[i] == k);
            }
            if init.contains(k) {
                let i = choose|i: int| 0 <= i < init.len() && init[i] == k;
                assert(keys[i] == k);
            }
        }
    }
}

// ---------------------------------------------------------------------------
// Groups by hash within groups by size
// ---------------------------------------------------------------------------

/// A search by hash among the files of `sizes`: their beginnings were read, and
/// of the files that are left those that nothing was known of.
pub open spec fn is_search_by_hash(
    sizes: Map<u64, Seq<FileView>>,
    beginnings: Map<u64, Seq<OutcomeView>>,
    first: Seq<GroupView>,
    loaded: Map<u64, Seq<FileView>>,
    stage: HashStage,
    outcomes: Map<u64, Seq<OutcomeView>>,
    second: Seq<GroupView>,
) -> bool {
    &&& sizes.dom().finite()
    &&& hashing::are_readings_of(first, HashStage::Prehash, sizes, beginnings)
    &&& hashing::are_readings_of(
        second,
        stage,
        reuse::unknown_part(files_left(first), loaded),
        outcomes,
    )
}

/// The groups of files with the same hash, whether it was read or known, by size.
pub open spec fn groups_by_hash(
    first: Seq<GroupView>,
    loaded: Map<u64, Seq<FileView>>,
    second: Seq<GroupView>,
) -> Map<u64, Seq<Seq<FileView>>> {
    grouping::gathered(
        hashing::all_groups(
            reuse::with_all_records(
                second,
                groups::by_size(reuse::known_part(files_left(first), loaded)),
            ),
        ),
    )
}

/// Where nothing is known, every file that is left is read, and the results are
/// those of reading alone.
pub proof fn law_nothing_known(rest: Map<u64, Seq<FileView>>, results: Seq<GroupView>)
    ensures
        reuse::unknown_part(rest, Map::empty()) == rest,
        reuse::with_all_records(
            results,
            groups::by_size(reuse::known_part(rest, Map::empty())),
        ) == results,
{
    let known = reuse::known_part(rest, Map::empty());
    assert(reuse::unknown_part(rest, Map::empty()) =~= rest);
    let none: Seq<u64> = Seq::empty();
    assert(grouping::lists_keys(none, known));
    grouping::lemma_keys_are(none, known);
    assert(groups::by_size(known) =~= Seq::empty());
}

/// `found` has the path of `file`.
pub open spec fn is_at_path_of(found: FileView, file: FileView) -> bool {
    found.path == file.path || model::same_file(file.path, found.path)
}

/// `found` has the path of one of the files.
pub open spec fn has_path_among(found: FileView, files: Seq<FileView>) -> bool {
    exists|j: int| 0 <= j < files.len() && is_at_path_of(found, #[trigger] files[j])
}

/// `found` is what is kept of a file of a size that is left and has this hash.
pub open spec fn is_kept_from(
    rest: Map<u64, Seq<FileView>>,
    loaded: Map<u64, Seq<FileView>>,
    stage: HashStage,
    outcomes: Map<u64, Seq<OutcomeView>>,
    k: u64,
    hash: Seq<char>,
    found: FileView,
) -> bool {
    exists|j: int|
        0 <= j < rest[k].len() && #[trigger] laws::has_known_or_read_hash(
            rest,
            loaded,
            outcomes,
            k,
            j,
            hash,
        ) && found == laws::kept_about(loaded, stage, k, rest[k][j], hash)
}

/// Every file of the group is what is kept of a file that is left and has this hash.
pub open spec fn has_one_hash(
    rest: Map<u64, Seq<FileView>>,
    loaded: Map<u64, Seq<FileView>>,
    stage: HashStage,
    outcomes: Map<u64, Seq<OutcomeView>>,
    k: u64,
    hash: Seq<char>,
    group: Seq<FileView>,
) -> bool {
    forall|n: int|
        0 <= n < group.len() ==> is_kept_from(
            rest,
            loaded,
            stage,
            outcomes,
            k,
            hash,
            #[trigger] group[n],
        )
}

/// The files of a size that have a hash, each beside it.
spec fn pairs_of_size(
    rest: Map<u64, Seq<FileView>>,
    loaded: Map<u64, Seq<FileView>>,
    stage: HashStage,
    outcomes: Map<u64, Seq<OutcomeView>>,
    k: u64,
) -> Seq<(Seq<char>, FileView)> {
    read_pairs(stage, reuse::unknown_part(rest, loaded), outcomes, k) + record_pairs(
        groups::by_size(reuse::known_part(rest, loaded)),
        k,
    )
}

proof fn lemma_records_known(
    rest: Map<u64, Seq<FileView>>,
    loaded: Map<u64, Seq<FileView>>,
    k: u64,
)
    requires
        rest.dom().finite(),
    ensures
        ({
            let known = reuse::known_part(rest, loaded);
            record_pairs(groups::by_size(known), k) == if known.contains_key(k) {
                reuse::by_own_hash(known[k])
            } else {
                Seq::empty()
            }
        }),
{
    let known = reuse::known_part(rest, loaded);
    assert(known.dom().subset_of(rest.dom()));
    vstd::set_lib::lemma_set_subset_finite(rest.dom(), known.dom());
    grouping::lemma_keys_exist(known);
    let keys = grouping::keys_of(known);
    lemma_records_of_size(keys, known, k);
    assert(keys.contains(k) == known.contains_key(k));
}

/// Of the files of a size that have a hash no more satisfy `p` than of those that
/// are left satisfy `q`.
proof fn lemma_pairs_bound(
    rest: Map<u64, Seq<FileView>>,
    loaded: Map<u64, Seq<FileView>>,
    stage: HashStage,
    outcomes: Map<u64, Seq<OutcomeView>>,
    k: u64,
    p: spec_fn(FileView) -> bool,
    q: spec_fn(FileView) -> bool,
)
    requires
        rest.dom().finite(),
        kept_implies(stage, p, q),
        loaded.contains_key(k) ==> record_implies(p, q),
        rest.contains_key(k),
    ensures
        how_many_beside(pairs_of_size(rest, loaded, stage, outcomes, k), p) <= how_many(rest[k], q),
{
    let known = reuse::known_part(rest, loaded);
    let unknown = reuse::unknown_part(rest, loaded);
    let read = read_pairs(stage, unknown, outcomes, k);
    let records = record_pairs(groups::by_size(known), k);
    lemma_records_known(rest, loaded, k);
    lemma_beside_sum(read, records, p);
    if unknown.contains_key(k) {
        lemma_hashed_no_more(stage, unknown[k], outcomes[k], p, q);
    }
    if loaded.contains_key(k) {
        lemma_parted_no_more(rest[k], loaded[k], p, q);
        lemma_own_hash_count(reuse::records_of(rest[k], loaded[k]), p);
    }
}

/// A file of a size that has a hash is kept from a file that is left and has it.
proof fn lemma_pair_is_kept(
    rest: Map<u64, Seq<FileView>>,
    loaded: Map<u64, Seq<FileView>>,
    stage: HashStage,
    outcomes: Map<u64, Seq<OutcomeView>>,
    k: u64,
    hash: Seq<char>,
    f: FileView,
)
    requires
        rest.dom().finite(),
        reuse::unknown_part(rest, loaded).contains_key(k) ==> outcomes[k].len()
            == reuse::unknown_part(rest, loaded)[k].len(),
        pairs_of_size(rest, loaded, stage, outcomes, k).contains((hash, f)),
    ensures
        rest.contains_key(k),
        is_kept_from(rest, loaded, stage, outcomes, k, hash, f),
{
    let known = reuse::known_part(rest, loaded);
    let unknown = reuse::unknown_part(rest, loaded);
    let read = read_pairs(stage, unknown, outcomes, k);
    let pairs = pairs_of_size(rest, loaded, stage, outcomes, k);
    lemma_records_known(rest, loaded, k);
    let n = choose|n: int| 0 <= n < pairs.len() && pairs[n] == (hash, f);
    if loaded.contains_key(k) && rest.contains_key(k) {
        reuse::law_each_file_is_known_or_hashed(rest[k], loaded[k]);
    }
    if n < read.len() {
        assert(read[n] == (hash, f));
        assert(read.contains((hash, f)));
        hashing::lemma_hashed_files(stage, unknown[k], outcomes[k], hash, f);
        let m = choose|m: int|
            0 <= m < unknown[k].len() && #[trigger] hashing::has_hash(outcomes[k][m], hash) && f
                == hashing::kept_file(stage, unknown[k][m], hash);
        let file = unknown[k][m];
        if loaded.contains_key(k) {
            assert(file == reuse::unrecorded(rest[k], loaded[k])[m]);
        }
        assert(rest[k].contains(file));
        let j = choose|j: int| 0 <= j < rest[k].len() && rest[k][j] == file;
        assert(laws::record_about(loaded, k, rest[k][j]) is None);
        assert(laws::has_known_or_read_hash(rest, loaded, outcomes, k, j, hash));
    } else {
        let m = n - read.len();
        assert(f == known[k][m] && f.hash == hash);
        let record = reuse::records_of(rest[k], loaded[k])[m];
        let j = choose|j: int|
            0 <= j < rest[k].len() && reuse::record_of(#[trigger] rest[k][j], loaded[k]) == Some(
                record,
            ) && reuse::is_record_of(record, rest[k][j]);
        assert(laws::record_about(loaded, k, rest[k][j]) == Some(f));
        assert(laws::has_known_or_read_hash(rest, loaded, outcomes, k, j, hash));
    }
}

/// What is known of the groups by hash of a size: there are some, and each is all
/// that stands beside one hash.
proof fn lemma_found_groups(
    sizes: Map<u64, Seq<FileView>>,
    beginnings: Map<u64, Seq<OutcomeView>>,
    first: Seq<GroupView>,
    loaded: Map<u64, Seq<FileView>>,
    stage: HashStage,
    outcomes: Map<u64, Seq<OutcomeView>>,
    second: Seq<GroupView>,
    k: u64,
    p: spec_fn(FileView) -> bool,
)
    requires
        is_search_by_hash(sizes, beginnings, first, loaded, stage, outcomes, second),
        groups_by_hash(first, loaded, second).contains_key(k),
    ensures
        files_left(first).dom().finite(),
        reuse::unknown_part(files_left(first), loaded).contains_key(k) ==> outcomes[k].len()
            == reuse::unknown_part(files_left(first), loaded)[k].len(),
        groups_by_hash(first, loaded, second)[k].len() > 0,
        how_many_in(groups_by_hash(first, loaded, second)[k], p) <= how_many_beside(
            pairs_of_size(files_left(first), loaded, stage, outcomes, k),
            p,
        ),
        forall|g: int|
            0 <= g < groups_by_hash(first, loaded, second)[k].len() ==> stands_beside_a_hash(
                pairs_of_size(files_left(first), loaded, stage, outcomes, k),
                #[trigger] groups_by_hash(first, loaded, second)[k][g],
            ),
{
    let rest = files_left(first);
    let unknown = reuse::unknown_part(rest, loaded);
    let gs = groups::by_size(reuse::known_part(rest, loaded));
    let after = reuse::with_all_records(second, gs);
    let all = hashing::all_groups(after);
    let found = groups_by_hash(first, loaded, second)[k];
    assert(found =~= grouping::items_of(all, k));
    grouping::lemma_extended_finite(
        Map::<u64, Seq<FileView>>::empty(),
        hashing::all_files(hashing::all_groups(first)),
    );
    lemma_merged(stage, unknown, outcomes, second, gs);
    if unknown.contains_key(k) {
        assert(hashing::has_result(second, k));
        let r = choose|r: int| 0 <= r < second.len() && (#[trigger] second[r]).size == k;
        assert(hashing::is_reading_of(second[r], stage, unknown, outcomes));
    }
    let pairs = Map::new(
        |n: u64| true,
        |n: u64| pairs_of_size(rest, loaded, stage, outcomes, n),
    );
    assert forall|r: int| 0 <= r < after.len() implies (#[trigger] after[r]).hashes
        == grouping::gathered(pairs[after[r].size]) by {}
    lemma_results_bound(after, pairs, k, p);
    lemma_groups_filed(all, k, p);
    lemma_readings_finite(second, stage, unknown, outcomes);
    laws::lemma_records_keep_finite(second, gs);
    let any = choose|i: int| 0 <= i < all.len() && (#[trigger] all[i]).0 == k;
    assert(all.contains((k, all[any].1)));
    grouping::lemma_items_hold(all, k, all[any].1);
    assert forall|g: int| 0 <= g < found.len() implies stands_beside_a_hash(
        pairs[k],
        #[trigger] found[g],
    ) by {
        assert(grouping::items_of(all, k).contains(found[g]));
        grouping::lemma_items_hold(all, k, found[g]);
        let i = choose|i: int| 0 <= i < all.len() && all[i] == (k, found[g]);
        laws::law_groups_share_a_hash(after, i);
        let (r, h) = choose|r: int, h: Seq<char>| #[trigger] laws::comes_from(after, r, h, all[i]);
        assert(after[r].size == k);
        assert(found[g] == grouping::gathered(pairs[k])[h]);
        assert(found[g] =~= grouping::items_of(pairs[k], h));
        assert(is_all_beside(pairs[k], h, found[g]));
    }
}

/// The group is all that stands beside a hash.
spec fn is_all_beside(
    pairs: Seq<(Seq<char>, FileView)>,
    hash: Seq<char>,
    group: Seq<FileView>,
) -> bool {
    group.len() > 1 && group == grouping::items_of(pairs, hash)
}

/// The group is all that stands beside some hash.
spec fn stands_beside_a_hash(pairs: Seq<(Seq<char>, FileView)>, group: Seq<FileView>) -> bool {
    exists|h: Seq<char>| is_all_beside(pairs, h, group)
}

/// The files of a group by hash have one hash, whether it was known or was read.
pub proof fn law_group_has_one_hash(
    sizes: Map<u64, Seq<FileView>>,
    beginnings: Map<u64, Seq<OutcomeView>>,
    first: Seq<GroupView>,
    loaded: Map<u64, Seq<FileView>>,
    stage: HashStage,
    outcomes: Map<u64, Seq<OutcomeView>>,
    second: Seq<GroupView>,
    k: u64,
    g: int,
)
    requires
        is_search_by_hash(sizes, beginnings, first, loaded, stage, outcomes, second),
        groups_by_hash(first, loaded, second).contains_key(k),
        0 <= g < groups_by_hash(first, loaded, second)[k].len(),
    ensures
        groups_by_hash(first, loaded, second)[k][g].len() > 1,
        files_left(first).contains_key(k),
        exists|h: Seq<char>|
            has_one_hash(
                files_left(first),
                loaded,
                stage,
                outcomes,
                k,
                h,
                groups_by_hash(first, loaded, second)[k][g],
            ),
{
    let rest = files_left(first);
    let pairs = pairs_of_size(rest, loaded, stage, outcomes, k);
    let group = groups_by_hash(first, loaded, second)[k][g];
    lemma_found_groups(
        sizes,
        beginnings,
        first,
        loaded,
        stage,
        outcomes,
        second,
        k,
        any_file(),
    );
    assert(stands_beside_a_hash(pairs, group));
    let h = choose|h: Seq<char>| is_all_beside(pairs, h, group);
    assert forall|n: int| 0 <= n < group.len() implies rest.contains_key(k) && is_kept_from(
        rest,
        loaded,
        stage,
        outcomes,
        k,
        h,
        #[trigger] group[n],
    ) by {
        assert(grouping::items_of(pairs, h).contains(group[n]));
        grouping::lemma_items_hold(pairs, h, group[n]);
        lemma_pair_is_kept(rest, loaded, stage, outcomes, k, h, group[n]);
    }
    assert(is_kept_from(rest, loaded, stage, outcomes, k, h, group[0]));
    assert(has_one_hash(rest, loaded, stage, outcomes, k, h, group));
}

/// A group by hash lies within the files of its size: it holds two or more files,
/// each has the path of a file of that size, and all groups of a size together
/// hold no more files than there are of that size.
pub proof fn law_groups_by_hash_lie_within_sizes(
    sizes: Map<u64, Seq<FileView>>,
    beginnings: Map<u64, Seq<OutcomeView>>,
    first: Seq<GroupView>,
    loaded: Map<u64, Seq<FileView>>,
    stage: HashStage,
    outcomes: Map<u64, Seq<OutcomeView>>,
    second: Seq<GroupView>,
    k: u64,
)
    requires
        is_search_by_hash(sizes, beginnings, first, loaded, stage, outcomes, second),
        groups_by_hash(first, loaded, second).contains_key(k),
    ensures
        ({
            let found = groups_by_hash(first, loaded, second)[k];
            &&& sizes.contains_key(k)
            &&& found.len() > 0
            &&& files_of(found) <= sizes[k].len()
            &&& forall|g: int| 0 <= g < found.len() ==> (#[trigger] found[g]).len() > 1
            &&& forall|g: int, n: int|
                0 <= g < found.len() && 0 <= n < found[g].len() ==> has_path_among(
                    #[trigger] found[g][n],
                    sizes[k],
                )
        }),
{
    let rest = files_left(first);
    let found = groups_by_hash(first, loaded, second)[k];
    lemma_found_bound(
        sizes,
        beginnings,
        first,
        loaded,
        stage,
        outcomes,
        second,
        k,
        any_file(),
        any_file(),
    );
    lemma_all_count_in(found);
    lemma_all_count(sizes[k]);
    law_files_left_are_among_all(sizes, beginnings, first, k);
    assert forall|g: int| 0 <= g < found.len() implies (#[trigger] found[g]).len() > 1 by {
        law_group_has_one_hash(
            sizes,
            beginnings,
            first,
            loaded,
            stage,
            outcomes,
            second,
            k,
            g,
        );
    }
    assert forall|g: int, n: int|
        0 <= g < found.len() && 0 <= n < found[g].len() implies has_path_among(
        #[trigger] found[g][n],
        sizes[k],
    ) by {
        law_group_has_one_hash(
            sizes,
            beginnings,
            first,
            loaded,
            stage,
            outcomes,
            second,
            k,
            g,
        );
        let group = found[g];
        let h = choose|h: Seq<char>|
            has_one_hash(rest, loaded, stage, outcomes, k, h, group);
        assert(is_kept_from(rest, loaded, stage, outcomes, k, h, group[n]));
        let j = choose|j: int|
            0 <= j < rest[k].len() && #[trigger] laws::has_known_or_read_hash(
                rest,
                loaded,
                outcomes,
                k,
                j,
                h,
            ) && group[n] == laws::kept_about(loaded, stage, k, rest[k][j], h);
        lemma_kept_at_path(loaded, stage, k, rest[k][j], h);
        assert(sizes[k].contains(rest[k][j]));
        let i = choose|i: int| 0 <= i < sizes[k].len() && sizes[k][i] == rest[k][j];
        assert(is_at_path_of(group[n], sizes[k][i]));
    }
}

/// What is kept of a file has its path.
pub proof fn lemma_kept_at_path(
    loaded: Map<u64, Seq<FileView>>,
    stage: HashStage,
    size: u64,
    file: FileView,
    hash: Seq<char>,
)
    ensures
        is_at_path_of(laws::kept_about(loaded, stage, size, file, hash), file),
{
    if let Some(record) = laws::record_about(loaded, size, file) {
        reuse::lemma_record_of(file, loaded[size]);
    }
}

/// In the groups by hash of a size no more files satisfy `p` than among the files
/// of that size satisfy `q`.
proof fn lemma_found_bound(
    sizes: Map<u64, Seq<FileView>>,
    beginnings: Map<u64, Seq<OutcomeView>>,
    first: Seq<GroupView>,
    loaded: Map<u64, Seq<FileView>>,
    stage: HashStage,
    outcomes: Map<u64, Seq<OutcomeView>>,
    second: Seq<GroupView>,
    k: u64,
    p: spec_fn(FileView) -> bool,
    q: spec_fn(FileView) -> bool,
)
    requires
        is_search_by_hash(sizes, beginnings, first, loaded, stage, outcomes, second),
        groups_by_hash(first, loaded, second).contains_key(k),
        kept_implies(stage, p, q),
        loaded.contains_key(k) ==> record_implies(p, q),
    ensures
        files_left(first).contains_key(k),
        groups_by_hash(first, loaded, second)[k].len() > 0,
        how_many_in(groups_by_hash(first, loaded, second)[k], p) <= how_many(sizes[k], q),
{
    let rest = files_left(first);
    lemma_found_groups(sizes, beginnings, first, loaded, stage, outcomes, second, k, p);
    law_group_has_one_hash(sizes, beginnings, first, loaded, stage, outcomes, second, k, 0);
    lemma_pairs_bound(rest, loaded, stage, outcomes, k, p, q);
    lemma_left_bound(sizes, beginnings, first, k, q);
}

// ---------------------------------------------------------------------------
// No file comes twice
// ---------------------------------------------------------------------------

/// `p` is this path, or is called the same.
pub open spec fn is_path(p: PathView, path: PathView) -> bool {
    p == path || model::same_file(path, p)
}

/// No path is or is called the same as both.
pub open spec fn are_apart(a: PathView, b: PathView) -> bool {
    forall|p: PathView| !(#[trigger] is_path(p, a) && is_path(p, b))
}

/// The files at two places have paths that are apart.
pub open spec fn paths_are_apart(sizes: Map<u64, Seq<FileView>>) -> bool {
    forall|k: u64, i: int, l: u64, j: int|
        sizes.contains_key(k) && 0 <= i < sizes[k].len() && sizes.contains_key(l) && 0 <= j
            < sizes[l].len() && (k != l || i != j) ==> are_apart(
            (#[trigger] sizes[k][i]).path,
            (#[trigger] sizes[l][j]).path,
        )
}

/// The files at two places have different paths.
pub open spec fn paths_differ(sizes: Map<u64, Seq<FileView>>) -> bool {
    forall|k: u64, i: int, l: u64, j: int|
        sizes.contains_key(k) && 0 <= i < sizes[k].len() && sizes.contains_key(l) && 0 <= j
            < sizes[l].len() && (k != l || i != j) ==> (#[trigger] sizes[k][i]).path != (
        #[trigger] sizes[l][j]).path
}

proof fn lemma_at_most_one(files: Seq<FileView>, p: spec_fn(FileView) -> bool)
    requires
        forall|i: int, j: int|
            0 <= i < j < files.len() ==> !(p(#[trigger] files[i]) && p(#[trigger] files[j])),
    ensures
        how_many(files, p) <= 1,
        how_many(files, p) == 0 || exists|i: int| 0 <= i < files.len() && p(#[trigger] files[i]),
    decreases files.len(),
{
    if files.len() > 0 {
        let init = files.drop_last();
        assert forall|i: int, j: int| 0 <= i < j < init.len() implies !(p(#[trigger] init[i]) && p(
            #[trigger] init[j],
        )) by {
            assert(!(p(files[i]) && p(files[j])));
        }
        lemma_at_most_one(init, p);
        let last = files.len() - 1;
        if p(files.last()) {
            assert(p(files[last]));
            if how_many(init, p) > 0 {
                let i = choose|i: int| 0 <= i < init.len() && p(#[trigger] init[i]);
                assert(!(p(files[i]) && p(files[last])));
            }
        } else if how_many(init, p) > 0 {
            let i = choose|i: int| 0 <= i < init.len() && p(#[trigger] init[i]);
            assert(p(files[i]));
        }
    }
}

proof fn lemma_one_counts(files: Seq<FileView>, p: spec_fn(FileView) -> bool, i: int)
    requires
        0 <= i < files.len(),
        p(files[i]),
    ensures
        how_many(files, p) >= 1,
    decreases files.len(),
{
    if i < files.len() - 1 {
        lemma_one_counts(files.drop_last(), p, i);
    }
}

proof fn lemma_two_count(files: Seq<FileView>, p: spec_fn(FileView) -> bool, i: int, j: int)
    requires
        0 <= i < j < files.len(),
        p(files[i]),
        p(files[j]),
    ensures
        how_many(files, p) >= 2,
    decreases files.len(),
{
    if j < files.len() - 1 {
        lemma_two_count(files.drop_last(), p, i, j);
    } else {
        lemma_one_counts(files.drop_last(), p, i);
    }
}

proof fn lemma_one_counts_in(
    groups: Seq<Seq<FileView>>,
    p: spec_fn(FileView) -> bool,
    g: int,
)
    requires
        0 <= g < groups.len(),
    ensures
        how_many_in(groups, p) >= how_many(groups[g], p),
    decreases groups.len(),
{
    if g < groups.len() - 1 {
        lemma_one_counts_in(groups.drop_last(), p, g);
    }
}

proof fn lemma_two_count_in(
    groups: Seq<Seq<FileView>>,
    p: spec_fn(FileView) -> bool,
    g: int,
    h: int,
)
    requires
        0 <= g < h < groups.len(),
    ensures
        how_many_in(groups, p) >= how_many(groups[g], p) + how_many(groups[h], p),
    decreases groups.len(),
{
    if h < groups.len() - 1 {
        lemma_two_count_in(groups.drop_last(), p, g, h);
    } else {
        lemma_one_counts_in(groups.drop_last(), p, g);
    }
}

/// Where at most one file satisfies `p`, no two places do.
proof fn lemma_no_two_places(
    groups: Seq<Seq<FileView>>,
    p: spec_fn(FileView) -> bool,
    g: int,
    n: int,
    h: int,
    m: int,
)
    requires
        how_many_in(groups, p) <= 1,
        0 <= g < groups.len(),
        0 <= n < groups[g].len(),
        0 <= h < groups.len(),
        0 <= m < groups[h].len(),
        g != h || n != m,
        p(groups[g][n]),
    ensures
        !p(groups[h][m]),
{
    if p(groups[h][m]) {
        lemma_one_counts(groups[g], p, n);
        lemma_one_counts(groups[h], p, m);
        if g == h {
            if n < m {
                lemma_two_count(groups[g], p, n, m);
            } else {
                lemma_two_count(groups[g], p, m, n);
            }
            lemma_one_counts_in(groups, p, g);
        } else if g < h {
            lemma_two_count_in(groups, p, g, h);
        } else {
            lemma_two_count_in(groups, p, h, g);
        }
    }
}

/// Two places in the groups by hash, file `n` of group `g` of size `k` and file `m`
/// of group `h` of size `l`.
pub open spec fn are_two_places(
    found: Map<u64, Seq<Seq<FileView>>>,
    k: u64,
    g: int,
    n: int,
    l: u64,
    h: int,
    m: int,
) -> bool {
    &&& found.contains_key(k)
    &&& 0 <= g < found[k].len()
    &&& 0 <= n < found[k][g].len()
    &&& found.contains_key(l)
    &&& 0 <= h < found[l].len()
    &&& 0 <= m < found[l][h].len()
    &&& k != l || g != h || n != m
}

/// Where the paths of the files are apart, no path comes twice among the groups by
/// hash.
pub proof fn law_no_path_comes_twice(
    sizes: Map<u64, Seq<FileView>>,
    beginnings: Map<u64, Seq<OutcomeView>>,
    first: Seq<GroupView>,
    loaded: Map<u64, Seq<FileView>>,
    stage: HashStage,
    outcomes: Map<u64, Seq<OutcomeView>>,
    second: Seq<GroupView>,
    k: u64,
    g: int,
    n: int,
    l: u64,
    h: int,
    m: int,
)
    requires
        is_search_by_hash(sizes, beginnings, first, loaded, stage, outcomes, second),
        paths_are_apart(sizes),
        are_two_places(groups_by_hash(first, loaded, second), k, g, n, l, h, m),
    ensures
        groups_by_hash(first, loaded, second)[k][g][n].path != groups_by_hash(
            first,
            loaded,
            second,
        )[l][h][m].path,
{
    let found = groups_by_hash(first, loaded, second);
    let a = found[k][g][n];
    let b = found[l][h][m];
    if a.path == b.path {
        if k != l {
            law_groups_by_hash_lie_within_sizes(
                sizes,
                beginnings,
                first,
                loaded,
                stage,
                outcomes,
                second,
                k,
            );
            law_groups_by_hash_lie_within_sizes(
                sizes,
                beginnings,
                first,
                loaded,
                stage,
                outcomes,
                second,
                l,
            );
            assert(has_path_among(found[k][g][n], sizes[k]));
            assert(has_path_among(found[l][h][m], sizes[l]));
            let i = choose|i: int| 0 <= i < sizes[k].len() && is_at_path_of(
                a,
                #[trigger] sizes[k][i],
            );
            let j = choose|j: int| 0 <= j < sizes[l].len() && is_at_path_of(
                b,
                #[trigger] sizes[l][j],
            );
            assert(are_apart(sizes[k][i].path, sizes[l][j].path));
            assert(is_path(a.path, sizes[k][i].path));
        } else {
            let p = |f: FileView| f.path == a.path;
            let q = |f: FileView| is_path(a.path, f.path);
            law_groups_by_hash_lie_within_sizes(
                sizes,
                beginnings,
                first,
                loaded,
                stage,
                outcomes,
                second,
                k,
            );
            lemma_found_bound(
                sizes,
                beginnings,
                first,
                loaded,
                stage,
                outcomes,
                second,
                k,
                p,
                q,
            );
            assert forall|i: int, j: int| 0 <= i < j < sizes[k].len() implies !(q(
                #[trigger] sizes[k][i],
            ) && q(#[trigger] sizes[k][j])) by {
                assert(are_apart(sizes[k][i].path, sizes[k][j].path));
                assert(!(is_path(a.path, sizes[k][i].path) && is_path(a.path, sizes[k][j].path)));
            }
            lemma_at_most_one(sizes[k], q);
            lemma_no_two_places(found[k], p, g, n, h, m);
        }
    }
}

/// Where every file that is left is read, no path comes twice among the groups by
/// hash if none comes twice among the files.
pub proof fn law_no_path_comes_twice_where_all_are_read(
    sizes: Map<u64, Seq<FileView>>,
    beginnings: Map<u64, Seq<OutcomeView>>,
    first: Seq<GroupView>,
    stage: HashStage,
    outcomes: Map<u64, Seq<OutcomeView>>,
    second: Seq<GroupView>,
    k: u64,
    g: int,
    n: int,
    l: u64,
    h: int,
    m: int,
)
    requires
        is_search_by_hash(sizes, beginnings, first, Map::empty(), stage, outcomes, second),
        paths_differ(sizes),
        are_two_places(groups_by_hash(first, Map::empty(), second), k, g, n, l, h, m),
    ensures
        groups_by_hash(first, Map::empty(), second)[k][g][n].path != groups_by_hash(
            first,
            Map::empty(),
            second,
        )[l][h][m].path,
{
    let none: Map<u64, Seq<FileView>> = Map::empty();
    let found = groups_by_hash(first, none, second);
    let a = found[k][g][n];
    let b = found[l][h][m];
    let p = |f: FileView| f.path == a.path;
    if a.path == b.path {
        law_groups_by_hash_lie_within_sizes(
            sizes,
            beginnings,
            first,
            none,
            stage,
            outcomes,
            second,
            k,
        );
        law_groups_by_hash_lie_within_sizes(
            sizes,
            beginnings,
            first,
            none,
            stage,
            outcomes,
            second,
            l,
        );
        lemma_found_bound(
            sizes,
            beginnings,
            first,
            none,
            stage,
            outcomes,
            second,
            k,
            p,
            p,
        );
        lemma_found_bound(
            sizes,
            beginnings,
            first,
            none,
            stage,
            outcomes,
            second,
            l,
            p,
            p,
        );
        assert forall|i: int, j: int| 0 <= i < j < sizes[k].len() implies !(p(
            #[trigger] sizes[k][i],
        ) && p(#[trigger] sizes[k][j])) by {
            assert(sizes[k][i].path != sizes[k][j].path);
        }
        assert forall|i: int, j: int| 0 <= i < j < sizes[l].len() implies !(p(
            #[trigger] sizes[l][i],
        ) && p(#[trigger] sizes[l][j])) by {
            assert(sizes[l][i].path != sizes[l][j].path);
        }
        lemma_at_most_one(sizes[k], p);
        lemma_at_most_one(sizes[l], p);
        if k == l {
            lemma_no_two_places(found[k], p, g, n, h, m);
        } else {
            lemma_one_counts(found[k][g], p, n);
            lemma_one_counts_in(found[k], p, g);
            lemma_one_counts(found[l][h], p, m);
            lemma_one_counts_in(found[l], p, h);
            let i = choose|i: int| 0 <= i < sizes[k].len() && p(#[trigger] sizes[k][i]);
            let j = choose|j: int| 0 <= j < sizes[l].len() && p(#[trigger] sizes[l][j]);
            assert(sizes[k][i].path != sizes[l][j].path);
        }
    }
}

// ---------------------------------------------------------------------------
// Statistics
// ---------------------------------------------------------------------------

proof fn lemma_counts_sum<K>(a: Seq<(K, Seq<FileView>)>, b: Seq<(K, Seq<FileView>)>)
    ensures
        groups::extra_files(a + b) == groups::extra_files(a) + groups::extra_files(b),
    decreases b.len(),
{
    if b.len() == 0 {
        assert(a + b =~= a);
    } else {
        assert((a + b).drop_last() =~= a + b.drop_last());
        assert((a + b).last() == b.last());
        lemma_counts_sum(a, b.drop_last());
    }
}

proof fn lemma_space_sum(a: Seq<(u64, Seq<FileView>)>, b: Seq<(u64, Seq<FileView>)>)
    ensures
        groups::lost_space(a + b) == groups::lost_space(a) + groups::lost_space(b),
    decreases b.len(),
{
    if b.len() == 0 {
        assert(a + b =~= a);
    } else {
        assert((a + b).drop_last() =~= a + b.drop_last());
        assert((a + b).last() == b.last());
        lemma_space_sum(a, b.drop_last());
    }
}

/// Some groups, each beside its size.
spec fn tagged(k: u64, groups: Seq<Seq<FileView>>) -> Seq<(u64, Seq<FileView>)> {
    groups.map_values(|g: Seq<FileView>| (k, g))
}

proof fn lemma_groups_of_one_size(k: u64, found: Seq<Seq<FileView>>)
    ensures
        groups::extra_files(tagged(k, found)) == files_of(found) - found.len(),
        groups::lost_space(tagged(k, found)) == (files_of(found) - found.len()) * k,
    decreases found.len(),
{
    let t = tagged(k, found);
    if found.len() > 0 {
        let init = found.drop_last();
        lemma_groups_of_one_size(k, init);
        assert(t.drop_last() =~= tagged(k, init));
        assert(t.last() == (k, found.last()));
        let a = files_of(init) - init.len();
        let b = found.last().len() - 1;
        assert(a * k + b * k == (a + b) * k) by (nonlinear_arith);
    }
}

/// The numbers of the groups under some keys.
proof fn lemma_under_keys(
    keys: Seq<u64>,
    found: Map<u64, Seq<Seq<FileView>>>,
    sizes: Map<u64, Seq<FileView>>,
)
    requires
        forall|i: int|
            0 <= i < keys.len() ==> {
                let k = #[trigger] keys[i];
                found[k].len() > 0 && files_of(found[k]) <= sizes[k].len()
            },
    ensures
        groups::extra_files(groups::lists_under(keys, found)) <= groups::extra_files(
            groups::groups_under(keys, sizes),
        ),
        groups::lost_space(groups::lists_under(keys, found)) <= groups::lost_space(
            groups::groups_under(keys, sizes),
        ),
    decreases keys.len(),
{
    if keys.len() > 0 {
        let init = keys.drop_last();
        let k = keys[keys.len() - 1];
        assert forall|i: int| 0 <= i < init.len() implies {
            let k = #[trigger] init[i];
            found[k].len() > 0 && files_of(found[k]) <= sizes[k].len()
        } by {
            assert(init[i] == keys[i]);
        }
        lemma_under_keys(init, found, sizes);
        let before = groups::lists_under(init, found);
        let more = tagged(k, found[k]);
        assert(groups::lists_under(keys, found) =~= before + more);
        lemma_counts_sum(before, more);
        lemma_space_sum(before, more);
        lemma_groups_of_one_size(k, found[k]);
        let all = groups::groups_under(keys, sizes);
        assert(all.drop_last() =~= groups::groups_under(init, sizes));
        assert(all.last() == (k, sizes[k]));
        let x = files_of(found[k]) - found[k].len();
        let y = sizes[k].len() - 1;
        assert(x * k <= y * k) by (nonlinear_arith)
            requires
                x <= y,
                0 <= k,
        ;
    }
}

/// Groups under some of the keys have no greater numbers than those under all.
proof fn lemma_some_keys(a: Seq<u64>, b: Seq<u64>, sizes: Map<u64, Seq<FileView>>)
    requires
        grouping::ascending(a),
        grouping::ascending(b),
        forall|k: u64| #[trigger] a.contains(k) ==> b.contains(k),
        forall|i: int| 0 <= i < b.len() ==> sizes[#[trigger] b[i]].len() > 0,
    ensures
        groups::extra_files(groups::groups_under(a, sizes)) <= groups::extra_files(
            groups::groups_under(b, sizes),
        ),
        groups::lost_space(groups::groups_under(a, sizes)) <= groups::lost_space(
            groups::groups_under(b, sizes),
        ),
    decreases b.len(),
{
    let ga = groups::groups_under(a, sizes);
    let gb = groups::groups_under(b, sizes);
    if b.len() == 0 {
        if a.len() > 0 {
            assert(a.contains(a[0]));
        }
        assert(ga =~= gb);
    } else {
        let k = b[b.len() - 1];
        let bi = b.drop_last();
        assert(gb.drop_last() =~= groups::groups_under(bi, sizes));
        assert(gb.last() == (k, sizes[k]));
        let w = sizes[k].len() - 1;
        assert(w * k >= 0) by (nonlinear_arith)
            requires
                w >= 0,
                k >= 0,
        ;
        assert forall|i: int| 0 <= i < bi.len() implies sizes[#[trigger] bi[i]].len() > 0 by {
            assert(bi[i] == b[i]);
        }
        if a.contains(k) {
            let n = choose|n: int| 0 <= n < a.len() && a[n] == k;
            let last = a[a.len() - 1];
            assert(a.contains(last));
            let m = choose|m: int| 0 <= m < b.len() && b[m] == last;
            assert(last == k);
            let ai = a.drop_last();
            assert forall|j: u64| #[trigger] ai.contains(j) implies bi.contains(j) by {
                let x = choose|x: int| 0 <= x < ai.len() && ai[x] == j;
                assert(a[x] == j);
                assert(a.contains(j));
                assert(a[x] < a[a.len() - 1]);
                let y = choose|y: int| 0 <= y < b.len() && b[y] == j;
                assert(bi[y] == j);
            }
            assert(ga.drop_last() =~= groups::groups_under(ai, sizes));
            assert(ga.last() == (k, sizes[k]));
            lemma_some_keys(ai, bi, sizes);
        } else {
            assert forall|j: u64| #[trigger] a.contains(j) implies bi.contains(j) by {
                let y = choose|y: int| 0 <= y < b.len() && b[y] == j;
                assert(bi[y] == j);
            }
            lemma_some_keys(a, bi, sizes);
        }
    }
}

/// A search by hash finds no more duplicates, and no more lost space, than the
/// comparison by size that it begins with.
pub proof fn law_hashing_finds_no_more(
    sizes: Map<u64, Seq<FileView>>,
    beginnings: Map<u64, Seq<OutcomeView>>,
    first: Seq<GroupView>,
    loaded: Map<u64, Seq<FileView>>,
    stage: HashStage,
    outcomes: Map<u64, Seq<OutcomeView>>,
    second: Seq<GroupView>,
)
    requires
        is_search_by_hash(sizes, beginnings, first, loaded, stage, outcomes, second),
        groups::all_large(groups::by_size(sizes)),
    ensures
        groups::extra_files(groups::by_hash(groups_by_hash(first, loaded, second)))
            <= groups::extra_files(groups::by_size(sizes)),
        groups::lost_space(groups::by_hash(groups_by_hash(first, loaded, second)))
            <= groups::lost_space(groups::by_size(sizes)),
{
    let found = groups_by_hash(first, loaded, second);
    grouping::lemma_extended_finite(
        Map::<u64, Seq<Seq<FileView>>>::empty(),
        hashing::all_groups(
            reuse::with_all_records(
                second,
                groups::by_size(reuse::known_part(files_left(first), loaded)),
            ),
        ),
    );
    grouping::lemma_keys_exist(found);
    grouping::lemma_keys_exist(sizes);
    let a = grouping::keys_of(found);
    let b = grouping::keys_of(sizes);
    assert forall|i: int| 0 <= i < a.len() implies {
        let k = #[trigger] a[i];
        found[k].len() > 0 && files_of(found[k]) <= sizes[k].len()
    } by {
        assert(a.contains(a[i]));
        law_groups_by_hash_lie_within_sizes(
            sizes,
            beginnings,
            first,
            loaded,
            stage,
            outcomes,
            second,
            a[i],
        );
    }
    assert forall|k: u64| #[trigger] a.contains(k) implies b.contains(k) by {
        law_groups_by_hash_lie_within_sizes(
            sizes,
            beginnings,
            first,
            loaded,
            stage,
            outcomes,
            second,
            k,
        );
    }
    assert forall|i: int| 0 <= i < b.len() implies sizes[#[trigger] b[i]].len() > 0 by {
        assert(groups::by_size(sizes)[i].1.len() > 1);
    }
    lemma_under_keys(a, found, sizes);
    lemma_some_keys(a, b, sizes);
}

/// The statistics of a search by hash: those by size are the ones of the search by
/// size that it begins with, and those by hash do not exceed them.
pub proof fn law_statistics_by_hash_do_not_exceed_those_by_size(
    info: Info,
    sizes: Map<u64, Seq<FileView>>,
    beginnings: Map<u64, Seq<OutcomeView>>,
    first: Seq<GroupView>,
    loaded: Map<u64, Seq<FileView>>,
    stage: HashStage,
    outcomes: Map<u64, Seq<OutcomeView>>,
    second: Seq<GroupView>,
)
    requires
        is_search_by_hash(sizes, beginnings, first, loaded, stage, outcomes, second),
        groups::all_large(groups::by_size(sizes)),
        info.number_of_duplicated_files_by_hash <= info.number_of_duplicated_files_by_size,
        info.lost_space_by_hash <= info.lost_space_by_size,
        counting::sizes_countable(info, groups::by_size(sizes)),
        counting::hashes_countable(
            info,
            groups::by_hash(groups_by_hash(first, loaded, second)),
        ),
    ensures
        ({
            let by_size = counting::with_sizes_counted(info, groups::by_size(sizes));
            let end = counting::with_hashes_counted(
                by_size,
                groups::by_hash(groups_by_hash(first, loaded, second)),
            );
            &&& end.number_of_groups_by_size == by_size.number_of_groups_by_size
            &&& end.number_of_duplicated_files_by_size
                == by_size.number_of_duplicated_files_by_size
            &&& end.lost_space_by_size == by_size.lost_space_by_size
            &&& end.number_of_duplicated_files_by_hash <= end.number_of_duplicated_files_by_size
            &&& end.lost_space_by_hash <= end.lost_space_by_size
        }),
{
    law_hashing_finds_no_more(sizes, beginnings, first, loaded, stage, outcomes, second);
    groups::lemma_extra_files_grow(groups::by_size(sizes), 0);
    groups::lemma_lost_space_grows(groups::by_size(sizes), 0);
    lemma_found_counts(sizes, beginnings, first, loaded, stage, outcomes, second);
}

proof fn lemma_found_counts(
    sizes: Map<u64, Seq<FileView>>,
    beginnings: Map<u64, Seq<OutcomeView>>,
    first: Seq<GroupView>,
    loaded: Map<u64, Seq<FileView>>,
    stage: HashStage,
    outcomes: Map<u64, Seq<OutcomeView>>,
    second: Seq<GroupView>,
)
    requires
        is_search_by_hash(sizes, beginnings, first, loaded, stage, outcomes, second),
    ensures
        groups::extra_files(groups::by_hash(groups_by_hash(first, loaded, second))) >= 0,
        groups::lost_space(groups::by_hash(groups_by_hash(first, loaded, second))) >= 0,
{
    let found = groups_by_hash(first, loaded, second);
    grouping::lemma_extended_finite(
        Map::<u64, Seq<Seq<FileView>>>::empty(),
        hashing::all_groups(
            reuse::with_all_records(
                second,
                groups::by_size(reuse::known_part(files_left(first), loaded)),
            ),
        ),
    );
    grouping::lemma_keys_exist(found);
    let keys = grouping::keys_of(found);
    assert forall|i: int, g: int|
        0 <= i < keys.len() && 0 <= g < found[keys[i]].len() implies (
    #[trigger] found[keys[i]][g]).len() > 1 by {
        assert(keys.contains(keys[i]));
        law_groups_by_hash_lie_within_sizes(
            sizes,
            beginnings,
            first,
            loaded,
            stage,
            outcomes,
            second,
            keys[i],
        );
    }
    lemma_lists_hold_files(keys, found);
    groups::lemma_extra_files_grow(groups::by_hash(found), 0);
    groups::lemma_lost_space_grows(groups::by_hash(found), 0);
}

proof fn lemma_lists_hold_files(keys: Seq<u64>, found: Map<u64, Seq<Seq<FileView>>>)
    requires
        forall|i: int, g: int|
            0 <= i < keys.len() && 0 <= g < found[keys[i]].len() ==> (
            #[trigger] found[keys[i]][g]).len() > 1,
    ensures
        groups::none_empty(groups::lists_under(keys, found)),
    decreases keys.len(),
{
    if keys.len() > 0 {
        let init = keys.drop_last();
        let k = keys[keys.len() - 1];
        assert forall|i: int, g: int|
            0 <= i < init.len() && 0 <= g < found[init[i]].len() implies (
        #[trigger] found[init[i]][g]).len() > 1 by {
            assert(found[keys[i]][g].len() > 1);
        }
        lemma_lists_hold_files(init, found);
        let before = groups::lists_under(init, found);
        let all = groups::lists_under(keys, found);
        assert forall|i: int| 0 <= i < all.len() implies (#[trigger] all[i]).1.len() > 0 by {
            if i < before.len() {
                assert(all[i] == before[i]);
            } else {
                assert(found[keys[keys.len() - 1]][i - before.len()].len() > 1);
                assert(all[i].1 == found[k][i - before.len()]);
            }
        }
    }
}

/// Of two searches that look for the same files on the same walk, one by size and
/// one by hash, the groups of the second lie within those of the first: each has
/// a group of the first for its size, every file in it has the path of a file of
/// that group, and the numbers of the second do not exceed those of the first.
pub proof fn law_search_by_hash_lies_within_search_by_size(
    a: DuplicateFinder,
    b: DuplicateFinder,
    visits: Seq<Seq<ListedEntry>>,
    beginnings: Map<u64, Seq<OutcomeView>>,
    first: Seq<GroupView>,
    loaded: Map<u64, Seq<FileView>>,
    stage: HashStage,
    outcomes: Map<u64, Seq<OutcomeView>>,
    second: Seq<GroupView>,
)
    requires
        walk::look_alike(a, b),
        is_search_by_hash(
            groups::duplicated(b.sizes_after(Map::empty(), visits)),
            beginnings,
            first,
            loaded,
            stage,
            outcomes,
            second,
        ),
    ensures
        ({
            let sizes = groups::duplicated(a.sizes_after(Map::empty(), visits));
            let found = groups_by_hash(first, loaded, second);
            &&& groups::duplicated(b.sizes_after(Map::empty(), visits)) == sizes
            &&& forall|k: u64| #[trigger]
                found.contains_key(k) ==> sizes.contains_key(k) && files_of(found[k])
                    <= sizes[k].len()
            &&& forall|k: u64, g: int, n: int|
                found.contains_key(k) && 0 <= g < found[k].len() && 0 <= n < found[k][g].len()
                    ==> has_path_among(#[trigger] found[k][g][n], sizes[k])
            &&& groups::extra_files(groups::by_hash(found)) <= groups::extra_files(
                groups::by_size(sizes),
            )
            &&& groups::lost_space(groups::by_hash(found)) <= groups::lost_space(
                groups::by_size(sizes),
            )
        }),
{
    let sizes = groups::duplicated(b.sizes_after(Map::empty(), visits));
    let found = groups_by_hash(first, loaded, second);
    walk::law_sizes_agree(a, b, Map::empty(), visits);
    grouping::lemma_keys_exist(sizes);
    let keys = grouping::keys_of(sizes);
    assert forall|i: int| 0 <= i < groups::by_size(sizes).len() implies (
    #[trigger] groups::by_size(sizes)[i]).1.len() > 1 by {
        assert(keys.contains(keys[i]));
    }
    law_hashing_finds_no_more(sizes, beginnings, first, loaded, stage, outcomes, second);
    assert forall|k: u64| #[trigger] found.contains_key(k) implies sizes.contains_key(k)
        && files_of(found[k]) <= sizes[k].len() by {
        law_groups_by_hash_lie_within_sizes(
            sizes,
            beginnings,
            first,
            loaded,
            stage,
            outcomes,
            second,
            k,
        );
    }
    assert forall|k: u64, g: int, n: int|
        found.contains_key(k) && 0 <= g < found[k].len() && 0 <= n
            < found[k][g].len() implies has_path_among(#[trigger] found[k][g][n], sizes[k]) by {
        law_groups_by_hash_lie_within_sizes(
            sizes,
            beginnings,
            first,
            loaded,
            stage,
            outcomes,
            second,
            k,
        );
    }
}

} // verus!
