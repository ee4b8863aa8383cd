//! What holds of a search as a whole.
use crate::digest::HashStage;
use crate::finder::DuplicateFinder;
use crate::grouping;
use crate::groups;
use crate::hashing;
use crate::hashing::{GroupView, OutcomeView};
use crate::model::FileView;
use crate::reuse;
use crate::scan;
use crate::scan::ListedEntry;
use crate::textmap;
use vstd::prelude::*;

verus! {

// ---------------------------------------------------------------------------
// Taking files in
// ---------------------------------------------------------------------------

/// Looking through entries in two parts is looking through them at once: the
/// same files are taken in, the same folders are followed, and the files are
/// filed alike.
pub proof fn law_scan_in_parts(
    finder: DuplicateFinder,
    names: Map<Seq<char>, Seq<FileView>>,
    sizes: Map<u64, Seq<FileView>>,
    a: Seq<ListedEntry>,
    b: Seq<ListedEntry>,
)
    ensures
        finder.taken(a + b) == finder.taken(a) + finder.taken(b),
        finder.followed(a + b) == finder.followed(a) + finder.followed(b),
        grouping::extended(grouping::extended(names, finder.taken(a)), finder.taken(b))
            == grouping::extended(names, finder.taken(a + b)),
        grouping::extended(
            grouping::extended(sizes, scan::by_own_size(finder.taken(a))),
            scan::by_own_size(finder.taken(b)),
        ) == grouping::extended(sizes, scan::by_own_size(finder.taken(a + b))),
{
    lemma_taken_in_parts(finder, a, b);
    grouping::lemma_extended_twice(names, finder.taken(a), finder.taken(b));
    grouping::lemma_extended_twice(
        sizes,
        scan::by_own_size(finder.taken(a)),
        scan::by_own_size(finder.taken(b)),
    );
    assert(scan::by_own_size(finder.taken(a)) + scan::by_own_size(finder.taken(b))
        =~= scan::by_own_size(finder.taken(a) + finder.taken(b)));
}

proof fn lemma_taken_in_parts(finder: DuplicateFinder, a: Seq<ListedEntry>, b: Seq<ListedEntry>)
    ensures
        finder.taken(a + b) == finder.taken(a) + finder.taken(b),
        finder.followed(a + b) == finder.followed(a) + finder.followed(b),
    decreases b.len(),
{
    if b.len() == 0 {
        assert(a + b =~= a);
        assert(finder.taken(a) + finder.taken(b) =~= finder.taken(a));
        assert(finder.followed(a) + finder.followed(b) =~= finder.followed(a));
    } else {
        lemma_taken_in_parts(finder, a, b.drop_last());
        assert((a + b).drop_last() =~= a + b.drop_last());
        assert((a + b).last() == b.last());
        assert(finder.taken(a + b) =~= finder.taken(a) + finder.taken(b));
        assert(finder.followed(a + b) =~= finder.followed(a) + finder.followed(b));
    }
}

/// A file that is taken in is at least as large as the search asks for; none is
/// empty.
pub proof fn law_taken_files_are_large_enough(
    finder: DuplicateFinder,
    entries: Seq<ListedEntry>,
    i: int,
)
    requires
        finder.wf(),
        0 <= i < finder.taken(entries).len(),
    ensures
        finder.taken(entries)[i].1.size >= finder.minimal_file_size,
        finder.taken(entries)[i].1.size > 0,
    decreases entries.len(),
{
    if entries.len() > 0 {
        let before = finder.taken(entries.drop_last());
        if i < before.len() {
            law_taken_files_are_large_enough(finder, entries.drop_last(), i);
        }
    }
}

/// Of the files that were taken in, those that share a name or a size with
/// another are among the results of a search, and no others.
pub proof fn law_shared_keys_are_found<K>(pairs: Seq<(K, FileView)>, i: int)
    requires
        0 <= i < pairs.len(),
    ensures
        ({
            let found = groups::duplicated(grouping::gathered(pairs));
            let k = pairs[i].0;
            &&& found.contains_key(k) <==> exists|j: int|
                0 <= j < pairs.len() && j != i && (#[trigger] pairs[j]).0 == k
            &&& found.contains_key(k) ==> found[k].contains(pairs[i].1)
        }),
{
    let k = pairs[i].0;
    let all = grouping::gathered(pairs);
    let found = groups::duplicated(all);
    let items = grouping::items_of(pairs, k);
    assert(all[k] =~= items);
    assert(grouping::has_key(pairs, k));
    assert(pairs.contains((k, pairs[i].1)));
    grouping::lemma_items_hold(pairs, k, pairs[i].1);
    if exists|j: int| 0 <= j < pairs.len() && j != i && (#[trigger] pairs[j]).0 == k {
        let j = choose|j: int| 0 <= j < pairs.len() && j != i && (#[trigger] pairs[j]).0 == k;
        if i < j {
            grouping::lemma_two_items(pairs, k, i, j);
        } else {
            grouping::lemma_two_items(pairs, k, j, i);
        }
    } else {
        lemma_one_item(pairs, k, i);
    }
}

proof fn lemma_one_item<K>(pairs: Seq<(K, FileView)>, k: K, i: int)
    requires
        0 <= i < pairs.len(),
        pairs[i].0 == k,
        forall|j: int| 0 <= j < pairs.len() && j != i ==> (#[trigger] pairs[j]).0 != k,
    ensures
        grouping::items_of(pairs, k).len() == 1,
    decreases pairs.len(),
{
    let init = pairs.drop_last();
    if i < init.len() {
        assert(pairs[pairs.len() - 1].0 != k);
        assert forall|j: int| 0 <= j < init.len() && j != i implies (#[trigger] init[j]).0 != k by {
            assert(pairs[j].0 != k);
        }
        lemma_one_item(init, k, i);
    } else {
        assert(!grouping::has_key(init, k)) by {
            assert forall|j: int| 0 <= j < init.len() implies (#[trigger] init[j]).0 != k by {
                assert(pairs[j].0 != k);
            }
        }
        grouping::lemma_no_items(init, k);
    }
}

/// A file among the results of a search by name or by size stands under the key
/// that it was taken in with.
pub proof fn law_found_files_were_taken<K>(pairs: Seq<(K, FileView)>, k: K, i: int)
    requires
        groups::duplicated(grouping::gathered(pairs)).contains_key(k),
        0 <= i < groups::duplicated(grouping::gathered(pairs))[k].len(),
    ensures
        pairs.contains((k, groups::duplicated(grouping::gathered(pairs))[k][i])),
{
    let list = groups::duplicated(grouping::gathered(pairs))[k];
    assert(list =~= grouping::items_of(pairs, k));
    assert(grouping::items_of(pairs, k).contains(list[i]));
    grouping::lemma_items_hold(pairs, k, list[i]);
}

// ---------------------------------------------------------------------------
// Comparing by hash
// ---------------------------------------------------------------------------

proof fn lemma_groups_of(result: GroupView, hash: Seq<char>)
    requires
        result.hashes.dom().finite(),
    ensures
        result.hashes.contains_key(hash) && result.hashes[hash].len() > 1
            ==> hashing::groups_of(result).contains((result.size, result.hashes[hash])),
        forall|g: int|
            0 <= g < hashing::groups_of(result).len() ==> is_group_of(
                result,
                #[trigger] hashing::groups_of(result)[g],
            ),
{
    let m = groups::duplicated(result.hashes);
    assert(m.dom().subset_of(result.hashes.dom()));
    vstd::set_lib::lemma_set_subset_finite(result.hashes.dom(), m.dom());
    textmap::lemma_keys_exist(m);
    let keys = textmap::keys_of(m);
    let gs = hashing::groups_of(result);
    if result.hashes.contains_key(hash) && result.hashes[hash].len() > 1 {
        assert(m.contains_key(hash));
        assert(keys.contains(hash));
        let i = choose|i: int| 0 <= i < keys.len() && keys[i] == hash;
        assert(gs[i] == (result.size, result.hashes[hash]));
    }
    assert forall|g: int| 0 <= g < gs.len() implies is_group_of(result, #[trigger] gs[g]) by {
        assert(keys.contains(keys[g]));
        assert(is_group_with_hash(result, keys[g], gs[g]));
    }
}

/// The group is the files of a result that have one hash, and there are two or
/// more.
pub open spec fn is_group_with_hash(
    result: GroupView,
    hash: Seq<char>,
    group: (u64, Seq<FileView>),
) -> bool {
    &&& result.hashes.contains_key(hash)
    &&& result.hashes[hash].len() > 1
    &&& group == (result.size, result.hashes[hash])
}

/// The group is the files of a result that have some hash.
pub open spec fn is_group_of(result: GroupView, group: (u64, Seq<FileView>)) -> bool {
    exists|h: Seq<char>| is_group_with_hash(result, h, group)
}

proof fn lemma_all_groups_hold(results: Seq<GroupView>, r: int, group: (u64, Seq<FileView>))
    requires
        0 <= r < results.len(),
        hashing::groups_of(results[r]).contains(group),
    ensures
        hashing::all_groups(results).contains(group),
    decreases results.len(),
{
    let all = hashing::all_groups(results);
    let init = results.drop_last();
    let before = hashing::all_groups(init);
    if r < init.len() {
        lemma_all_groups_hold(init, r, group);
        let i = choose|i: int| 0 <= i < before.len() && before[i] == group;
        assert(all[i] == group);
    } else {
        let last = hashing::groups_of(results.last());
        let i = choose|i: int| 0 <= i < last.len() && last[i] == group;
        assert(all[before.len() + i] == group);
    }
}

/// Files of one size that have the same hash are found as one group.
pub proof fn law_equal_hashes_are_grouped(
    hashes: Map<u64, Seq<Seq<FileView>>>,
    results: Seq<GroupView>,
    r: int,
    hash: Seq<char>,
)
    requires
        0 <= r < results.len(),
        results[r].hashes.dom().finite(),
        results[r].hashes.contains_key(hash),
        results[r].hashes[hash].len() > 1,
    ensures
        grouping::extended(hashes, hashing::all_groups(results)).contains_key(results[r].size),
        grouping::extended(hashes, hashing::all_groups(results))[results[r].size].contains(
            results[r].hashes[hash],
        ),
{
    let size = results[r].size;
    let group = results[r].hashes[hash];
    let all = hashing::all_groups(results);
    lemma_groups_of(results[r], hash);
    lemma_all_groups_hold(results, r, (size, group));
    let i = choose|i: int| 0 <= i < all.len() && all[i] == (size, group);
    assert(all[i].0 == size);
    grouping::lemma_items_hold(all, size, group);
    let first = grouping::listed(hashes, size);
    let items = grouping::items_of(all, size);
    let j = choose|j: int| 0 <= j < items.len() && items[j] == group;
    assert((first + items)[first.len() + j] == group);
}

/// The group is the files of result `r` that have this hash.
pub open spec fn comes_from(
    results: Seq<GroupView>,
    r: int,
    hash: Seq<char>,
    group: (u64, Seq<FileView>),
) -> bool {
    0 <= r < results.len() && is_group_with_hash(results[r], hash, group)
}

/// A group that is found holds the files of one result that have one hash.
pub proof fn law_groups_share_a_hash(results: Seq<GroupView>, g: int)
    requires
        forall|r: int| 0 <= r < results.len() ==> (#[trigger] results[r]).hashes.dom().finite(),
        0 <= g < hashing::all_groups(results).len(),
    ensures
        exists|r: int, h: Seq<char>| #[trigger]
            comes_from(results, r, h, hashing::all_groups(results)[g]),
    decreases results.len(),
{
    let all = hashing::all_groups(results);
    if results.len() > 0 {
        let init = results.drop_last();
        let before = hashing::all_groups(init);
        if g < before.len() {
            assert forall|r: int| 0 <= r < init.len() implies (
            #[trigger] init[r]).hashes.dom().finite() by {
                assert(init[r] == results[r]);
            }
            law_groups_share_a_hash(init, g);
            assert(before[g] == all[g]);
            let (r, h) = choose|r: int, h: Seq<char>| #[trigger]
                comes_from(init, r, h, before[g]);
            assert(comes_from(results, r, h, all[g]));
        } else {
            let last = results.len() - 1;
            assert(results[last].hashes.dom().finite());
            lemma_groups_of(results[last], Seq::empty());
            let group = hashing::groups_of(results[last])[g - before.len()];
            assert(all[g] == group);
            assert(is_group_of(results[last], group));
            let h = choose|h: Seq<char>| is_group_with_hash(results[last], h, group);
            assert(comes_from(results, last, h, all[g]));
        }
    }
}

/// Two files of a group that were read to the end and have the same hash stand
/// together under it.
pub proof fn law_equal_hashes_stand_together(
    size: u64,
    stage: HashStage,
    files: Seq<FileView>,
    outcomes: Seq<OutcomeView>,
    hash: Seq<char>,
    i: int,
    j: int,
)
    requires
        files.len() == outcomes.len(),
        0 <= i < j < files.len(),
        hashing::has_hash(outcomes[i], hash),
        hashing::has_hash(outcomes[j], hash),
    ensures
        ({
            let result = hashing::group_of(size, stage, files, outcomes);
            &&& result.hashes.dom().finite()
            &&& result.hashes.contains_key(hash)
            &&& result.hashes[hash].len() > 1
            &&& result.hashes[hash].contains(hashing::kept_file(stage, files[i], hash))
            &&& result.hashes[hash].contains(hashing::kept_file(stage, files[j], hash))
        }),
{
    let pairs = hashing::hashed_files(stage, files, outcomes);
    let a = hashing::kept_file(stage, files[i], hash);
    let b = hashing::kept_file(stage, files[j], hash);
    grouping::lemma_extended_finite(Map::<Seq<char>, Seq<FileView>>::empty(), pairs);
    hashing::lemma_hashed_files(stage, files, outcomes, hash, a);
    hashing::lemma_hashed_files(stage, files, outcomes, hash, b);
    grouping::lemma_items_hold(pairs, hash, a);
    grouping::lemma_items_hold(pairs, hash, b);
    let n = choose|n: int| 0 <= n < pairs.len() && pairs[n] == (hash, a);
    assert(pairs[n].0 == hash);
    assert(grouping::gathered(pairs)[hash] =~= grouping::items_of(pairs, hash));
    let (x, y) = lemma_two_hashed(stage, files, outcomes, hash, i, j);
    grouping::lemma_two_items(pairs, hash, x, y);
}

proof fn lemma_two_hashed(
    stage: HashStage,
    files: Seq<FileView>,
    outcomes: Seq<OutcomeView>,
    hash: Seq<char>,
    i: int,
    j: int,
) -> (r: (int, int))
    requires
        files.len() == outcomes.len(),
        0 <= i < j < files.len(),
        hashing::has_hash(outcomes[i], hash),
        hashing::has_hash(outcomes[j], hash),
    ensures
        0 <= r.0 < r.1 < hashing::hashed_files(stage, files, outcomes).len(),
        hashing::hashed_files(stage, files, outcomes)[r.0].0 == hash,
        hashing::hashed_files(stage, files, outcomes)[r.1].0 == hash,
    decreases files.len(),
{
    let fi = files.drop_last();
    let oi = outcomes.drop_last();
    let before = hashing::hashed_files(stage, fi, oi);
    if j < fi.len() {
        lemma_two_hashed(stage, fi, oi, hash, i, j)
    } else {
        let a = hashing::kept_file(stage, fi[i], hash);
        assert(hashing::has_hash(oi[i], hash));
        hashing::lemma_hashed_files(stage, fi, oi, hash, a);
        let n = choose|n: int| 0 <= n < before.len() && before[n] == (hash, a);
        (n, before.len() as int)
    }
}

/// A file stands under a hash only if it was read to the end and has that hash.
pub proof fn law_only_equal_hashes_stand_together(
    size: u64,
    stage: HashStage,
    files: Seq<FileView>,
    outcomes: Seq<OutcomeView>,
    hash: Seq<char>,
    file: FileView,
)
    requires
        files.len() == outcomes.len(),
        hashing::group_of(size, stage, files, outcomes).hashes.contains_key(hash),
        hashing::group_of(size, stage, files, outcomes).hashes[hash].contains(file),
    ensures
        exists|i: int|
            0 <= i < files.len() && #[trigger] hashing::has_hash(outcomes[i], hash) && file
                == hashing::kept_file(stage, files[i], hash),
{
    let pairs = hashing::hashed_files(stage, files, outcomes);
    assert(grouping::gathered(pairs)[hash] =~= grouping::items_of(pairs, hash));
    grouping::lemma_items_hold(pairs, hash, file);
    hashing::lemma_hashed_files(stage, files, outcomes, hash, file);
}

/// A file whose beginning another file of its size shares goes on to be hashed
/// in full.
pub proof fn law_shared_beginnings_go_on(
    results: Seq<GroupView>,
    r: int,
    hash: Seq<char>,
    file: FileView,
)
    requires
        0 <= r < results.len(),
        results[r].hashes.dom().finite(),
        results[r].hashes.contains_key(hash),
        results[r].hashes[hash].len() > 1,
        results[r].hashes[hash].contains(file),
    ensures
        ({
            let rest = grouping::gathered(hashing::all_files(hashing::all_groups(results)));
            rest.contains_key(results[r].size) && rest[results[r].size].contains(file)
        }),
{
    let size = results[r].size;
    let group = results[r].hashes[hash];
    let all = hashing::all_groups(results);
    lemma_groups_of(results[r], hash);
    lemma_all_groups_hold(results, r, (size, group));
    let g = choose|g: int| 0 <= g < all.len() && all[g] == (size, group);
    lemma_all_files_hold(all, g, file);
    let pairs = hashing::all_files(all);
    let i = choose|i: int| 0 <= i < pairs.len() && pairs[i] == (size, file);
    assert(pairs[i].0 == size);
    grouping::lemma_items_hold(pairs, size, file);
    assert(grouping::gathered(pairs)[size] =~= grouping::items_of(pairs, size));
}

proof fn lemma_all_files_hold(groups: Seq<(u64, Seq<FileView>)>, g: int, file: FileView)
    requires
        0 <= g < groups.len(),
        groups[g].1.contains(file),
    ensures
        hashing::all_files(groups).contains((groups[g].0, file)),
    decreases groups.len(),
{
    let all = hashing::all_files(groups);
    let init = groups.drop_last();
    let before = hashing::all_files(init);
    if g < init.len() {
        lemma_all_files_hold(init, g, file);
        let i = choose|i: int| 0 <= i < before.len() && before[i] == (groups[g].0, file);
        assert(all[i] == (groups[g].0, file));
    } else {
        let i = choose|i: int| 0 <= i < groups[g].1.len() && groups[g].1[i] == file;
        assert(all[before.len() + i] == (groups[g].0, file));
    }
}

/// Files of one size that agree in the hash of their beginning and then in the
/// hash of the later stage are found as one group.
pub proof fn law_equal_files_are_found(
    hashes: Map<u64, Seq<Seq<FileView>>>,
    stage: HashStage,
    size: u64,
    files: Seq<FileView>,
    beginnings: Seq<OutcomeView>,
    first_results: Seq<GroupView>,
    r: int,
    outcomes: Seq<OutcomeView>,
    results: Seq<GroupView>,
    q: int,
    beginning: Seq<char>,
    hash: Seq<char>,
    i: int,
    j: int,
)
    requires
        files.len() == beginnings.len(),
        0 <= i < files.len(),
        0 <= j < files.len(),
        files[i] != files[j],
        hashing::has_hash(beginnings[i], beginning),
        hashing::has_hash(beginnings[j], beginning),
        0 <= r < first_results.len(),
        first_results[r] == hashing::group_of(size, HashStage::Prehash, files, beginnings),
        ({
            let rest = grouping::gathered(
                hashing::all_files(hashing::all_groups(first_results)),
            )[size];
            &&& 0 <= q < results.len()
            &&& results[q] == hashing::group_of(size, stage, rest, outcomes)
            &&& rest.len() == outcomes.len()
            &&& forall|n: int|
                0 <= n < rest.len() && (rest[n] == files[i] || rest[n] == files[j])
                    ==> hashing::has_hash(#[trigger] outcomes[n], hash)
        }),
    ensures
        ({
            let found = grouping::extended(hashes, hashing::all_groups(results));
            let group = results[q].hashes[hash];
            &&& found.contains_key(size)
            &&& found[size].contains(group)
            &&& group.contains(hashing::kept_file(stage, files[i], hash))
            &&& group.contains(hashing::kept_file(stage, files[j], hash))
        }),
{
    if i < j {
        law_equal_hashes_stand_together(
            size,
            HashStage::Prehash,
            files,
            beginnings,
            beginning,
            i,
            j,
        );
    } else {
        law_equal_hashes_stand_together(
            size,
            HashStage::Prehash,
            files,
            beginnings,
            beginning,
            j,
            i,
        );
    }
    law_shared_beginnings_go_on(first_results, r, beginning, files[i]);
    law_shared_beginnings_go_on(first_results, r, beginning, files[j]);
    let rest = grouping::gathered(hashing::all_files(hashing::all_groups(first_results)))[size];
    let a = choose|n: int| 0 <= n < rest.len() && rest[n] == files[i];
    let b = choose|n: int| 0 <= n < rest.len() && rest[n] == files[j];
    assert(hashing::has_hash(outcomes[a], hash));
    assert(hashing::has_hash(outcomes[b], hash));
    if a < b {
        law_equal_hashes_stand_together(size, stage, rest, outcomes, hash, a, b);
    } else {
        law_equal_hashes_stand_together(size, stage, rest, outcomes, hash, b, a);
    }
    law_equal_hashes_are_grouped(hashes, results, q, hash);
}

/// The record about a file of a size.
pub open spec fn record_about(
    loaded: Map<u64, Seq<FileView>>,
    size: u64,
    file: FileView,
) -> Option<FileView> {
    if loaded.contains_key(size) {
        reuse::record_of(file, loaded[size])
    } else {
        None
    }
}

/// What is kept of a file of a size.
pub open spec fn kept_about(
    loaded: Map<u64, Seq<FileView>>,
    stage: HashStage,
    size: u64,
    file: FileView,
    hash: Seq<char>,
) -> FileView {
    match record_about(loaded, size, file) {
        Some(record) => record,
        None => hashing::kept_file(stage, file, hash),
    }
}

/// File `i` of the files of a size that are left has this hash: its record says
/// so, or it has none and was read.
pub open spec fn has_known_or_read_hash(
    rest: Map<u64, Seq<FileView>>,
    loaded: Map<u64, Seq<FileView>>,
    outcomes: Map<u64, Seq<OutcomeView>>,
    size: u64,
    i: int,
    hash: Seq<char>,
) -> bool {
    match record_about(loaded, size, rest[size][i]) {
        Some(record) => record.hash == hash,
        None => {
            let read = reuse::unknown_part(rest, loaded)[size];
            exists|n: int|
                0 <= n < read.len() && read[n] == rest[size][i] && #[trigger] hashing::has_hash(
                    outcomes[size][n],
                    hash,
                )
        },
    }
}

proof fn lemma_kept_is_held(
    rest: Map<u64, Seq<FileView>>,
    loaded: Map<u64, Seq<FileView>>,
    stage: HashStage,
    outcomes: Map<u64, Seq<OutcomeView>>,
    results: Seq<GroupView>,
    size: u64,
    i: int,
    hash: Seq<char>,
)
    requires
        rest.dom().finite(),
        rest.contains_key(size),
        hashing::are_readings_of(results, stage, reuse::unknown_part(rest, loaded), outcomes),
        0 <= i < rest[size].len(),
        has_known_or_read_hash(rest, loaded, outcomes, size, i, hash),
    ensures
        ({
            let after = reuse::with_all_records(
                results,
                groups::by_size(reuse::known_part(rest, loaded)),
            );
            let r = reuse::result_for(after, size, 0);
            &&& 0 <= r < after.len()
            &&& after[r].size == size
            &&& reuse::holds(after[r], hash, kept_about(loaded, stage, size, rest[size][i], hash))
        }),
{
    let known = reuse::known_part(rest, loaded);
    let unknown = reuse::unknown_part(rest, loaded);
    let gs = groups::by_size(known);
    let after = reuse::with_all_records(results, gs);
    let file = rest[size][i];
    match record_about(loaded, size, rest[size][i]) {
        Some(record) => {
            reuse::law_each_file_is_known_or_hashed(rest[size], loaded[size]);
            assert(reuse::record_of(rest[size][i], loaded[size]) == Some(record));
            let records = reuse::records_of(rest[size], loaded[size]);
            assert(records.contains(record));
            assert(known.contains_key(size));
            assert(known.dom().subset_of(rest.dom()));
            vstd::set_lib::lemma_set_subset_finite(rest.dom(), known.dom());
            grouping::lemma_keys_exist(known);
            let keys = grouping::keys_of(known);
            assert(keys.contains(size));
            let g = choose|g: int| 0 <= g < keys.len() && keys[g] == size;
            let j = choose|j: int| 0 <= j < records.len() && records[j] == record;
            assert(gs[g] == (size, records));
            reuse::law_known_hashes_join_results(results, gs, g, j);
        },
        None => {
            if loaded.contains_key(size) {
                reuse::law_each_file_is_known_or_hashed(rest[size], loaded[size]);
                assert(reuse::record_of(rest[size][i], loaded[size]) is None);
                assert(reuse::unrecorded(rest[size], loaded[size]).contains(file));
            }
            let read = unknown[size];
            let n = choose|n: int|
                0 <= n < read.len() && read[n] == file && #[trigger] hashing::has_hash(
                    outcomes[size][n],
                    hash,
                );
            assert(unknown.contains_key(size));
            assert(hashing::has_result(results, size));
            lemma_result_is_there(results, size);
            let was = reuse::result_for(results, size, 0);
            assert(hashing::is_reading_of(results[was], stage, unknown, outcomes));
            let kept = hashing::kept_file(stage, file, hash);
            let pairs = hashing::hashed_files(stage, read, outcomes[size]);
            hashing::lemma_hashed_files(stage, read, outcomes[size], hash, kept);
            grouping::lemma_items_hold(pairs, hash, kept);
            let m = choose|m: int| 0 <= m < pairs.len() && pairs[m] == (hash, kept);
            assert(pairs[m].0 == hash);
            assert(grouping::gathered(pairs)[hash] =~= grouping::items_of(pairs, hash));
            assert(reuse::holds(results[was], hash, kept));
            reuse::lemma_results_grow(results, gs);
            reuse::lemma_result_stays(results, after, size, 0);
            assert(after[was].size == results[was].size);
            assert(reuse::holds(after[was], hash, kept));
        },
    }
}

proof fn lemma_result_is_there(results: Seq<GroupView>, size: u64)
    requires
        hashing::has_result(results, size),
    ensures
        0 <= reuse::result_for(results, size, 0) < results.len(),
        results[reuse::result_for(results, size, 0)].size == size,
{
    let r = choose|r: int| 0 <= r < results.len() && (#[trigger] results[r]).size == size;
    reuse::lemma_result_for_size(results, size, 0);
    reuse::lemma_result_for_none_before(results, size, 0);
}

/// Filing records leaves the hashes of each result finite.
pub proof fn lemma_records_keep_finite(
    results: Seq<GroupView>,
    groups: Seq<(u64, Seq<FileView>)>,
)
    requires
        forall|r: int| 0 <= r < results.len() ==> (#[trigger] results[r]).hashes.dom().finite(),
    ensures
        forall|r: int|
            0 <= r < reuse::with_all_records(results, groups).len() ==> (
            #[trigger] reuse::with_all_records(results, groups)[r]).hashes.dom().finite(),
    decreases groups.len(),
{
    if groups.len() > 0 {
        let before = reuse::with_all_records(results, groups.drop_last());
        let after = reuse::with_all_records(results, groups);
        let pairs = reuse::by_own_hash(groups.last().1);
        lemma_records_keep_finite(results, groups.drop_last());
        let i = reuse::result_for(before, groups.last().0, 0);
        if 0 <= i < before.len() {
            assert(before[i].hashes.dom().finite());
            grouping::lemma_extended_finite(before[i].hashes, pairs);
        } else {
            grouping::lemma_extended_finite(Map::<Seq<char>, Seq<FileView>>::empty(), pairs);
        }
        assert forall|r: int| 0 <= r < after.len() implies (
        #[trigger] after[r]).hashes.dom().finite() by {
            if r < before.len() && r != i {
                assert(after[r] == before[r]);
            }
        }
    }
}

/// Files of one size that are left and have the same hash, whether it was known
/// or was computed now, are found as one group.
pub proof fn law_known_and_computed_hashes_are_compared(
    hashes: Map<u64, Seq<Seq<FileView>>>,
    rest: Map<u64, Seq<FileView>>,
    loaded: Map<u64, Seq<FileView>>,
    stage: HashStage,
    outcomes: Map<u64, Seq<OutcomeView>>,
    results: Seq<GroupView>,
    size: u64,
    i: int,
    j: int,
    hash: Seq<char>,
)
    requires
        rest.dom().finite(),
        rest.contains_key(size),
        hashing::are_readings_of(results, stage, reuse::unknown_part(rest, loaded), outcomes),
        0 <= i < rest[size].len(),
        0 <= j < rest[size].len(),
        has_known_or_read_hash(rest, loaded, outcomes, size, i, hash),
        has_known_or_read_hash(rest, loaded, outcomes, size, j, hash),
        kept_about(loaded, stage, size, rest[size][i], hash)
            != kept_about(loaded, stage, size, rest[size][j], hash),
    ensures
        ({
            let after = reuse::with_all_records(
                results,
                groups::by_size(reuse::known_part(rest, loaded)),
            );
            let found = grouping::extended(hashes, hashing::all_groups(after));
            let group = after[reuse::result_for(after, size, 0)].hashes[hash];
            &&& found.contains_key(size)
            &&& found[size].contains(group)
            &&& group.contains(kept_about(loaded, stage, size, rest[size][i], hash))
            &&& group.contains(kept_about(loaded, stage, size, rest[size][j], hash))
        }),
{
    let gs = groups::by_size(reuse::known_part(rest, loaded));
    let after = reuse::with_all_records(results, gs);
    let r = reuse::result_for(after, size, 0);
    let a = kept_about(loaded, stage, size, rest[size][i], hash);
    let b = kept_about(loaded, stage, size, rest[size][j], hash);
    lemma_kept_is_held(rest, loaded, stage, outcomes, results, size, i, hash);
    lemma_kept_is_held(rest, loaded, stage, outcomes, results, size, j, hash);
    let group = after[r].hashes[hash];
    let x = choose|x: int| 0 <= x < group.len() && group[x] == a;
    let y = choose|y: int| 0 <= y < group.len() && group[y] == b;
    assert(x != y);
    let unknown = reuse::unknown_part(rest, loaded);
    assert forall|q: int| 0 <= q < results.len() implies (
    #[trigger] results[q]).hashes.dom().finite() by {
        assert(hashing::is_reading_of(results[q], stage, unknown, outcomes));
        let k = results[q].size;
        grouping::lemma_extended_finite(
            Map::<Seq<char>, Seq<FileView>>::empty(),
            hashing::hashed_files(stage, unknown[k], outcomes[k]),
        );
    }
    lemma_records_keep_finite(results, gs);
    assert(after[r].hashes.dom().finite());
    law_equal_hashes_are_grouped(hashes, after, r, hash);
}

// ---------------------------------------------------------------------------
// Counting and remembering
// ---------------------------------------------------------------------------

/// The duplicated files that are counted are all files of the groups but one of
/// each.
pub proof fn law_counts_match_groups<K>(groups: Seq<(K, Seq<FileView>)>)
    ensures
        groups::extra_files(groups) + groups.len() == groups::total_files(groups),
    decreases groups.len(),
{
    if groups.len() > 0 {
        law_counts_match_groups(groups.drop_last());
    }
}

/// Of every file that was hashed or known something is remembered under its
/// path, and it is what was last learned about that path.
pub proof fn law_every_path_is_remembered(files: Seq<FileView>, i: int)
    requires
        0 <= i < files.len(),
        forall|j: int|
            i < j < files.len() ==> (#[trigger] files[j]).path.text != files[i].path.text,
    ensures
        reuse::by_path(files).contains_key(files[i].path.text),
        reuse::by_path(files)[files[i].path.text] == files[i],
    decreases files.len(),
{
    let init = files.drop_last();
    if i < init.len() {
        assert(files[files.len() - 1].path.text != files[i].path.text);
        assert forall|j: int| i < j < init.len() implies (#[trigger] init[j]).path.text
            != init[i].path.text by {
            assert(files[j].path.text != files[i].path.text);
        }
        law_every_path_is_remembered(init, i);
    }
}

} // verus!
