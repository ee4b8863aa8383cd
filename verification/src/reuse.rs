//! Using hashes that are already known from an earlier search.
use crate::finder;
use crate::grouping;
use crate::groups;
use crate::hashing;
use crate::hashing::{GroupHashes, GroupView};
use crate::listing;
use crate::model;
use crate::model::{FileEntry, FileView};
use crate::textmap;
use crate::textmap::TextMap;
use std::collections::BTreeMap;
use vstd::prelude::*;

verus! {

// ---------------------------------------------------------------------------
// Which hashes are known
// ---------------------------------------------------------------------------

/// `record` is about `file` as it is now: the path is the same, and the file has
/// not been modified since.
pub open spec fn is_record_of(record: FileView, file: FileView) -> bool {
    model::same_file(file.path, record.path) && file.modified_date == record.modified_date
}

/// The first record about `file`.
pub open spec fn record_of(file: FileView, records: Seq<FileView>) -> Option<FileView>
    decreases records.len(),
{
    if records.len() == 0 {
        None
    } else if is_record_of(records[0], file) {
        Some(records[0])
    } else {
        record_of(file, records.skip(1))
    }
}

/// The records about those of `files` that have one, in the order of the files.
pub open spec fn records_of(files: Seq<FileView>, records: Seq<FileView>) -> Seq<FileView>
    decreases files.len(),
{
    if files.len() == 0 {
        Seq::empty()
    } else {
        let before = records_of(files.drop_last(), records);
        match record_of(files.last(), records) {
            Some(record) => before.push(record),
            None => before,
        }
    }
}

/// Those of `files` that no record is about, in order.
pub open spec fn unrecorded(files: Seq<FileView>, records: Seq<FileView>) -> Seq<FileView>
    decreases files.len(),
{
    if files.len() == 0 {
        Seq::empty()
    } else {
        let before = unrecorded(files.drop_last(), records);
        match record_of(files.last(), records) {
            Some(_) => before,
            None => before.push(files.last()),
        }
    }
}

/// The records that stand for files of `files`, by size.
pub open spec fn known_part(
    files: Map<u64, Seq<FileView>>,
    loaded: Map<u64, Seq<FileView>>,
) -> Map<u64, Seq<FileView>> {
    Map::new(
        |k: u64|
            files.contains_key(k) && loaded.contains_key(k) && records_of(files[k], loaded[k]).len()
                > 0,
        |k: u64| records_of(files[k], loaded[k]),
    )
}

/// The files of `files` that no record stands for, by size.
pub open spec fn unknown_part(
    files: Map<u64, Seq<FileView>>,
    loaded: Map<u64, Seq<FileView>>,
) -> Map<u64, Seq<FileView>> {
    Map::new(
        |k: u64|
            files.contains_key(k) && (loaded.contains_key(k) ==> unrecorded(
                files[k],
                loaded[k],
            ).len() > 0),
        |k: u64|
            if loaded.contains_key(k) {
                unrecorded(files[k], loaded[k])
            } else {
                files[k]
            },
    )
}

/// What has to be hashed, and what needs not be.
pub struct HashPlan {
    /// Records whose hashes hold still, by size.
    pub cached: BTreeMap<u64, Vec<FileEntry>>,
    /// Files to hash, by size.
    pub to_hash: BTreeMap<u64, Vec<FileEntry>>,
}

proof fn lemma_skip_one(s: Seq<FileView>, i: int)
    requires
        0 <= i < s.len(),
    ensures
        s.skip(i)[0] == s[i],
        s.skip(i).skip(1) == s.skip(i + 1),
{
    assert(s.skip(i).skip(1) =~= s.skip(i + 1));
}

/// The place of the first record about `file`.
fn find_record(file: &FileEntry, records: &Vec<FileEntry>) -> (r: Option<usize>)
    ensures
        match r {
            Some(i) => i < records@.len() && record_of(file@, records.deep_view()) == Some(
                records@[i as int]@,
            ),
            None => record_of(file@, records.deep_view()) is None,
        },
{
    let ghost rv = records.deep_view();
    let mut i: usize = 0;
    assert(rv.skip(0) =~= rv);
    while i < records.len()
        invariant
            i <= records.len(),
            rv == records.deep_view(),
            record_of(file@, rv) == record_of(file@, rv.skip(i as int)),
        decreases records.len() - i,
    {
        proof {
            lemma_skip_one(rv, i as int);
        }
        if file.path.same_as(&records[i].path) && file.modified_date == records[i].modified_date {
            return Some(i);
        }
        i += 1;
    }
    None
}

/// Parts files of one size into those that a record stands for, and the others.
fn part_files(files: &Vec<FileEntry>, records: &Vec<FileEntry>) -> (r: (
    Vec<FileEntry>,
    Vec<FileEntry>,
))
    ensures
        r.0.deep_view() == records_of(files.deep_view(), records.deep_view()),
        r.1.deep_view() == unrecorded(files.deep_view(), records.deep_view()),
{
    let ghost fv = files.deep_view();
    let ghost rv = records.deep_view();
    let mut known: Vec<FileEntry> = Vec::new();
    let mut unknown: Vec<FileEntry> = Vec::new();
    let mut i: usize = 0;
    proof {
        assert(fv.take(0) =~= Seq::empty());
        assert(known.deep_view() =~= Seq::empty());
        assert(unknown.deep_view() =~= Seq::empty());
    }
    while i < files.len()
        invariant
            i <= files.len(),
            fv == files.deep_view(),
            rv == records.deep_view(),
            known.deep_view() == records_of(fv.take(i as int), rv),
            unknown.deep_view() == unrecorded(fv.take(i as int), rv),
        decreases files.len() - i,
    {
        let ghost known_before = known.deep_view();
        let ghost unknown_before = unknown.deep_view();
        match find_record(&files[i], records) {
            Some(j) => {
                known.push(records[j].clone());
                assert(known.deep_view() =~= known_before.push(records@[j as int]@));
            },
            None => {
                unknown.push(files[i].clone());
                assert(unknown.deep_view() =~= unknown_before.push(files@[i as int]@));
            },
        }
        i += 1;
        proof {
            assert(fv.take(i as int).drop_last() =~= fv.take(i - 1));
            assert(fv.take(i as int).last() == files@[i - 1]@);
        }
    }
    assert(fv.take(files@.len() as int) =~= fv);
    (known, unknown)
}

/// A record that is used was among those known, and is about one of the files.
proof fn lemma_records_of(files: Seq<FileView>, records: Seq<FileView>, i: int)
    requires
        0 <= i < records_of(files, records).len(),
    ensures
        records.contains(records_of(files, records)[i]),
        exists|j: int|
            0 <= j < files.len() && record_of(#[trigger] files[j], records) == Some(
                records_of(files, records)[i],
            ) && is_record_of(records_of(files, records)[i], files[j]),
    decreases files.len(),
{
    if files.len() > 0 {
        let init = files.drop_last();
        let before = records_of(init, records);
        let record = records_of(files, records)[i];
        if i < before.len() {
            lemma_records_of(init, records, i);
            assert(before[i] == record);
            let j = choose|j: int|
                0 <= j < init.len() && record_of(#[trigger] init[j], records) == Some(record)
                    && is_record_of(record, init[j]);
            assert(files[j] == init[j]);
        } else {
            lemma_record_of(files.last(), records);
            assert(files[files.len() - 1] == files.last());
        }
    }
}

/// The first record about a file is one of the records, and is about it.
pub proof fn lemma_record_of(file: FileView, records: Seq<FileView>)
    requires
        record_of(file, records) is Some,
    ensures
        records.contains(record_of(file, records)->0),
        is_record_of(record_of(file, records)->0, file),
    decreases records.len(),
{
    if is_record_of(records[0], file) {
    } else {
        lemma_record_of(file, records.skip(1));
        let record = record_of(file, records)->0;
        let i = choose|i: int| 0 <= i < records.skip(1).len() && records.skip(1)[i] == record;
        assert(records[i + 1] == record);
    }
}

/// A file that has to be hashed is one of the files, and no record is about it.
proof fn lemma_unrecorded(files: Seq<FileView>, records: Seq<FileView>, i: int)
    requires
        0 <= i < unrecorded(files, records).len(),
    ensures
        files.contains(unrecorded(files, records)[i]),
        record_of(unrecorded(files, records)[i], records) is None,
    decreases files.len(),
{
    if files.len() > 0 {
        let init = files.drop_last();
        let before = unrecorded(init, records);
        let file = unrecorded(files, records)[i];
        if i < before.len() {
            lemma_unrecorded(init, records, i);
            assert(before[i] == file);
            let j = choose|j: int| 0 <= j < init.len() && init[j] == file;
            assert(files[j] == file);
        } else {
            assert(files[files.len() - 1] == file);
        }
    }
}

proof fn lemma_parts_stay_filed(files: Map<u64, Seq<FileView>>, loaded: Map<u64, Seq<FileView>>)
    requires
        finder::filed_by_size(files),
    ensures
        finder::filed_by_size(unknown_part(files, loaded)),
        finder::filed_by_size(loaded) ==> finder::filed_by_size(known_part(files, loaded)),
{
    let unknown = unknown_part(files, loaded);
    assert forall|k: u64, i: int| unknown.contains_key(k) && 0 <= i < unknown[k].len() implies (
    #[trigger] unknown[k][i]).size == k by {
        if loaded.contains_key(k) {
            lemma_unrecorded(files[k], loaded[k], i);
            let j = choose|j: int| 0 <= j < files[k].len() && files[k][j] == unknown[k][i];
            assert(files[k][j].size == k);
        } else {
            assert(files[k][i].size == k);
        }
    }
    if finder::filed_by_size(loaded) {
        let known = known_part(files, loaded);
        assert forall|k: u64, i: int| known.contains_key(k) && 0 <= i < known[k].len() implies (
        #[trigger] known[k][i]).size == k by {
            lemma_records_of(files[k], loaded[k], i);
            let j = choose|j: int| 0 <= j < loaded[k].len() && loaded[k][j] == known[k][i];
            assert(loaded[k][j].size == k);
        }
    }
}

/// Every file either has a record that is used or is hashed, and none does both:
/// a record that is used is one that was known and is about the file as it is
/// now, and a file that is hashed has no such record.
pub proof fn law_each_file_is_known_or_hashed(files: Seq<FileView>, records: Seq<FileView>)
    ensures
        records_of(files, records).len() + unrecorded(files, records).len() == files.len(),
        forall|i: int|
            0 <= i < files.len() ==> match record_of(#[trigger] files[i], records) {
                Some(record) => records_of(files, records).contains(record),
                None => unrecorded(files, records).contains(files[i]),
            },
        forall|i: int|
            0 <= i < records_of(files, records).len() ==> {
                let record = #[trigger] records_of(files, records)[i];
                &&& records.contains(record)
                &&& exists|j: int|
                    0 <= j < files.len() && record_of(#[trigger] files[j], records) == Some(record)
                        && is_record_of(record, files[j])
            },
        forall|i: int|
            0 <= i < unrecorded(files, records).len() ==> {
                let file = #[trigger] unrecorded(files, records)[i];
                files.contains(file) && record_of(file, records) is None
            },
    decreases files.len(),
{
    let known = records_of(files, records);
    let unknown = unrecorded(files, records);
    assert forall|i: int| 0 <= i < known.len() implies {
        let record = #[trigger] known[i];
        &&& records.contains(record)
        &&& exists|j: int|
            0 <= j < files.len() && record_of(#[trigger] files[j], records) == Some(record)
                && is_record_of(record, files[j])
    } by {
        lemma_records_of(files, records, i);
    }
    assert forall|i: int| 0 <= i < unknown.len() implies {
        let file = #[trigger] unknown[i];
        files.contains(file) && record_of(file, records) is None
    } by {
        lemma_unrecorded(files, records, i);
    }
    if files.len() > 0 {
        let init = files.drop_last();
        law_each_file_is_known_or_hashed(init, records);
        let known_before = records_of(init, records);
        let unknown_before = unrecorded(init, records);
        assert forall|i: int| 0 <= i < files.len() implies match record_of(
            #[trigger] files[i],
            records,
        ) {
            Some(record) => known.contains(record),
            None => unknown.contains(files[i]),
        } by {
            if i < init.len() {
                assert(init[i] == files[i]);
                match record_of(files[i], records) {
                    Some(record) => {
                        let j = choose|j: int|
                            0 <= j < known_before.len() && known_before[j] == record;
                        assert(known[j] == record);
                    },
                    None => {
                        let j = choose|j: int|
                            0 <= j < unknown_before.len() && unknown_before[j] == files[i];
                        assert(unknown[j] == files[i]);
                    },
                }
            } else {
                match record_of(files[i], records) {
                    Some(record) => {
                        assert(known[known.len() - 1] == record);
                    },
                    None => {
                        assert(unknown[unknown.len() - 1] == files[i]);
                    },
                }
            }
        }
    }
}

/// Parts the files that are to be compared by their hashes into those whose hash
/// is known from `loaded`, and those that have to be read.
pub fn plan_hashing(
    files: &BTreeMap<u64, Vec<FileEntry>>,
    loaded: &BTreeMap<u64, Vec<FileEntry>>,
) -> (r: HashPlan)
    requires
        finder::filed_by_size(grouping::contents(files@)),
    ensures
        grouping::contents(r.cached@) == known_part(
            grouping::contents(files@),
            grouping::contents(loaded@),
        ),
        grouping::contents(r.to_hash@) == unknown_part(
            grouping::contents(files@),
            grouping::contents(loaded@),
        ),
        finder::filed_by_size(grouping::contents(r.to_hash@)),
        finder::filed_by_size(grouping::contents(loaded@)) ==> finder::filed_by_size(
            grouping::contents(r.cached@),
        ),
{
    let ghost fv = grouping::contents(files@);
    let ghost lv = grouping::contents(loaded@);
    let keys: Vec<u64> = grouping::keys_in_order(files);
    let mut cached: BTreeMap<u64, Vec<FileEntry>> = BTreeMap::new();
    let mut to_hash: BTreeMap<u64, Vec<FileEntry>> = BTreeMap::new();
    let mut i: usize = 0;
    proof {
        assert(grouping::contents(cached@) =~= groups::part_under(
            known_part(fv, lv),
            keys@.take(0),
        ));
        assert(grouping::contents(to_hash@) =~= groups::part_under(
            unknown_part(fv, lv),
            keys@.take(0),
        ));
    }
    while i < keys.len()
        invariant
            i <= keys.len(),
            fv == grouping::contents(files@),
            lv == grouping::contents(loaded@),
            grouping::lists_keys(keys@, files@),
            grouping::contents(cached@) == groups::part_under(
                known_part(fv, lv),
                keys@.take(i as int),
            ),
            grouping::contents(to_hash@) == groups::part_under(
                unknown_part(fv, lv),
                keys@.take(i as int),
            ),
        decreases keys.len() - i,
    {
        let k: u64 = keys[i];
        let ghost cached_before = grouping::contents(cached@);
        let ghost to_hash_before = grouping::contents(to_hash@);
        proof {
            assert(keys@.contains(k));
            groups::lemma_part_next(known_part(fv, lv), keys@, i as int);
            groups::lemma_part_next(unknown_part(fv, lv), keys@, i as int);
        }
        if let Some(list) = files.get(&k) {
            assert(list.deep_view() == fv[k]);
            match loaded.get(&k) {
                None => {
                    let all: Vec<FileEntry> = model::clone_files(list);
                    assert(all.deep_view() =~= fv[k]);
                    to_hash.insert(k, all);
                    assert(grouping::contents(to_hash@) =~= to_hash_before.insert(k, fv[k]));
                },
                Some(records) => {
                    let (known, unknown): (Vec<FileEntry>, Vec<FileEntry>) = part_files(
                        list,
                        records,
                    );
                    assert(known@.len() == known.deep_view().len());
                    assert(unknown@.len() == unknown.deep_view().len());
                    if known.len() > 0 {
                        cached.insert(k, known);
                        assert(grouping::contents(cached@) =~= cached_before.insert(
                            k,
                            known.deep_view(),
                        ));
                    }
                    if unknown.len() > 0 {
                        to_hash.insert(k, unknown);
                        assert(grouping::contents(to_hash@) =~= to_hash_before.insert(
                            k,
                            unknown.deep_view(),
                        ));
                    }
                },
            }
        }
        i += 1;
    }
    proof {
        assert(keys@.take(keys@.len() as int) =~= keys@);
        assert forall|k: u64| #[trigger] fv.contains_key(k) implies keys@.contains(k) by {
            assert(files@.contains_key(k));
        }
        assert(grouping::contents(cached@) =~= known_part(fv, lv));
        assert(grouping::contents(to_hash@) =~= unknown_part(fv, lv));
        lemma_parts_stay_filed(fv, lv);
    }
    HashPlan { cached, to_hash }
}

// ---------------------------------------------------------------------------
// Known hashes among the results
// ---------------------------------------------------------------------------

/// Some records, each beside its hash.
pub open spec fn by_own_hash(records: Seq<FileView>) -> Seq<(Seq<char>, FileView)> {
    records.map_values(|f: FileView| (f.hash, f))
}

/// The first result at or after `i` for files of `size`; the length if there is none.
pub open spec fn result_for(results: Seq<GroupView>, size: u64, i: int) -> int
    decreases results.len() - i,
{
    if i >= results.len() {
        results.len() as int
    } else if results[i].size == size {
        i
    } else {
        result_for(results, size, i + 1)
    }
}

/// The results after the records of one size were filed under their hashes, in the
/// result for that size or in a new one.
pub open spec fn with_records(
    results: Seq<GroupView>,
    size: u64,
    records: Seq<FileView>,
) -> Seq<GroupView> {
    let i = result_for(results, size, 0);
    if 0 <= i < results.len() {
        results.update(
            i,
            GroupView {
                hashes: grouping::extended(results[i].hashes, by_own_hash(records)),
                ..results[i]
            },
        )
    } else {
        results.push(
            GroupView {
                size,
                hashes: grouping::gathered(by_own_hash(records)),
                errors: Seq::empty(),
                bytes_read: 0,
            },
        )
    }
}

/// The results after the records under some sizes were filed, size by size.
pub open spec fn with_all_records(
    results: Seq<GroupView>,
    groups: Seq<(u64, Seq<FileView>)>,
) -> Seq<GroupView>
    decreases groups.len(),
{
    if groups.len() == 0 {
        results
    } else {
        with_records(
            with_all_records(results, groups.drop_last()),
            groups.last().0,
            groups.last().1,
        )
    }
}

/// Files records under their hashes.
fn file_records(by_hash: &mut TextMap<Vec<FileEntry>>, records: &Vec<FileEntry>)
    ensures
        grouping::contents(final(by_hash)@) == grouping::extended(
            grouping::contents(old(by_hash)@),
            by_own_hash(records.deep_view()),
        ),
{
    let ghost rv = records.deep_view();
    let ghost start = grouping::contents(by_hash@);
    let mut i: usize = 0;
    proof {
        assert(by_own_hash(rv.take(0)) =~= Seq::empty());
        grouping::lemma_extended_by_nothing(start);
    }
    while i < records.len()
        invariant
            i <= records.len(),
            rv == records.deep_view(),
            grouping::contents(by_hash@) == grouping::extended(
                start,
                by_own_hash(rv.take(i as int)),
            ),
        decreases records.len() - i,
    {
        let record: &FileEntry = &records[i];
        by_hash.add_item(record.hash.as_str(), record.clone());
        i += 1;
        proof {
            let pairs = by_own_hash(rv.take(i - 1));
            grouping::lemma_extended_by_one(start, pairs, (record@.hash, record@));
            assert(by_own_hash(rv.take(i as int)) =~= pairs.push((record@.hash, record@)));
        }
    }
    assert(rv.take(records@.len() as int) =~= rv);
}

proof fn lemma_result_for(results: Seq<GroupView>, size: u64, i: int, n: int)
    requires
        0 <= i <= n <= results.len(),
        forall|j: int| i <= j < n ==> (#[trigger] results[j]).size != size,
    ensures
        result_for(results, size, i) == result_for(results, size, n),
    decreases n - i,
{
    if i < n {
        assert(results[i].size != size);
        lemma_result_for(results, size, i + 1, n);
    }
}

/// Files the records of one size under their hashes.
fn add_records(results: &mut Vec<GroupHashes>, size: u64, records: &Vec<FileEntry>)
    ensures
        final(results).deep_view() == with_records(
            old(results).deep_view(),
            size,
            records.deep_view(),
        ),
{
    let ghost rv = results.deep_view();
    let mut i: usize = 0;
    while i < results.len() && results[i].size != size
        invariant
            i <= results.len(),
            rv == results.deep_view(),
            *results == *old(results),
            forall|j: int| 0 <= j < i ==> (#[trigger] rv[j]).size != size,
        decreases results.len() - i,
    {
        i += 1;
    }
    proof {
        lemma_result_for(rv, size, 0, i as int);
    }
    if i < results.len() {
        assert(rv[i as int] == results@[i as int]@);
        file_records(&mut results[i].by_hash, records);
        assert(results.deep_view() =~= with_records(rv, size, records.deep_view()));
    } else {
        let mut by_hash: TextMap<Vec<FileEntry>> = TextMap::new();
        assert(grouping::contents(by_hash@) =~= Map::<Seq<char>, Seq<FileView>>::empty());
        file_records(&mut by_hash, records);
        let errors: Vec<String> = Vec::new();
        assert(errors.deep_view() =~= Seq::empty());
        results.push(GroupHashes { size, by_hash, errors, bytes_read: 0 });
        assert(results.deep_view() =~= with_records(rv, size, records.deep_view()));
    }
}

/// The result for a size is for that size.
pub proof fn lemma_result_for_size(results: Seq<GroupView>, size: u64, i: int)
    requires
        0 <= i <= results.len(),
    ensures
        i <= result_for(results, size, i) <= results.len(),
        result_for(results, size, i) < results.len() ==> results[result_for(
            results,
            size,
            i,
        )].size == size,
    decreases results.len() - i,
{
    if i < results.len() && results[i].size != size {
        lemma_result_for_size(results, size, i + 1);
    }
}

/// No result before the one for a size is for that size.
pub proof fn lemma_result_for_none_before(results: Seq<GroupView>, size: u64, i: int)
    requires
        0 <= i <= results.len(),
    ensures
        forall|j: int| i <= j < result_for(results, size, i) ==> (#[trigger] results[j]).size
            != size,
    decreases results.len() - i,
{
    if i < results.len() && results[i].size != size {
        lemma_result_for_none_before(results, size, i + 1);
    }
}

proof fn lemma_records_stay_filed(results: Seq<GroupView>, size: u64, records: Seq<FileView>)
    requires
        hashing::all_filed(results),
        forall|i: int| 0 <= i < records.len() ==> (#[trigger] records[i]).size == size,
    ensures
        hashing::all_filed(with_records(results, size, records)),
{
    let i = result_for(results, size, 0);
    let pairs = by_own_hash(records);
    let p = |h: Seq<char>, f: FileView| f.size == size;
    lemma_result_for_size(results, size, 0);
    assert forall|j: int| 0 <= j < pairs.len() implies p((#[trigger] pairs[j]).0, pairs[j].1) by {
        assert(records[j].size == size);
    }
    let start = if i < results.len() {
        results[i].hashes
    } else {
        Map::<Seq<char>, Seq<FileView>>::empty()
    };
    assert forall|h: Seq<char>, n: int| start.contains_key(h) && 0 <= n < start[h].len() implies p(
        h,
        #[trigger] start[h][n],
    ) by {
        assert(hashing::is_filed(results[i]));
        assert(results[i].hashes[h][n].size == size);
    }
    grouping::lemma_extended_each(start, pairs, p);
    let after = with_records(results, size, records);
    assert forall|j: int| 0 <= j < after.len() implies hashing::is_filed(#[trigger] after[j]) by {
        if j == i {
            assert forall|h: Seq<char>, n: int|
                after[j].hashes.contains_key(h) && 0 <= n < after[j].hashes[h].len() implies (
            #[trigger] after[j].hashes[h][n]).size == after[j].size by {
                assert(p(h, grouping::extended(start, pairs)[h][n]));
            }
        } else {
            assert(hashing::is_filed(results[j]));
        }
    }
}

/// Files the records whose hashes are known among the results, size by size.
pub fn merge_cached(results: &mut Vec<GroupHashes>, cached: &BTreeMap<u64, Vec<FileEntry>>)
    ensures
        final(results).deep_view() == with_all_records(
            old(results).deep_view(),
            groups::by_size(grouping::contents(cached@)),
        ),
        hashing::all_filed(old(results).deep_view()) && finder::filed_by_size(
            grouping::contents(cached@),
        ) ==> hashing::all_filed(final(results).deep_view()),
{
    let list: Vec<(u64, &Vec<FileEntry>)> = listing::list_by_size(cached);
    let ghost lv = listing::sized_list(list@);
    let ghost c = grouping::contents(cached@);
    let ghost start = results.deep_view();
    let mut i: usize = 0;
    assert(lv.take(0) =~= Seq::empty());
    while i < list.len()
        invariant
            i <= list.len(),
            lv == listing::sized_list(list@),
            results.deep_view() == with_all_records(start, lv.take(i as int)),
            lv == groups::by_size(c),
            c == grouping::contents(cached@),
            grouping::lists_keys(grouping::keys_of(c), c),
            hashing::all_filed(start) && finder::filed_by_size(c) ==> hashing::all_filed(
                results.deep_view(),
            ),
        decreases list.len() - i,
    {
        let ghost so_far = results.deep_view();
        add_records(results, list[i].0, list[i].1);
        i += 1;
        proof {
            if hashing::all_filed(start) && finder::filed_by_size(c) {
                let k = lv[i - 1].0;
                assert(groups::by_size(c).len() == grouping::keys_of(c).len());
                assert(groups::by_size(c)[i - 1] == (
                    grouping::keys_of(c)[i - 1],
                    c[grouping::keys_of(c)[i - 1]],
                ));
                assert(grouping::keys_of(c).contains(grouping::keys_of(c)[i - 1]));
                assert(lv[i - 1] == (k, c[k]));
                assert forall|n: int| 0 <= n < c[k].len() implies (#[trigger] c[k][n]).size
                    == k by {}
                lemma_records_stay_filed(so_far, k, c[k]);
            }
            assert(lv.take(i as int).drop_last() =~= lv.take(i - 1));
            assert(lv.take(i as int).last() == lv[i - 1]);
        }
    }
    assert(lv.take(list@.len() as int) =~= lv);
}

/// The result has this file under this hash.
pub open spec fn holds(result: GroupView, hash: Seq<char>, file: FileView) -> bool {
    result.hashes.contains_key(hash) && result.hashes[hash].contains(file)
}

/// Each of `a` is still there in `b`, for the same size and with all its files.
pub open spec fn have_grown(a: Seq<GroupView>, b: Seq<GroupView>) -> bool {
    &&& a.len() <= b.len()
    &&& forall|r: int| 0 <= r < a.len() ==> (#[trigger] b[r]).size == a[r].size
    &&& forall|r: int, h: Seq<char>, f: FileView|
        0 <= r < a.len() && holds(a[r], h, f) ==> #[trigger] holds(b[r], h, f)
}

/// Records that are filed among the results stand under their hashes, in the
/// result for their size, and what was there stays.
proof fn lemma_records_are_filed(results: Seq<GroupView>, size: u64, records: Seq<FileView>)
    ensures
        ({
            let after = with_records(results, size, records);
            let i = result_for(results, size, 0);
            &&& have_grown(results, after)
            &&& 0 <= i < after.len()
            &&& result_for(after, size, 0) == i
            &&& after[i].size == size
            &&& forall|j: int|
                0 <= j < records.len() ==> holds(after[i], (#[trigger] records[j]).hash, records[j])
        }),
{
    let after = with_records(results, size, records);
    let i = result_for(results, size, 0);
    let pairs = by_own_hash(records);
    lemma_result_for_size(results, size, 0);
    lemma_result_for_none_before(results, size, 0);
    assert forall|j: int| 0 <= j < i implies (#[trigger] after[j]).size != size by {
        assert(results[j].size != size);
    }
    lemma_result_for(after, size, 0, i);
    let start = if i < results.len() {
        results[i].hashes
    } else {
        Map::<Seq<char>, Seq<FileView>>::empty()
    };
    assert(after[i].hashes == grouping::extended(start, pairs));
    assert forall|j: int| 0 <= j < records.len() implies holds(
        after[i],
        (#[trigger] records[j]).hash,
        records[j],
    ) by {
        let h = records[j].hash;
        assert(pairs[j] == (h, records[j]));
        assert(pairs[j].0 == h);
        grouping::lemma_items_hold(pairs, h, records[j]);
        assert(pairs.contains((h, records[j])));
        let first = grouping::listed(start, h);
        let items = grouping::items_of(pairs, h);
        let n = choose|n: int| 0 <= n < items.len() && items[n] == records[j];
        assert((first + items)[first.len() + n] == records[j]);
    }
    assert forall|r: int, h: Seq<char>, f: FileView|
        0 <= r < results.len() && holds(results[r], h, f) implies #[trigger] holds(
        after[r],
        h,
        f,
    ) by {
        if r == i {
            let first = start[h];
            let n = choose|n: int| 0 <= n < first.len() && first[n] == f;
            assert((first + grouping::items_of(pairs, h))[n] == f);
        }
    }
}

/// The result for a size stays where it is while the results grow.
pub proof fn lemma_result_stays(a: Seq<GroupView>, b: Seq<GroupView>, size: u64, i: int)
    requires
        have_grown(a, b),
        0 <= i <= a.len(),
        result_for(a, size, i) < a.len(),
    ensures
        result_for(b, size, i) == result_for(a, size, i),
    decreases a.len() - i,
{
    if i < a.len() {
        assert(b[i].size == a[i].size);
        if a[i].size != size {
            lemma_result_stays(a, b, size, i + 1);
        }
    }
}

proof fn lemma_growth_adds_up(a: Seq<GroupView>, b: Seq<GroupView>, c: Seq<GroupView>)
    requires
        have_grown(a, b),
        have_grown(b, c),
    ensures
        have_grown(a, c),
{
    assert forall|r: int| 0 <= r < a.len() implies (#[trigger] c[r]).size == a[r].size by {
        assert(b[r].size == a[r].size);
    }
    assert forall|r: int, h: Seq<char>, f: FileView|
        0 <= r < a.len() && holds(a[r], h, f) implies #[trigger] holds(c[r], h, f) by {
        assert(holds(b[r], h, f));
    }
}

/// Filing records leaves what was there.
pub proof fn lemma_results_grow(results: Seq<GroupView>, groups: Seq<(u64, Seq<FileView>)>)
    ensures
        have_grown(results, with_all_records(results, groups)),
    decreases groups.len(),
{
    if groups.len() > 0 {
        let before = with_all_records(results, groups.drop_last());
        lemma_results_grow(results, groups.drop_last());
        lemma_records_are_filed(before, groups.last().0, groups.last().1);
        lemma_growth_adds_up(results, before, with_all_records(results, groups));
    }
}

/// A hash that was known stands beside those that were computed: the record is
/// in the first result for its size, under its hash, and if there was a result
/// for that size before it is that one, with all that it held.
pub proof fn law_known_hashes_join_results(
    results: Seq<GroupView>,
    groups: Seq<(u64, Seq<FileView>)>,
    g: int,
    j: int,
)
    requires
        0 <= g < groups.len(),
        0 <= j < groups[g].1.len(),
    ensures
        have_grown(results, with_all_records(results, groups)),
        ({
            let after = with_all_records(results, groups);
            let size = groups[g].0;
            let record = groups[g].1[j];
            let was = result_for(results, size, 0);
            let r = result_for(after, size, 0);
            &&& 0 <= r < after.len()
            &&& after[r].size == size
            &&& holds(after[r], record.hash, record)
            &&& was < results.len() ==> r == was
        }),
    decreases groups.len(),
{
    let init = groups.drop_last();
    let last = groups.last();
    let before = with_all_records(results, init);
    let after = with_all_records(results, groups);
    let size = groups[g].0;
    let record = groups[g].1[j];
    let was = result_for(results, size, 0);
    lemma_results_grow(results, groups);
    lemma_results_grow(results, init);
    lemma_records_are_filed(before, last.0, last.1);
    if was < results.len() {
        lemma_result_stays(results, after, size, 0);
    }
    if g < init.len() {
        assert(init[g] == groups[g]);
        law_known_hashes_join_results(results, init, g, j);
        lemma_result_stays(before, after, size, 0);
        let r = result_for(before, size, 0);
        assert(after[r].size == size);
        assert(holds(after[r], record.hash, record));
    } else {
        assert(holds(after[result_for(before, size, 0)], last.1[j].hash, last.1[j]));
    }
}

// ---------------------------------------------------------------------------
// What is remembered
// ---------------------------------------------------------------------------

/// The files of some groups.
pub open spec fn files_in<K>(groups: Seq<(K, Seq<FileView>)>) -> Seq<FileView>
    decreases groups.len(),
{
    if groups.len() == 0 {
        Seq::empty()
    } else {
        files_in(groups.drop_last()) + groups.last().1
    }
}

/// The files of some results.
pub open spec fn result_files(results: Seq<GroupView>) -> Seq<FileView>
    decreases results.len(),
{
    if results.len() == 0 {
        Seq::empty()
    } else {
        result_files(results.drop_last()) + files_in(groups::by_name(results.last().hashes))
    }
}

/// For each path the last of `files` that has it.
pub open spec fn by_path(files: Seq<FileView>) -> Map<Seq<char>, FileView>
    decreases files.len(),
{
    if files.len() == 0 {
        Map::empty()
    } else {
        by_path(files.drop_last()).insert(files.last().path.text, files.last())
    }
}

/// What a map from texts to files is.
pub open spec fn remembered(m: Map<Seq<char>, FileEntry>) -> Map<Seq<char>, FileView> {
    m.map_values(|f: FileEntry| f@)
}

/// Remembers some files, behind what was remembered.
fn remember_files(m: &mut TextMap<FileEntry>, Ghost(before): Ghost<Seq<FileView>>, files: &Vec<
    FileEntry,
>)
    requires
        remembered(old(m)@) == by_path(before),
    ensures
        remembered(final(m)@) == by_path(before + files.deep_view()),
{
    let ghost fv = files.deep_view();
    let mut i: usize = 0;
    assert(before + fv.take(0) =~= before);
    while i < files.len()
        invariant
            i <= files.len(),
            fv == files.deep_view(),
            remembered(m@) == by_path(before + fv.take(i as int)),
        decreases files.len() - i,
    {
        let file: &FileEntry = &files[i];
        let ghost was = m@;
        m.insert(file.path.text.clone(), file.clone());
        i += 1;
        proof {
            assert(remembered(m@) =~= remembered(was).insert(file@.path.text, file@));
            let now = before + fv.take(i as int);
            assert(now.drop_last() =~= before + fv.take(i - 1));
            assert(now.last() == file@);
        }
    }
    assert(fv.take(files@.len() as int) =~= fv);
}

/// What is remembered for the next search: every record that was known before,
/// and every file with a hash; of two about one path the later.
pub fn collect_records(
    loaded: &BTreeMap<u64, Vec<FileEntry>>,
    results: &Vec<GroupHashes>,
) -> (r: TextMap<FileEntry>)
    ensures
        remembered(r@) == by_path(
            files_in(groups::by_size(grouping::contents(loaded@))) + result_files(
                results.deep_view(),
            ),
        ),
{
    let mut r: TextMap<FileEntry> = TextMap::new();
    assert(remembered(r@) =~= Map::<Seq<char>, FileView>::empty());
    let list: Vec<(u64, &Vec<FileEntry>)> = listing::list_by_size(loaded);
    let ghost lv = listing::sized_list(list@);
    let mut i: usize = 0;
    assert(lv.take(0) =~= Seq::empty());
    while i < list.len()
        invariant
            i <= list.len(),
            lv == listing::sized_list(list@),
            remembered(r@) == by_path(files_in(lv.take(i as int))),
        decreases list.len() - i,
    {
        remember_files(&mut r, Ghost(files_in(lv.take(i as int))), list[i].1);
        i += 1;
        proof {
            assert(lv.take(i as int).drop_last() =~= lv.take(i - 1));
            assert(lv.take(i as int).last() == lv[i - 1]);
        }
    }
    assert(lv.take(list@.len() as int) =~= lv);
    let ghost first = files_in(lv);
    let ghost rv = results.deep_view();
    let mut n: usize = 0;
    proof {
        assert(rv.take(0) =~= Seq::empty());
        assert(first + result_files(rv.take(0)) =~= first);
    }
    while n < results.len()
        invariant
            n <= results.len(),
            rv == results.deep_view(),
            remembered(r@) == by_path(first + result_files(rv.take(n as int))),
        decreases results.len() - n,
    {
        let named: Vec<(&String, &Vec<FileEntry>)> = listing::list_by_name(&results[n].by_hash);
        let ghost nv = listing::named_list(named@);
        let ghost before = first + result_files(rv.take(n as int));
        let mut j: usize = 0;
        proof {
            assert(nv.take(0) =~= Seq::empty());
            assert(before + files_in(nv.take(0)) =~= before);
        }
        while j < named.len()
            invariant
                j <= named.len(),
                nv == listing::named_list(named@),
                remembered(r@) == by_path(before + files_in(nv.take(j as int))),
            decreases named.len() - j,
        {
            remember_files(&mut r, Ghost(before + files_in(nv.take(j as int))), named[j].1);
            j += 1;
            proof {
                assert(nv.take(j as int).drop_last() =~= nv.take(j - 1));
                assert(nv.take(j as int).last() == nv[j - 1]);
                assert(before + files_in(nv.take(j - 1)) + nv[j - 1].1 =~= before + files_in(
                    nv.take(j as int),
                ));
            }
        }
        n += 1;
        proof {
            assert(nv.take(named@.len() as int) =~= nv);
            assert(rv.take(n as int).drop_last() =~= rv.take(n - 1));
            assert(rv.take(n as int).last() == rv[n - 1]);
            assert(before + files_in(nv) =~= first + result_files(rv.take(n as int)));
        }
    }
    assert(rv.take(results@.len() as int) =~= rv);
    r
}

// ---------------------------------------------------------------------------
// Laws
// ---------------------------------------------------------------------------

/// The record that is used for a file is the first one with the path of the file and
/// with the date at which the file was modified last; there is none if no record has
/// both.
pub proof fn law_record_has_path_and_date(file: FileView, records: Seq<FileView>)
    ensures
        match record_of(file, records) {
            Some(record) => exists|n: int|
                {
                    &&& 0 <= n < records.len()
                    &&& #[trigger] records[n] == record
                    &&& model::same_file(file.path, record.path)
                    &&& file.modified_date == record.modified_date
                    &&& forall|m: int|
                        0 <= m < n ==> !(model::same_file(file.path, (#[trigger] records[m]).path)
                            && file.modified_date == records[m].modified_date)
                },
            None => forall|m: int|
                0 <= m < records.len() ==> !(model::same_file(
                    file.path,
                    (#[trigger] records[m]).path,
                ) && file.modified_date == records[m].modified_date),
        },
    decreases records.len(),
{
    if records.len() > 0 {
        let rest = records.skip(1);
        if model::same_file(file.path, records[0].path) && file.modified_date
            == records[0].modified_date {
            assert(records[0] == record_of(file, records)->0);
        } else {
            law_record_has_path_and_date(file, rest);
            match record_of(file, rest) {
                Some(record) => {
                    let n = choose|n: int|
                        {
                            &&& 0 <= n < rest.len()
                            &&& #[trigger] rest[n] == record
                            &&& forall|m: int|
                                0 <= m < n ==> !(model::same_file(
                                    file.path,
                                    (#[trigger] rest[m]).path,
                                ) && file.modified_date == rest[m].modified_date)
                        };
                    assert(records[n + 1] == record);
                    assert forall|m: int| 0 <= m < n + 1 implies !(model::same_file(
                        file.path,
                        (#[trigger] records[m]).path,
                    ) && file.modified_date == records[m].modified_date) by {
                        if m > 0 {
                            assert(rest[m - 1] == records[m]);
                        }
                    }
                },
                None => {
                    assert forall|m: int| 0 <= m < records.len() implies !(model::same_file(
                        file.path,
                        (#[trigger] records[m]).path,
                    ) && file.modified_date == records[m].modified_date) by {
                        if m > 0 {
                            assert(rest[m - 1] == records[m]);
                        }
                    }
                },
            }
        }
    }
}

/// Of the files of one size, those are read again that no record has the path and the
/// date of, in their order; for each of the others its record is used, in the order of
/// the files.
pub proof fn law_changed_files_are_read_again(files: Seq<FileView>, records: Seq<FileView>)
    ensures
        unrecorded(files, records) == files.filter(
            |f: FileView|
                forall|n: int|
                    0 <= n < records.len() ==> !(model::same_file(
                        f.path,
                        (#[trigger] records[n]).path,
                    ) && f.modified_date == records[n].modified_date),
        ),
        records_of(files, records) == files.filter_map(|f: FileView| record_of(f, records)),
    decreases files.len(),
{
    reveal(Seq::filter);
    reveal(Seq::filter_map);
    if files.len() > 0 {
        law_changed_files_are_read_again(files.drop_last(), records);
        law_record_has_path_and_date(files.last(), records);
    }
}

/// A record that is used has exactly the date of a file with its path, and stood
/// among the records. A file that no record has both the path and the date of is
/// read, and no other file is.
pub proof fn law_used_records_are_up_to_date(files: Seq<FileView>, records: Seq<FileView>)
    ensures
        forall|i: int|
            0 <= i < records_of(files, records).len() ==> {
                let record = #[trigger] records_of(files, records)[i];
                &&& records.contains(record)
                &&& exists|j: int|
                    0 <= j < files.len() && model::same_file(
                        (#[trigger] files[j]).path,
                        record.path,
                    ) && record.modified_date == files[j].modified_date
            },
        forall|j: int|
            0 <= j < files.len() ==> (unrecorded(files, records).contains(#[trigger] files[j])
                <==> forall|n: int|
                0 <= n < records.len() ==> !(model::same_file(
                    files[j].path,
                    (#[trigger] records[n]).path,
                ) && records[n].modified_date == files[j].modified_date)),
        forall|i: int|
            0 <= i < unrecorded(files, records).len() ==> files.contains(
                #[trigger] unrecorded(files, records)[i],
            ),
        records_of(files, records).len() + unrecorded(files, records).len() == files.len(),
{
    law_each_file_is_known_or_hashed(files, records);
    let known = records_of(files, records);
    let unknown = unrecorded(files, records);
    assert forall|i: int| 0 <= i < known.len() implies {
        let record = #[trigger] known[i];
        &&& records.contains(record)
        &&& exists|j: int|
            0 <= j < files.len() && model::same_file((#[trigger] files[j]).path, record.path)
                && record.modified_date == files[j].modified_date
    } by {
        let record = known[i];
        lemma_records_of(files, records, i);
        let j = choose|j: int|
            0 <= j < files.len() && record_of(#[trigger] files[j], records) == Some(record);
        law_record_has_path_and_date(files[j], records);
        assert(model::same_file(files[j].path, record.path));
    }
    assert forall|j: int| 0 <= j < files.len() implies (unknown.contains(#[trigger] files[j])
        <==> forall|n: int|
        0 <= n < records.len() ==> !(model::same_file(files[j].path, (#[trigger] records[n]).path)
            && records[n].modified_date == files[j].modified_date)) by {
        law_record_has_path_and_date(files[j], records);
        if unknown.contains(files[j]) {
            let i = choose|i: int| 0 <= i < unknown.len() && unknown[i] == files[j];
            assert(record_of(unknown[i], records) is None);
        }
    }
}

/// What is planned for the files of one size: those that are to be read are those
/// that no record of that size has the path and the date of, in their order; every
/// record that is used instead has the path and the date of one of the files, and
/// there is one for each of the other files.
pub proof fn law_plan_goes_by_path_and_date(
    files: Map<u64, Seq<FileView>>,
    loaded: Map<u64, Seq<FileView>>,
    k: u64,
)
    requires
        files.contains_key(k),
    ensures
        ({
            let read = files[k].filter(
                |f: FileView|
                    loaded.contains_key(k) ==> forall|n: int|
                        0 <= n < loaded[k].len() ==> !(model::same_file(
                            f.path,
                            (#[trigger] loaded[k][n]).path,
                        ) && f.modified_date == loaded[k][n].modified_date),
            );
            &&& unknown_part(files, loaded).contains_key(k) <==> read.len() > 0
                || !loaded.contains_key(k)
            &&& unknown_part(files, loaded).contains_key(k) ==> unknown_part(files, loaded)[k]
                == read
            &&& known_part(files, loaded).contains_key(k) <==> read.len() < files[k].len()
            &&& known_part(files, loaded).contains_key(k) ==> known_part(files, loaded)[k].len()
                == files[k].len() - read.len()
        }),
        known_part(files, loaded).contains_key(k) ==> loaded.contains_key(k) && forall|i: int|
            0 <= i < known_part(files, loaded)[k].len() ==> {
                let record = #[trigger] known_part(files, loaded)[k][i];
                &&& loaded[k].contains(record)
                &&& exists|j: int|
                    0 <= j < files[k].len() && model::same_file(
                        (#[trigger] files[k][j]).path,
                        record.path,
                    ) && record.modified_date == files[k][j].modified_date
            },
{
    let p = |f: FileView|
        loaded.contains_key(k) ==> forall|n: int|
            0 <= n < loaded[k].len() ==> !(model::same_file(f.path, (#[trigger] loaded[k][n]).path)
                && f.modified_date == loaded[k][n].modified_date);
    if loaded.contains_key(k) {
        law_changed_files_are_read_again(files[k], loaded[k]);
        law_used_records_are_up_to_date(files[k], loaded[k]);
        let q = |f: FileView|
            forall|n: int|
                0 <= n < loaded[k].len() ==> !(model::same_file(
                    f.path,
                    (#[trigger] loaded[k][n]).path,
                ) && f.modified_date == loaded[k][n].modified_date);
        assert(p =~= q);
    } else {
        lemma_all_are_kept(files[k], p);
    }
}

proof fn lemma_all_are_kept(files: Seq<FileView>, p: spec_fn(FileView) -> bool)
    requires
        forall|i: int| 0 <= i < files.len() ==> p(#[trigger] files[i]),
    ensures
        files.filter(p) == files,
    decreases files.len(),
{
    reveal(Seq::filter);
    if files.len() > 0 {
        let init = files.drop_last();
        assert forall|i: int| 0 <= i < init.len() implies p(#[trigger] init[i]) by {
            assert(init[i] == files[i]);
        }
        lemma_all_are_kept(init, p);
        assert(p(files[files.len() - 1]));
        assert(init.push(files.last()) =~= files);
    }
}

/// Nothing is planned for a size of which there are no files.
pub proof fn law_plan_is_about_the_files(
    files: Map<u64, Seq<FileView>>,
    loaded: Map<u64, Seq<FileView>>,
    k: u64,
)
    ensures
        known_part(files, loaded).contains_key(k) || unknown_part(files, loaded).contains_key(k)
            ==> files.contains_key(k),
{
}

/// Records of one size are filed in the first result for that size, or in a new one
/// where there is none: under each hash, behind what stood there, the records that have
/// that hash, in order. Nothing else changes.
pub proof fn law_records_are_filed_by_their_hash(
    results: Seq<GroupView>,
    size: u64,
    records: Seq<FileView>,
    r: int,
    hash: Seq<char>,
)
    requires
        0 <= r <= results.len(),
        forall|q: int| 0 <= q < r ==> (#[trigger] results[q]).size != size,
        r < results.len() ==> results[r].size == size,
    ensures
        ({
            let after = with_records(results, size, records);
            let own = records.filter(|f: FileView| f.hash == hash);
            let was = if r < results.len() && results[r].hashes.contains_key(hash) {
                results[r].hashes[hash]
            } else {
                Seq::empty()
            };
            &&& after.len() == (if r < results.len() {
                results.len()
            } else {
                results.len() + 1
            })
            &&& forall|q: int|
                0 <= q < results.len() && q != r ==> #[trigger] after[q] == results[q]
            &&& after[r].size == size
            &&& after[r].errors == (if r < results.len() {
                results[r].errors
            } else {
                Seq::empty()
            })
            &&& after[r].bytes_read == (if r < results.len() {
                results[r].bytes_read
            } else {
                0
            })
            &&& after[r].hashes.contains_key(hash) <==> (r < results.len()
                && results[r].hashes.contains_key(hash)) || own.len() > 0
            &&& after[r].hashes.contains_key(hash) ==> after[r].hashes[hash] == was + own
        }),
{
    lemma_result_for(results, size, 0, r);
    lemma_items_with_hash(records, hash);
    let pairs = by_own_hash(records);
    let p = |f: FileView| f.hash == hash;
    let own = records.filter(p);
    if own.len() > 0 {
        records.lemma_filter_pred(p, 0);
        records.lemma_filter_contains_rev(p, own[0]);
        let i = choose|i: int| 0 <= i < records.len() && records[i] == own[0];
        assert(pairs[i].0 == hash);
    }
    if grouping::has_key(pairs, hash) {
        let i = choose|i: int| 0 <= i < pairs.len() && (#[trigger] pairs[i]).0 == hash;
        records.lemma_filter_contains(p, i);
    }
}

proof fn lemma_items_with_hash(records: Seq<FileView>, hash: Seq<char>)
    ensures
        grouping::items_of(by_own_hash(records), hash) == records.filter(
            |f: FileView| f.hash == hash,
        ),
    decreases records.len(),
{
    reveal(Seq::filter);
    let pairs = by_own_hash(records);
    if records.len() > 0 {
        lemma_items_with_hash(records.drop_last(), hash);
        assert(pairs.drop_last() =~= by_own_hash(records.drop_last()));
    }
}

/// Records of several sizes are filed size by size.
pub proof fn law_records_are_filed_size_by_size(
    results: Seq<GroupView>,
    groups: Seq<(u64, Seq<FileView>)>,
    size: u64,
    records: Seq<FileView>,
)
    ensures
        with_all_records(results, Seq::empty()) == results,
        with_all_records(results, groups.push((size, records))) == with_records(
            with_all_records(results, groups),
            size,
            records,
        ),
{
    assert(groups.push((size, records)).drop_last() =~= groups);
}

/// What is remembered under a path: the last of the files with that path; nothing, if
/// none has it.
pub proof fn law_last_file_is_remembered(files: Seq<FileView>, path: Seq<char>)
    ensures
        by_path(files).contains_key(path) <==> exists|i: int|
            0 <= i < files.len() && (#[trigger] files[i]).path.text == path,
        by_path(files).contains_key(path) ==> exists|i: int|
            {
                &&& 0 <= i < files.len()
                &&& #[trigger] files[i] == by_path(files)[path]
                &&& files[i].path.text == path
                &&& forall|j: int|
                    i < j < files.len() ==> (#[trigger] files[j]).path.text != path
            },
    decreases files.len(),
{
    if files.len() > 0 {
        let init = files.drop_last();
        law_last_file_is_remembered(init, path);
        let last = files.len() - 1;
        assert(files[last] == files.last());
        if files.last().path.text == path {
        } else {
            if by_path(init).contains_key(path) {
                let i = choose|i: int|
                    {
                        &&& 0 <= i < init.len()
                        &&& #[trigger] init[i] == by_path(init)[path]
                        &&& init[i].path.text == path
                        &&& forall|j: int|
                            i < j < init.len() ==> (#[trigger] init[j]).path.text != path
                    };
                assert(files[i] == init[i]);
                assert forall|j: int| i < j < files.len() implies (#[trigger] files[j]).path.text
                    != path by {
                    if j < last {
                        assert(init[j] == files[j]);
                    }
                }
            } else {
                assert forall|i: int| 0 <= i < files.len() implies (#[trigger] files[i]).path.text
                    != path by {
                    if i < last {
                        assert(init[i] == files[i]);
                    }
                }
            }
        }
    }
}

/// The files that are to be remembered are those of all records that were known, size by
/// size, and behind them those of all results, result by result and hash by hash.
pub proof fn law_all_files_are_remembered(
    loaded: Map<u64, Seq<FileView>>,
    results: Seq<GroupView>,
    result: GroupView,
)
    ensures
        files_in(groups::by_size(loaded)) == grouping::keys_of(loaded).map_values(
            |k: u64| loaded[k],
        ).flatten(),
        result_files(Seq::empty()).len() == 0,
        result_files(results.push(result)) == result_files(results) + textmap::keys_of(
            result.hashes,
        ).map_values(|h: Seq<char>| result.hashes[h]).flatten(),
{
    lemma_files_in_are_flat(grouping::keys_of(loaded), loaded);
    lemma_files_in_are_flat(textmap::keys_of(result.hashes), result.hashes);
    assert(results.push(result).drop_last() =~= results);
}

proof fn lemma_files_in_are_flat<K>(keys: Seq<K>, m: Map<K, Seq<FileView>>)
    ensures
        files_in(groups::groups_under(keys, m)) == keys.map_values(|k: K| m[k]).flatten(),
    decreases keys.len(),
{
    let parts = keys.map_values(|k: K| m[k]);
    let list = groups::groups_under(keys, m);
    if keys.len() > 0 {
        let init = keys.drop_last();
        lemma_files_in_are_flat(init, m);
        assert(parts.drop_last() =~= init.map_values(|k: K| m[k]));
        assert(list.drop_last() =~= groups::groups_under(init, m));
        parts.drop_last().lemma_flatten_push(parts.last());
        assert(parts.drop_last().push(parts.last()) =~= parts);
    } else {
        assert(parts =~= Seq::empty());
    }
}

/// What a map from paths to files is leaves nothing out.
pub proof fn law_remembered_files_are_seen_whole(m: Map<Seq<char>, FileEntry>, k: Seq<char>)
    ensures
        remembered(m).contains_key(k) <==> m.contains_key(k),
        m.contains_key(k) ==> remembered(m)[k] == m[k]@,
{
}

} // verus!
