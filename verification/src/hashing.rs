//! Comparing files by the hashes of what they hold.
use crate::digest;
use crate::digest::{FileDigest, HashStage};
use crate::finder;
use crate::finder::DuplicateFinder;
use crate::grouping;
use crate::groups;
use crate::listing;
use crate::model::{FileEntry, FileView};
use crate::text;
use crate::textmap;
use crate::textmap::TextMap;
use std::collections::BTreeMap;
use vstd::prelude::*;

verus! {

// ---------------------------------------------------------------------------
// One group of files of the same size
// ---------------------------------------------------------------------------

/// How it went to read a file for its hash. `bytes` is how many were read.
#[derive(Debug)]
pub enum ReadOutcome {
    CannotOpen,
    CannotRead { bytes: u64 },
    Hashed { hash: String, bytes: u64 },
}

/// What an outcome says.
pub enum OutcomeView {
    CannotOpen,
    CannotRead(u64),
    Hashed(Seq<char>, u64),
}

impl DeepView for ReadOutcome {
    type V = OutcomeView;

    open spec fn deep_view(&self) -> OutcomeView {
        match self {
            ReadOutcome::CannotOpen => OutcomeView::CannotOpen,
            ReadOutcome::CannotRead { bytes } => OutcomeView::CannotRead(*bytes),
            ReadOutcome::Hashed { hash, bytes } => OutcomeView::Hashed(hash@, *bytes),
        }
    }
}

/// The outcome of reading these bytes of a file.
pub open spec fn outcome_of(bytes: Seq<u8>) -> OutcomeView {
    OutcomeView::Hashed(digest::blake3_hex(bytes), bytes.len() as u64)
}

impl FileDigest {
    /// The outcome of a reading that came to its end.
    pub fn outcome(&self) -> (r: ReadOutcome)
        requires
            self.wf(),
        ensures
            match r {
                ReadOutcome::Hashed { hash, bytes } => hash@ == digest::blake3_hex(self.input())
                    && bytes == self.input().len(),
                _ => false,
            },
            r.deep_view() == outcome_of(self.input()),
    {
        ReadOutcome::Hashed { hash: self.finish(), bytes: self.bytes_read() }
    }

    /// The outcome of a reading that broke off.
    pub fn broken_outcome(&self) -> (r: ReadOutcome)
        requires
            self.wf(),
        ensures
            match r {
                ReadOutcome::CannotRead { bytes } => bytes == self.input().len(),
                _ => false,
            },
    {
        ReadOutcome::CannotRead { bytes: self.bytes_read() }
    }
}

/// How many bytes were read of a file.
pub open spec fn bytes_of(outcome: OutcomeView) -> u64 {
    match outcome {
        OutcomeView::CannotOpen => 0,
        OutcomeView::CannotRead(bytes) => bytes,
        OutcomeView::Hashed(_, bytes) => bytes,
    }
}

/// How many bytes were read of some files.
pub open spec fn read_bytes(outcomes: Seq<OutcomeView>) -> int
    decreases outcomes.len(),
{
    if outcomes.len() == 0 {
        0
    } else {
        read_bytes(outcomes.drop_last()) + bytes_of(outcomes.last())
    }
}

/// What there is to say of an outcome.
pub open spec fn errors_of(file: FileView, outcome: OutcomeView) -> Seq<Seq<char>> {
    match outcome {
        OutcomeView::CannotOpen => seq!["Unable to check hash of file "@ + file.path.text],
        OutcomeView::CannotRead(_) => seq![
            "Error happened when checking hash of file "@ + file.path.text,
        ],
        OutcomeView::Hashed(_, _) => Seq::empty(),
    }
}

/// What there is to say of the files that could not be read.
pub open spec fn read_errors(files: Seq<FileView>, outcomes: Seq<OutcomeView>) -> Seq<Seq<char>>
    decreases files.len(),
{
    if files.len() == 0 {
        Seq::empty()
    } else {
        read_errors(files.drop_last(), outcomes.drop_last()) + errors_of(
            files.last(),
            outcomes.last(),
        )
    }
}

/// A file as it is kept beside its hash: a full hash is noted in it.
pub open spec fn kept_file(stage: HashStage, file: FileView, hash: Seq<char>) -> FileView {
    match stage {
        HashStage::Full => FileView { hash, ..file },
        _ => file,
    }
}

/// The files that were read to the end, each beside its hash.
pub open spec fn hashed_files(
    stage: HashStage,
    files: Seq<FileView>,
    outcomes: Seq<OutcomeView>,
) -> Seq<(Seq<char>, FileView)>
    decreases files.len(),
{
    if files.len() == 0 {
        Seq::empty()
    } else {
        let before = hashed_files(stage, files.drop_last(), outcomes.drop_last());
        match outcomes.last() {
            OutcomeView::Hashed(hash, _) => before.push(
                (hash, kept_file(stage, files.last(), hash)),
            ),
            _ => before,
        }
    }
}

/// The files of one size by their hashes, with what there is to say of those that
/// could not be read.
pub struct GroupHashes {
    pub size: u64,
    pub by_hash: TextMap<Vec<FileEntry>>,
    pub errors: Vec<String>,
    pub bytes_read: u64,
}

/// What a group by hashes is.
pub struct GroupView {
    pub size: u64,
    pub hashes: Map<Seq<char>, Seq<FileView>>,
    pub errors: Seq<Seq<char>>,
    pub bytes_read: u64,
}

impl View for GroupHashes {
    type V = GroupView;

    open spec fn view(&self) -> GroupView {
        GroupView {
            size: self.size,
            hashes: grouping::contents(self.by_hash@),
            errors: self.errors.deep_view(),
            bytes_read: self.bytes_read,
        }
    }
}

impl DeepView for GroupHashes {
    type V = GroupView;

    open spec fn deep_view(&self) -> GroupView {
        self@
    }
}

/// The group that reading `files` gives.
pub open spec fn group_of(
    size: u64,
    stage: HashStage,
    files: Seq<FileView>,
    outcomes: Seq<OutcomeView>,
) -> GroupView {
    GroupView {
        size,
        hashes: grouping::gathered(hashed_files(stage, files, outcomes)),
        errors: read_errors(files, outcomes),
        bytes_read: read_bytes(outcomes) as u64,
    }
}

/// Every file of the result has the size that the result is for.
pub open spec fn is_filed(result: GroupView) -> bool {
    forall|h: Seq<char>, i: int|
        result.hashes.contains_key(h) && 0 <= i < result.hashes[h].len() ==> (
        #[trigger] result.hashes[h][i]).size == result.size
}

/// A file stands beside a hash if and only if it was read to the end and has
/// that hash.
pub proof fn lemma_hashed_files(
    stage: HashStage,
    files: Seq<FileView>,
    outcomes: Seq<OutcomeView>,
    hash: Seq<char>,
    kept: FileView,
)
    requires
        files.len() == outcomes.len(),
    ensures
        hashed_files(stage, files, outcomes).contains((hash, kept)) <==> exists|i: int|
            0 <= i < files.len() && #[trigger] has_hash(outcomes[i], hash) && kept == kept_file(
                stage,
                files[i],
                hash,
            ),
    decreases files.len(),
{
    let all = hashed_files(stage, files, outcomes);
    if files.len() > 0 {
        let fi = files.drop_last();
        let oi = outcomes.drop_last();
        let before = hashed_files(stage, fi, oi);
        lemma_hashed_files(stage, fi, oi, hash, kept);
        if all.contains((hash, kept)) {
            let j = choose|j: int| 0 <= j < all.len() && all[j] == (hash, kept);
            if j < before.len() {
                assert(before[j] == (hash, kept));
                let i = choose|i: int|
                    0 <= i < fi.len() && #[trigger] has_hash(oi[i], hash) && kept == kept_file(
                        stage,
                        fi[i],
                        hash,
                    );
                assert(has_hash(outcomes[i], hash));
            } else {
                assert(has_hash(outcomes[outcomes.len() - 1], hash));
            }
        }
        if exists|i: int|
            0 <= i < files.len() && #[trigger] has_hash(outcomes[i], hash) && kept == kept_file(
                stage,
                files[i],
                hash,
            ) {
            let i = choose|i: int|
                0 <= i < files.len() && #[trigger] has_hash(outcomes[i], hash) && kept == kept_file(
                    stage,
                    files[i],
                    hash,
                );
            if i < fi.len() {
                assert(has_hash(oi[i], hash));
                let j = choose|j: int| 0 <= j < before.len() && before[j] == (hash, kept);
                assert(all[j] == (hash, kept));
            } else {
                assert(all[all.len() - 1] == (hash, kept));
            }
        }
    }
}

/// The file was read to the end and has this hash.
pub open spec fn has_hash(outcome: OutcomeView, hash: Seq<char>) -> bool {
    outcome matches OutcomeView::Hashed(h, _) && h == hash
}

/// The result for files of one size is for that size.
proof fn lemma_group_is_filed(
    size: u64,
    stage: HashStage,
    files: Seq<FileView>,
    outcomes: Seq<OutcomeView>,
)
    requires
        files.len() == outcomes.len(),
        forall|i: int| 0 <= i < files.len() ==> (#[trigger] files[i]).size == size,
    ensures
        is_filed(group_of(size, stage, files, outcomes)),
{
    let pairs = hashed_files(stage, files, outcomes);
    let p = |h: Seq<char>, f: FileView| f.size == size;
    assert forall|j: int| 0 <= j < pairs.len() implies p((#[trigger] pairs[j]).0, pairs[j].1) by {
        assert(pairs.contains((pairs[j].0, pairs[j].1)));
        lemma_hashed_files(stage, files, outcomes, pairs[j].0, pairs[j].1);
    }
    grouping::lemma_extended_each(Map::empty(), pairs, p);
    let r = group_of(size, stage, files, outcomes);
    assert forall|h: Seq<char>, i: int|
        r.hashes.contains_key(h) && 0 <= i < r.hashes[h].len() implies (
    #[trigger] r.hashes[h][i]).size == r.size by {
        assert(p(h, grouping::gathered(pairs)[h][i]));
    }
}

proof fn lemma_read_bytes_grow(outcomes: Seq<OutcomeView>, n: int)
    requires
        0 <= n <= outcomes.len(),
    ensures
        0 <= read_bytes(outcomes.take(n)) <= read_bytes(outcomes),
    decreases outcomes.len(),
{
    if outcomes.len() == 0 {
        assert(outcomes.take(n) =~= outcomes);
    } else if n == outcomes.len() {
        assert(outcomes.take(n) =~= outcomes);
        lemma_read_bytes_grow(outcomes.drop_last(), 0);
        assert(outcomes.drop_last().take(0) =~= Seq::empty());
    } else {
        lemma_read_bytes_grow(outcomes.drop_last(), n);
        assert(outcomes.drop_last().take(n) =~= outcomes.take(n));
    }
}

/// Says `what` of a file among the errors.
fn note_error(errors: &mut Vec<String>, what: &str, file: &FileEntry)
    ensures
        final(errors).deep_view() == old(errors).deep_view().push(what@ + file.path.text@),
{
    let ghost before = errors.deep_view();
    errors.push(text::join(what, file.path.text.as_str()));
    assert(errors.deep_view() =~= before.push(what@ + file.path.text@));
}

/// Whether the bytes that were read of some files can be counted.
pub fn can_count_bytes(outcomes: &Vec<ReadOutcome>) -> (r: bool)
    ensures
        r == (read_bytes(outcomes.deep_view()) <= u64::MAX),
{
    let ghost ov = outcomes.deep_view();
    let mut bytes_read: u64 = 0;
    let mut i: usize = 0;
    assert(ov.take(0) =~= Seq::empty());
    while i < outcomes.len()
        invariant
            i <= outcomes.len(),
            ov == outcomes.deep_view(),
            bytes_read == read_bytes(ov.take(i as int)),
        decreases outcomes.len() - i,
    {
        proof {
            assert(ov.take(i + 1).drop_last() =~= ov.take(i as int));
            assert(ov.take(i + 1).last() == outcomes@[i as int].deep_view());
            lemma_read_bytes_grow(ov, i + 1);
        }
        let more: u64 = match &outcomes[i] {
            ReadOutcome::CannotOpen => 0,
            ReadOutcome::CannotRead { bytes } => *bytes,
            ReadOutcome::Hashed { bytes, .. } => *bytes,
        };
        if more > u64::MAX - bytes_read {
            return false;
        }
        bytes_read = bytes_read + more;
        i += 1;
    }
    assert(ov.take(outcomes@.len() as int) =~= ov);
    true
}

/// Files each file that was read to the end under its hash.
pub fn hash_group(
    size: u64,
    stage: HashStage,
    files: &Vec<FileEntry>,
    outcomes: &Vec<ReadOutcome>,
) -> (r: GroupHashes)
    requires
        files@.len() == outcomes@.len(),
        read_bytes(outcomes.deep_view()) <= u64::MAX,
    ensures
        r@ == group_of(size, stage, files.deep_view(), outcomes.deep_view()),
        (forall|i: int| 0 <= i < files@.len() ==> (#[trigger] files@[i]).size == size) ==> is_filed(
            r@,
        ),
{
    let ghost fv = files.deep_view();
    let ghost ov = outcomes.deep_view();
    let mut by_hash: TextMap<Vec<FileEntry>> = TextMap::new();
    let mut errors: Vec<String> = Vec::new();
    let mut bytes_read: u64 = 0;
    let mut i: usize = 0;
    proof {
        assert(fv.take(0) =~= Seq::empty());
        assert(ov.take(0) =~= Seq::empty());
        assert(errors.deep_view() =~= Seq::empty());
        grouping::lemma_extended_by_nothing::<Seq<char>, FileView>(Map::empty());
        assert(grouping::contents(by_hash@) =~= Map::<Seq<char>, Seq<FileView>>::empty());
    }
    while i < files.len()
        invariant
            i <= files.len(),
            files@.len() == outcomes@.len(),
            fv == files.deep_view(),
            ov == outcomes.deep_view(),
            read_bytes(ov) <= u64::MAX,
            grouping::contents(by_hash@) == grouping::gathered(
                hashed_files(stage, fv.take(i as int), ov.take(i as int)),
            ),
            errors.deep_view() == read_errors(fv.take(i as int), ov.take(i as int)),
            bytes_read == read_bytes(ov.take(i as int)),
        decreases files.len() - i,
    {
        let file: &FileEntry = &files[i];
        let ghost pairs = hashed_files(stage, fv.take(i as int), ov.take(i as int));
        let ghost said = errors.deep_view();
        proof {
            assert(fv.take(i + 1).drop_last() =~= fv.take(i as int));
            assert(ov.take(i + 1).drop_last() =~= ov.take(i as int));
            assert(fv.take(i + 1).last() == file@);
            assert(ov.take(i + 1).last() == outcomes@[i as int].deep_view());
            lemma_read_bytes_grow(ov, i + 1);
        }
        match &outcomes[i] {
            ReadOutcome::CannotOpen => {
                note_error(&mut errors, "Unable to check hash of file ", file);
                assert(errors.deep_view() =~= said + errors_of(file@, ov[i as int]));
            },
            ReadOutcome::CannotRead { bytes } => {
                bytes_read = bytes_read + *bytes;
                note_error(&mut errors, "Error happened when checking hash of file ", file);
                assert(errors.deep_view() =~= said + errors_of(file@, ov[i as int]));
            },
            ReadOutcome::Hashed { hash, bytes } => {
                bytes_read = bytes_read + *bytes;
                let mut kept: FileEntry = file.clone();
                match stage {
                    HashStage::Full => {
                        kept.hash = hash.clone();
                    },
                    _ => {},
                }
                assert(kept@ == kept_file(stage, file@, hash@));
                by_hash.add_item(hash.as_str(), kept);
                proof {
                    grouping::lemma_extended_by_one(Map::empty(), pairs, (hash@, kept@));
                    assert(said + Seq::<Seq<char>>::empty() =~= said);
                }
            },
        }
        i += 1;
    }
    proof {
        assert(fv.take(files@.len() as int) =~= fv);
        assert(ov.take(files@.len() as int) =~= ov);
        if forall|i: int| 0 <= i < files@.len() ==> (#[trigger] files@[i]).size == size {
            assert forall|i: int| 0 <= i < fv.len() implies (#[trigger] fv[i]).size == size by {
                assert(files@[i].size == size);
            }
            lemma_group_is_filed(size, stage, fv, ov);
        }
    }
    GroupHashes { size, by_hash, errors, bytes_read }
}

// ---------------------------------------------------------------------------
// The results of all groups
// ---------------------------------------------------------------------------

/// The groups of at least two files with the same hash, each beside its size.
pub open spec fn groups_of(result: GroupView) -> Seq<(u64, Seq<FileView>)> {
    groups::by_name(groups::duplicated(result.hashes)).map_values(
        |g: (Seq<char>, Seq<FileView>)| (result.size, g.1),
    )
}

/// The groups of at least two files with the same size and the same hash.
pub open spec fn all_groups(results: Seq<GroupView>) -> Seq<(u64, Seq<FileView>)>
    decreases results.len(),
{
    if results.len() == 0 {
        Seq::empty()
    } else {
        all_groups(results.drop_last()) + groups_of(results.last())
    }
}

/// The files of some groups, each beside the key of its group.
pub open spec fn all_files(groups: Seq<(u64, Seq<FileView>)>) -> Seq<(u64, FileView)>
    decreases groups.len(),
{
    if groups.len() == 0 {
        Seq::empty()
    } else {
        all_files(groups.drop_last()) + beside(groups.last().0, groups.last().1)
    }
}

/// Some files, each beside `k`.
pub open spec fn beside(k: u64, files: Seq<FileView>) -> Seq<(u64, FileView)> {
    files.map_values(|f: FileView| (k, f))
}

/// How many bytes were read in all.
pub open spec fn total_bytes(results: Seq<GroupView>) -> int
    decreases results.len(),
{
    if results.len() == 0 {
        0
    } else {
        total_bytes(results.drop_last()) + results.last().bytes_read
    }
}

/// What there is to say of all files that could not be read.
pub open spec fn all_errors(results: Seq<GroupView>) -> Seq<Seq<char>>
    decreases results.len(),
{
    if results.len() == 0 {
        Seq::empty()
    } else {
        all_errors(results.drop_last()) + results.last().errors
    }
}

proof fn lemma_total_bytes_grow(results: Seq<GroupView>, n: int)
    requires
        0 <= n <= results.len(),
    ensures
        0 <= total_bytes(results.take(n)) <= total_bytes(results),
    decreases results.len(),
{
    if results.len() == 0 {
        assert(results.take(n) =~= results);
    } else if n == results.len() {
        assert(results.take(n) =~= results);
        lemma_total_bytes_grow(results.drop_last(), 0);
        assert(results.drop_last().take(0) =~= Seq::empty());
    } else {
        lemma_total_bytes_grow(results.drop_last(), n);
        assert(results.drop_last().take(n) =~= results.take(n));
    }
}

/// No two results are for one size.
pub open spec fn distinct_sizes(results: Seq<GroupView>) -> bool {
    forall|i: int, j: int|
        0 <= i < j < results.len() ==> (#[trigger] results[i]).size != (#[trigger] results[j]).size
}

/// There is a result for this size.
pub open spec fn has_result(results: Seq<GroupView>, size: u64) -> bool {
    exists|r: int| 0 <= r < results.len() && (#[trigger] results[r]).size == size
}

/// The result is what reading the files of its size gave.
pub open spec fn is_reading_of(
    result: GroupView,
    stage: HashStage,
    files: Map<u64, Seq<FileView>>,
    outcomes: Map<u64, Seq<OutcomeView>>,
) -> bool {
    let k = result.size;
    &&& files.contains_key(k)
    &&& outcomes[k].len() == files[k].len()
    &&& result == group_of(k, stage, files[k], outcomes[k])
}

/// The results are what reading all of `files` gave, one for each size.
pub open spec fn are_readings_of(
    results: Seq<GroupView>,
    stage: HashStage,
    files: Map<u64, Seq<FileView>>,
    outcomes: Map<u64, Seq<OutcomeView>>,
) -> bool {
    &&& distinct_sizes(results)
    &&& forall|r: int|
        0 <= r < results.len() ==> is_reading_of(#[trigger] results[r], stage, files, outcomes)
    &&& forall|k: u64| #[trigger] files.contains_key(k) ==> has_result(results, k)
}

/// Each result holds files of its own size.
pub open spec fn all_filed(results: Seq<GroupView>) -> bool {
    forall|i: int| 0 <= i < results.len() ==> is_filed(#[trigger] results[i])
}

/// Each group holds at least two files, all of the size beside it.
pub open spec fn all_of_own_size(groups: Seq<(u64, Seq<FileView>)>) -> bool {
    forall|i: int|
        0 <= i < groups.len() ==> finder::is_group_of_size(
            (#[trigger] groups[i]).1,
            groups[i].0,
        )
}

/// The groups of at least two files with the same size and the same hash.
fn list_groups<'a>(results: &'a Vec<GroupHashes>) -> (r: Vec<(u64, &'a Vec<FileEntry>)>)
    ensures
        listing::sized_list(r@) == all_groups(results.deep_view()),
        all_filed(results.deep_view()) ==> all_of_own_size(all_groups(results.deep_view())),
{
    let ghost rv = results.deep_view();
    let mut r: Vec<(u64, &'a Vec<FileEntry>)> = Vec::new();
    let mut i: usize = 0;
    proof {
        assert(rv.take(0) =~= Seq::empty());
        assert(listing::sized_list(r@) =~= Seq::empty());
    }
    while i < results.len()
        invariant
            i <= results.len(),
            rv == results.deep_view(),
            listing::sized_list(r@) == all_groups(rv.take(i as int)),
            all_filed(rv) ==> all_of_own_size(listing::sized_list(r@)),
        decreases results.len() - i,
    {
        let result: &'a GroupHashes = &results[i];
        let size: u64 = result.size;
        let list: Vec<(&'a String, &'a Vec<FileEntry>)> = listing::list_by_name(&result.by_hash);
        let ghost m = result@.hashes;
        let ghost keys = textmap::keys_of(m);
        let ghost before = listing::sized_list(r@);
        let ghost named = listing::named_list(list@);
        let mut j: usize = 0;
        proof {
            assert(rv[i as int] == result@);
            assert(named.len() == list@.len());
            assert(groups::by_name(m).len() == keys.len());
            assert(keys.take(0) =~= Seq::empty());
            assert(retagged(size, groups::large_groups(keys.take(0), m)) =~= Seq::empty());
            assert(before + retagged(size, groups::large_groups(keys.take(0), m)) =~= before);
        }
        while j < list.len()
            invariant
                j <= list.len(),
                m == result@.hashes,
                keys == textmap::keys_of(m),
                named == listing::named_list(list@),
                named == groups::by_name(m),
                list@.len() == keys.len(),
                textmap::lists_keys(keys, m),
                size == result@.size,
                all_filed(rv) ==> is_filed(result@),
                all_filed(rv) ==> all_of_own_size(listing::sized_list(r@)),
                listing::sized_list(r@) == before + retagged(
                    size,
                    groups::large_groups(keys.take(j as int), m),
                ),
            decreases list.len() - j,
        {
            let files: &'a Vec<FileEntry> = list[j].1;
            let ghost k = keys[j as int];
            let ghost some = groups::large_groups(keys.take(j as int), m);
            proof {
                assert(named[j as int] == (k, m[k]));
                assert(files.deep_view() == m[k]);
                assert(keys.take(j + 1).drop_last() =~= keys.take(j as int));
                assert(keys.take(j + 1).last() == k);
            }
            let ghost so_far = listing::sized_list(r@);
            if files.len() > 1 {
                r.push((size, files));
                assert(listing::sized_list(r@) =~= so_far.push((size, m[k])));
                assert(retagged(size, some.push((k, m[k]))) =~= retagged(size, some).push(
                    (size, m[k]),
                ));
                assert(so_far.push((size, m[k])) =~= before + retagged(size, some).push(
                    (size, m[k]),
                ));
                proof {
                    assert(keys.contains(k));
                    if all_filed(rv) {
                        assert forall|n: int| 0 <= n < m[k].len() implies (
                        #[trigger] m[k][n]).size == size by {
                            assert(result@.hashes[k][n].size == size);
                        }
                    }
                }
            }
            j += 1;
        }
        i += 1;
        proof {
            assert(keys.take(list.len() as int) =~= keys);
            groups::lemma_large_by_name(m, keys);
            assert(rv.take(i as int).drop_last() =~= rv.take(i - 1));
            assert(rv.take(i as int).last() == result@);
            assert(retagged(size, groups::by_name(groups::duplicated(m))) =~= groups_of(result@));
        }
    }
    assert(rv.take(results@.len() as int) =~= rv);
    r
}

spec fn retagged(size: u64, groups: Seq<(Seq<char>, Seq<FileView>)>) -> Seq<(u64, Seq<FileView>)> {
    groups.map_values(|g: (Seq<char>, Seq<FileView>)| (size, g.1))
}

/// Some groups of files, filed file by file under the keys of the groups.
fn file_groups(list: &Vec<(u64, &Vec<FileEntry>)>) -> (r: BTreeMap<u64, Vec<FileEntry>>)
    ensures
        grouping::contents(r@) == grouping::gathered(all_files(listing::sized_list(list@))),
        all_of_own_size(listing::sized_list(list@)) ==> finder::filed_by_size(
            grouping::contents(r@),
        ),
{
    let ghost gs = listing::sized_list(list@);
    let mut r: BTreeMap<u64, Vec<FileEntry>> = BTreeMap::new();
    let mut i: usize = 0;
    proof {
        assert(gs.take(0) =~= Seq::empty());
        grouping::lemma_extended_by_nothing::<u64, FileView>(Map::empty());
        assert(grouping::contents(r@) =~= Map::<u64, Seq<FileView>>::empty());
    }
    while i < list.len()
        invariant
            i <= list.len(),
            gs == listing::sized_list(list@),
            grouping::contents(r@) == grouping::gathered(all_files(gs.take(i as int))),
        decreases list.len() - i,
    {
        let k: u64 = list[i].0;
        let files: &Vec<FileEntry> = list[i].1;
        let ghost fv = files.deep_view();
        let ghost before = all_files(gs.take(i as int));
        let mut j: usize = 0;
        proof {
            assert(beside(k, fv.take(0)) =~= Seq::empty());
            assert(before + beside(k, fv.take(0)) =~= before);
        }
        while j < files.len()
            invariant
                j <= files.len(),
                fv == files.deep_view(),
                grouping::contents(r@) == grouping::gathered(before + beside(k, fv.take(j as int))),
            decreases files.len() - j,
        {
            let ghost pairs = before + beside(k, fv.take(j as int));
            grouping::add_item(&mut r, k, files[j].clone());
            j += 1;
            proof {
                grouping::lemma_extended_by_one(Map::empty(), pairs, (k, fv[j - 1]));
                assert(pairs.push((k, fv[j - 1])) =~= before + beside(k, fv.take(j as int)));
            }
        }
        i += 1;
        proof {
            assert(fv.take(files@.len() as int) =~= fv);
            assert(gs.take(i as int).drop_last() =~= gs.take(i - 1));
            assert(gs.take(i as int).last() == (k, fv));
        }
    }
    proof {
        assert(gs.take(list@.len() as int) =~= gs);
        if all_of_own_size(gs) {
            lemma_files_of_own_size(gs);
            let p = |k: u64, f: FileView| f.size == k;
            grouping::lemma_extended_each(Map::empty(), all_files(gs), p);
            let c = grouping::contents(r@);
            assert forall|k: u64, n: int| c.contains_key(k) && 0 <= n < c[k].len() implies (
            #[trigger] c[k][n]).size == k by {
                assert(p(k, grouping::gathered(all_files(gs))[k][n]));
            }
        }
    }
    r
}

proof fn lemma_files_of_own_size(groups: Seq<(u64, Seq<FileView>)>)
    requires
        all_of_own_size(groups),
    ensures
        forall|j: int|
            0 <= j < all_files(groups).len() ==> (#[trigger] all_files(groups)[j]).1.size
                == all_files(groups)[j].0,
    decreases groups.len(),
{
    if groups.len() > 0 {
        let init = groups.drop_last();
        assert forall|i: int| 0 <= i < init.len() implies finder::is_group_of_size(
            (#[trigger] init[i]).1,
            init[i].0,
        ) by {
            assert(finder::is_group_of_size(groups[i].1, groups[i].0));
        }
        lemma_files_of_own_size(init);
        assert(finder::is_group_of_size(groups[groups.len() - 1].1, groups[groups.len() - 1].0));
        let before = all_files(init);
        let last = groups.last();
        assert forall|j: int| 0 <= j < all_files(groups).len() implies (
        #[trigger] all_files(groups)[j]).1.size == all_files(groups)[j].0 by {
            if j < before.len() {
                assert(all_files(groups)[j] == before[j]);
            } else {
                assert(all_files(groups)[j] == (last.0, last.1[j - before.len()]));
                assert(last.1[j - before.len()].size == last.0);
            }
        }
    }
}

impl DuplicateFinder {
    /// Everything but the count of the bytes read and the warnings is as it was;
    /// those have grown by what `results` says.
    pub open spec fn noted_results(
        &self,
        old_self: &DuplicateFinder,
        results: Seq<GroupView>,
    ) -> bool {
        &&& self.same_settings(old_self)
        &&& self.stopped_search == old_self.stopped_search
        &&& self.files_with_identical_names == old_self.files_with_identical_names
        &&& self.messages() == old_self.messages()
        &&& self.errors() == old_self.errors()
        &&& self.warnings() == old_self.warnings() + all_errors(results)
        &&& self.information.bytes_read_when_hashing
            == old_self.information.bytes_read_when_hashing + total_bytes(results)
    }

    /// Whether the bytes that were read for these results can be counted.
    pub fn can_note_results(&self, results: &Vec<GroupHashes>) -> (r: bool)
        ensures
            r == (self.information.bytes_read_when_hashing + total_bytes(results.deep_view())
                <= u64::MAX),
    {
        let ghost rv = results.deep_view();
        let mut bytes_read: u64 = self.information.bytes_read_when_hashing;
        let mut i: usize = 0;
        assert(rv.take(0) =~= Seq::empty());
        while i < results.len()
            invariant
                i <= results.len(),
                rv == results.deep_view(),
                bytes_read == self.information.bytes_read_when_hashing + total_bytes(
                    rv.take(i as int),
                ),
            decreases results.len() - i,
        {
            proof {
                assert(rv.take(i + 1).drop_last() =~= rv.take(i as int));
                assert(rv.take(i + 1).last() == results@[i as int]@);
                lemma_total_bytes_grow(rv, i + 1);
            }
            let more: u64 = results[i].bytes_read;
            if more > u64::MAX - bytes_read {
                return false;
            }
            bytes_read = bytes_read + more;
            i += 1;
        }
        assert(rv.take(results@.len() as int) =~= rv);
        true
    }

    fn note_results(&mut self, results: &Vec<GroupHashes>)
        requires
            old(self).information.bytes_read_when_hashing + total_bytes(results.deep_view())
                <= u64::MAX,
        ensures
            final(self).noted_results(old(self), results.deep_view()),
            final(self).files_with_identical_size == old(self).files_with_identical_size,
            final(self).files_with_identical_hashes == old(self).files_with_identical_hashes,
            final(self).information == (crate::model::Info {
                bytes_read_when_hashing: final(self).information.bytes_read_when_hashing,
                ..old(self).information
            }),
    {
        let ghost rv = results.deep_view();
        let mut i: usize = 0;
        proof {
            assert(rv.take(0) =~= Seq::empty());
            assert(self.warnings() + all_errors(rv.take(0)) =~= self.warnings());
        }
        while i < results.len()
            invariant
                i <= results.len(),
                rv == results.deep_view(),
                old(self).information.bytes_read_when_hashing + total_bytes(rv) <= u64::MAX,
                self.noted_results(old(self), rv.take(i as int)),
                self.files_with_identical_size == old(self).files_with_identical_size,
                self.files_with_identical_hashes == old(self).files_with_identical_hashes,
                self.information == (crate::model::Info {
                    bytes_read_when_hashing: self.information.bytes_read_when_hashing,
                    ..old(self).information
                }),
            decreases results.len() - i,
        {
            let result: &GroupHashes = &results[i];
            proof {
                lemma_total_bytes_grow(rv, i + 1);
                assert(rv.take(i + 1).drop_last() =~= rv.take(i as int));
                assert(rv.take(i + 1).last() == result@);
            }
            self.information.bytes_read_when_hashing = self.information.bytes_read_when_hashing
                + result.bytes_read;
            let ghost before = self.warnings();
            let ghost said = result@.errors;
            let mut j: usize = 0;
            assert(before + said.take(0) =~= before);
            while j < result.errors.len()
                invariant
                    j <= result.errors.len(),
                    said == result.errors.deep_view(),
                    self.same_settings(old(self)),
                    self.stopped_search == old(self).stopped_search,
                    self.files_with_identical_names == old(self).files_with_identical_names,
                    self.files_with_identical_size == old(self).files_with_identical_size,
                    self.files_with_identical_hashes == old(self).files_with_identical_hashes,
                    self.messages() == old(self).messages(),
                    self.errors() == old(self).errors(),
                    self.warnings() == before + said.take(j as int),
                    self.information.bytes_read_when_hashing
                        == old(self).information.bytes_read_when_hashing + total_bytes(
                        rv.take(i + 1),
                    ),
                    self.information == (crate::model::Info {
                        bytes_read_when_hashing: self.information.bytes_read_when_hashing,
                        ..old(self).information
                    }),
                decreases result.errors.len() - j,
            {
                let ghost so_far = self.warnings();
                self.text_messages.warnings.push(result.errors[j].clone());
                j += 1;
                assert(self.warnings() =~= so_far.push(said[j - 1]));
                assert(so_far.push(said[j - 1]) =~= before + said.take(j as int));
            }
            assert(said.take(result.errors.len() as int) =~= said);
            assert(before + said =~= old(self).warnings() + all_errors(rv.take(i + 1)));
            i += 1;
        }
        assert(rv.take(results@.len() as int) =~= rv);
    }

    /// Takes in the hashes of the beginnings of the files. Returns the files that
    /// are to be hashed further: those whose beginning another file of the same
    /// size shares.
    pub fn collect_prehash(&mut self, results: &Vec<GroupHashes>) -> (r: BTreeMap<
        u64,
        Vec<FileEntry>,
    >)
        requires
            old(self).information.bytes_read_when_hashing + total_bytes(results.deep_view())
                <= u64::MAX,
        ensures
            grouping::contents(r@) == grouping::gathered(
                all_files(all_groups(results.deep_view())),
            ),
            all_filed(results.deep_view()) ==> finder::filed_by_size(grouping::contents(r@)),
            final(self).noted_results(old(self), results.deep_view()),
            final(self).files_with_identical_size == old(self).files_with_identical_size,
            final(self).files_with_identical_hashes == old(self).files_with_identical_hashes,
            final(self).information == (crate::model::Info {
                bytes_read_when_hashing: final(self).information.bytes_read_when_hashing,
                ..old(self).information
            }),
    {
        self.note_results(results);
        let list: Vec<(u64, &Vec<FileEntry>)> = list_groups(results);
        file_groups(&list)
    }

    /// Takes in the hashes of the files: files each group of at least two files of
    /// the same size and the same hash under that size.
    pub fn file_hash_groups(&mut self, results: &Vec<GroupHashes>)
        requires
            old(self).information.bytes_read_when_hashing + total_bytes(results.deep_view())
                <= u64::MAX,
        ensures
            final(self).hashes() == grouping::extended(
                old(self).hashes(),
                all_groups(results.deep_view()),
            ),
            old(self).wf() && all_filed(results.deep_view()) ==> final(self).wf(),
            final(self).noted_results(old(self), results.deep_view()),
            final(self).files_with_identical_size == old(self).files_with_identical_size,
            final(self).information == (crate::model::Info {
                bytes_read_when_hashing: final(self).information.bytes_read_when_hashing,
                ..old(self).information
            }),
    {
        self.note_results(results);
        let ghost noted = *self;
        let list: Vec<(u64, &Vec<FileEntry>)> = list_groups(results);
        let ghost gs = listing::sized_list(list@);
        let ghost start = self.hashes();
        let mut i: usize = 0;
        proof {
            assert(gs.take(0) =~= Seq::empty());
            grouping::lemma_extended_by_nothing(start);
        }
        while i < list.len()
            invariant
                i <= list.len(),
                gs == listing::sized_list(list@),
                self.hashes() == grouping::extended(start, gs.take(i as int)),
                *self == (DuplicateFinder {
                    files_with_identical_hashes: self.files_with_identical_hashes,
                    ..noted
                }),
            decreases list.len() - i,
        {
            let group: Vec<FileEntry> = crate::model::clone_files(list[i].1);
            assert(group.deep_view() =~= list@[i as int].1.deep_view());
            grouping::add_item(&mut self.files_with_identical_hashes, list[i].0, group);
            i += 1;
            proof {
                grouping::lemma_extended_by_one(start, gs.take(i - 1), gs[i - 1]);
                assert(gs.take(i as int) =~= gs.take(i - 1).push(gs[i - 1]));
            }
        }
        proof {
            assert(gs.take(list@.len() as int) =~= gs);
            if old(self).wf() && all_filed(results.deep_view()) {
                let p = |k: u64, g: Seq<FileView>| finder::is_group_of_size(g, k);
                grouping::lemma_extended_each(start, gs, p);
                let c = self.hashes();
                assert forall|k: u64, n: int| c.contains_key(k) && 0 <= n < c[k].len() implies
                    finder::is_group_of_size(#[trigger] c[k][n], k) by {
                    assert(p(k, grouping::extended(start, gs)[k][n]));
                }
            }
        }
    }
}

// ---------------------------------------------------------------------------
// Laws
// ---------------------------------------------------------------------------

/// What the reading of a file gave is seen whole.
pub proof fn law_outcome_is_seen_whole(hash: String, bytes: u64)
    ensures
        ReadOutcome::CannotOpen.deep_view() == OutcomeView::CannotOpen,
        (ReadOutcome::CannotRead { bytes }).deep_view() == OutcomeView::CannotRead(bytes),
        (ReadOutcome::Hashed { hash, bytes }).deep_view() == OutcomeView::Hashed(hash@, bytes),
{
}

/// The outcome of a reading has the hash of all bytes that were read, and their number.
pub proof fn law_outcome_hashes_all_bytes(bytes: Seq<u8>)
    requires
        bytes.len() <= u64::MAX,
    ensures
        outcome_of(bytes) == OutcomeView::Hashed(
            digest::blake3_hex(bytes),
            bytes.len() as u64,
        ),
{
}

/// What hashing the files of one size gives is seen whole.
pub proof fn law_group_is_seen_whole(group: GroupHashes)
    ensures
        group@.size == group.size,
        group@.bytes_read == group.bytes_read,
        group@.errors == group.errors.deep_view(),
        group@.hashes == grouping::contents(group.by_hash@),
        group.deep_view() == group@,
{
}

/// Under a hash there stand, in order, those of the files that were read to the end and
/// have that hash, and no others; where whole files are hashed they take the hash on,
/// else they stay as they are.
pub proof fn law_files_stand_under_their_hash(
    size: u64,
    stage: HashStage,
    files: Seq<FileView>,
    outcomes: Seq<OutcomeView>,
    hash: Seq<char>,
)
    requires
        files.len() == outcomes.len(),
    ensures
        ({
            let result = group_of(size, stage, files, outcomes);
            let places = Seq::new(files.len(), |i: int| i).filter(
                |i: int| outcomes[i] matches OutcomeView::Hashed(h, _) && h == hash,
            );
            &&& result.size == size
            &&& result.hashes.contains_key(hash) <==> places.len() > 0
            &&& result.hashes.contains_key(hash) ==> result.hashes[hash] == places.map_values(
                |i: int|
                    if stage == HashStage::Full {
                        FileView { hash, ..files[i] }
                    } else {
                        files[i]
                    },
            )
        }),
{
    let p = |i: int| outcomes[i] matches OutcomeView::Hashed(h, _) && h == hash;
    let f = |i: int|
        if stage == HashStage::Full {
            FileView { hash, ..files[i] }
        } else {
            files[i]
        };
    let n = files.len() as int;
    let all = Seq::new(files.len(), |i: int| i);
    lemma_hashed_places(stage, files, outcomes, hash, n);
    assert(files.take(n) =~= files);
    assert(outcomes.take(n) =~= outcomes);
    assert(all.take(n) =~= all);
    let pairs = hashed_files(stage, files, outcomes);
    let items = grouping::items_of(pairs, hash);
    assert(Seq::<FileView>::empty() + items =~= items);
    assert(grouping::has_key(pairs, hash) <==> items.len() > 0) by {
        if items.len() > 0 {
            grouping::lemma_items_hold(pairs, hash, items[0]);
            assert(items.contains(items[0]));
            let j = choose|j: int| 0 <= j < pairs.len() && pairs[j] == (hash, items[0]);
            assert(pairs[j].0 == hash);
        }
        if grouping::has_key(pairs, hash) {
            let j = choose|j: int| 0 <= j < pairs.len() && (#[trigger] pairs[j]).0 == hash;
            grouping::lemma_items_hold(pairs, hash, pairs[j].1);
            assert(pairs[j] == (hash, pairs[j].1));
            assert(pairs.contains((hash, pairs[j].1)));
        }
    }
}

proof fn lemma_hashed_places(
    stage: HashStage,
    files: Seq<FileView>,
    outcomes: Seq<OutcomeView>,
    hash: Seq<char>,
    n: int,
)
    requires
        files.len() == outcomes.len(),
        0 <= n <= files.len(),
    ensures
        grouping::items_of(hashed_files(stage, files.take(n), outcomes.take(n)), hash) == Seq::new(
            files.len(),
            |i: int| i,
        ).take(n).filter(
            |i: int| outcomes[i] matches OutcomeView::Hashed(h, _) && h == hash,
        ).map_values(
            |i: int|
                if stage == HashStage::Full {
                    FileView { hash, ..files[i] }
                } else {
                    files[i]
                },
        ),
    decreases n,
{
    reveal(Seq::filter);
    let p = |i: int| outcomes[i] matches OutcomeView::Hashed(h, _) && h == hash;
    let f = |i: int|
        if stage == HashStage::Full {
            FileView { hash, ..files[i] }
        } else {
            files[i]
        };
    let all = Seq::new(files.len(), |i: int| i);
    let now = all.take(n).filter(p).map_values(f);
    let pairs = hashed_files(stage, files.take(n), outcomes.take(n));
    if n == 0 {
        assert(now =~= Seq::empty());
    } else {
        lemma_hashed_places(stage, files, outcomes, hash, n - 1);
        let before = all.take(n - 1).filter(p);
        let pairs_before = hashed_files(stage, files.take(n - 1), outcomes.take(n - 1));
        assert(files.take(n).drop_last() =~= files.take(n - 1));
        assert(outcomes.take(n).drop_last() =~= outcomes.take(n - 1));
        assert(all.take(n).drop_last() =~= all.take(n - 1));
        assert(files.take(n).last() == files[n - 1]);
        assert(outcomes.take(n).last() == outcomes[n - 1]);
        assert(all.take(n).last() == n - 1);
        match outcomes[n - 1] {
            OutcomeView::Hashed(h, _) => {
                assert(pairs == pairs_before.push((h, kept_file(stage, files[n - 1], h))));
                assert(pairs.drop_last() =~= pairs_before);
                if h == hash {
                    assert(now =~= before.map_values(f).push(f(n - 1)));
                }
            },
            _ => {},
        }
    }
}

/// The bytes read for some files are the sum of those of each, whether or not the
/// reading came to the end.
pub proof fn law_read_bytes_add_up(outcomes: Seq<OutcomeView>, hash: Seq<char>, bytes: u64)
    ensures
        read_bytes(Seq::empty()) == 0,
        read_bytes(outcomes.push(OutcomeView::CannotOpen)) == read_bytes(outcomes),
        read_bytes(outcomes.push(OutcomeView::CannotRead(bytes))) == read_bytes(outcomes) + bytes,
        read_bytes(outcomes.push(OutcomeView::Hashed(hash, bytes))) == read_bytes(outcomes) + bytes,
{
    assert(outcomes.push(OutcomeView::CannotOpen).drop_last() =~= outcomes);
    assert(outcomes.push(OutcomeView::CannotRead(bytes)).drop_last() =~= outcomes);
    assert(outcomes.push(OutcomeView::Hashed(hash, bytes)).drop_last() =~= outcomes);
}

/// Of each file that could not be opened or not be read to the end one thing is said,
/// in order, that names it; of the others nothing is said.
pub proof fn law_read_errors_are_told(
    files: Seq<FileView>,
    outcomes: Seq<OutcomeView>,
    file: FileView,
    outcome: OutcomeView,
)
    ensures
        read_errors(Seq::empty(), Seq::empty()).len() == 0,
        read_errors(files.push(file), outcomes.push(outcome)) == read_errors(files, outcomes)
            + match outcome {
            OutcomeView::CannotOpen => seq!["Unable to check hash of file "@ + file.path.text],
            OutcomeView::CannotRead(_) => seq![
                "Error happened when checking hash of file "@ + file.path.text,
            ],
            OutcomeView::Hashed(_, _) => Seq::empty(),
        },
{
    assert(files.push(file).drop_last() =~= files);
    assert(outcomes.push(outcome).drop_last() =~= outcomes);
}

/// The result for some files has the errors and the bytes of their reading.
pub proof fn law_result_tells_of_the_reading(
    size: u64,
    stage: HashStage,
    files: Seq<FileView>,
    outcomes: Seq<OutcomeView>,
)
    requires
        read_bytes(outcomes) <= u64::MAX,
    ensures
        group_of(size, stage, files, outcomes).errors == read_errors(files, outcomes),
        group_of(size, stage, files, outcomes).bytes_read == read_bytes(outcomes),
{
    lemma_read_bytes_grow(outcomes, 0);
    assert(outcomes.take(0) =~= Seq::empty());
}

/// The groups of some results: of each result in turn, and of each the files under every
/// hash that at least two of them have, beside their size, in the order of the hashes.
pub proof fn law_groups_come_result_by_result(results: Seq<GroupView>, result: GroupView)
    ensures
        all_groups(Seq::empty()).len() == 0,
        all_groups(results.push(result)) == all_groups(results) + textmap::keys_of(
            groups::duplicated(result.hashes),
        ).map_values(
            |h: Seq<char>| (result.size, groups::duplicated(result.hashes)[h]),
        ),
{
    assert(results.push(result).drop_last() =~= results);
    let m = groups::duplicated(result.hashes);
    assert(groups_of(result) =~= textmap::keys_of(m).map_values(
        |h: Seq<char>| (result.size, groups::duplicated(result.hashes)[h]),
    ));
}

/// The files of some groups, group by group, each beside its size.
pub proof fn law_files_come_group_by_group(
    groups: Seq<(u64, Seq<FileView>)>,
    k: u64,
    files: Seq<FileView>,
)
    ensures
        all_files(Seq::empty()).len() == 0,
        all_files(groups.push((k, files))) == all_files(groups) + files.map_values(
            |f: FileView| (k, f),
        ),
{
    assert(groups.push((k, files)).drop_last() =~= groups);
}

/// The bytes and the errors of some results are those of each in turn.
pub proof fn law_results_add_up(results: Seq<GroupView>, result: GroupView)
    ensures
        total_bytes(Seq::empty()) == 0,
        total_bytes(results.push(result)) == total_bytes(results) + result.bytes_read,
        all_errors(Seq::empty()).len() == 0,
        all_errors(results.push(result)) == all_errors(results) + result.errors,
{
    assert(results.push(result).drop_last() =~= results);
}

/// When results were noted, their errors stand behind the warnings, their bytes were
/// added to those read, and settings, other messages and the files by name stay.
pub proof fn law_noted_results_are_told(
    after: DuplicateFinder,
    before: DuplicateFinder,
    results: Seq<GroupView>,
)
    requires
        after.noted_results(&before, results),
    ensures
        after.text_messages.warnings.deep_view() == before.text_messages.warnings.deep_view()
            + all_errors(results),
        after.text_messages.messages.deep_view() == before.text_messages.messages.deep_view(),
        after.text_messages.errors.deep_view() == before.text_messages.errors.deep_view(),
        after.information.bytes_read_when_hashing == before.information.bytes_read_when_hashing
            + total_bytes(results),
        after.stopped_search == before.stopped_search,
        after.files_with_identical_names == before.files_with_identical_names,
        after.directories == before.directories,
        after.allowed_extensions == before.allowed_extensions,
        after.excluded_items == before.excluded_items,
        after.recursive_search == before.recursive_search,
        after.minimal_file_size == before.minimal_file_size,
        after.check_method == before.check_method,
        after.delete_method == before.delete_method,
        after.hash_type == before.hash_type,
{
}

/// Results are filed if every file in them has the size that the result is for.
pub proof fn law_filed_results(results: Seq<GroupView>)
    ensures
        all_filed(results) <==> forall|r: int, h: Seq<char>, i: int|
            0 <= r < results.len() && results[r].hashes.contains_key(h) && 0 <= i
                < results[r].hashes[h].len() ==> (#[trigger] results[r].hashes[h][i]).size
                == results[r].size,
{
    if all_filed(results) {
        assert forall|r: int, h: Seq<char>, i: int|
            0 <= r < results.len() && results[r].hashes.contains_key(h) && 0 <= i
                < results[r].hashes[h].len() implies (#[trigger] results[r].hashes[h][i]).size
            == results[r].size by {
            assert(is_filed(results[r]));
        }
    }
}

} // verus!
