//! What a search holds while it hashes files: what one stage leaves to the next.
use crate::counting;
use crate::finder;
use crate::finder::DuplicateFinder;
use crate::grouping;
use crate::groups;
use crate::hashing;
use crate::hashing::{GroupHashes, GroupView};
use crate::model::{FileEntry, FileView, Info};
use crate::reuse;
use crate::reuse::HashPlan;
use crate::textmap::TextMap;
use std::collections::BTreeMap;
use vstd::prelude::*;

verus! {

/// How a search by hash ended.
#[derive(PartialEq, Eq, Clone, Copy, Debug, Structural)]
pub enum Ending {
    Counted,
    /// The bytes that were read are too many to count.
    TooManyBytes,
    /// Some file or group does not stand under its own size.
    Misfiled,
    /// The groups or their files are too many to count.
    TooManyFiles,
}

/// The files that are left, the hashes that were known, and those that were found.
pub struct HashWork {
    files: BTreeMap<u64, Vec<FileEntry>>,
    loaded: BTreeMap<u64, Vec<FileEntry>>,
    results: Vec<GroupHashes>,
}

/// Nothing, by size.
pub open spec fn no_files() -> Map<u64, Seq<FileView>> {
    Map::empty()
}

impl HashWork {
    /// The files that are to be hashed after their beginnings, by size.
    pub closed spec fn files(&self) -> Map<u64, Seq<FileView>> {
        grouping::contents(self.files@)
    }

    /// The records that were known before, by size.
    pub closed spec fn loaded(&self) -> Map<u64, Seq<FileView>> {
        grouping::contents(self.loaded@)
    }

    /// The files by their hashes, size by size.
    pub closed spec fn results(&self) -> Seq<GroupView> {
        self.results.deep_view()
    }

    /// Every file, record and result stands under its own size.
    pub open spec fn wf(&self) -> bool {
        &&& finder::filed_by_size(self.files())
        &&& finder::filed_by_size(self.loaded())
        &&& hashing::all_filed(self.results())
    }

    /// Nothing is left, known or found.
    pub fn new() -> (r: Self)
        ensures
            r.wf(),
            r.files() == no_files(),
            r.loaded() == no_files(),
            r.results() == Seq::<GroupView>::empty(),
    {
        let r = HashWork { files: BTreeMap::new(), loaded: BTreeMap::new(), results: Vec::new() };
        assert(r.files() =~= no_files());
        assert(r.loaded() =~= no_files());
        assert(r.results() =~= Seq::empty());
        r
    }

    /// Takes in the hashes of the beginnings of the files: those files are left
    /// whose beginning another file of the same size shares.
    pub fn take_beginnings(&mut self, finder: &mut DuplicateFinder, results: &Vec<GroupHashes>)
        requires
            old(finder).information.bytes_read_when_hashing + hashing::total_bytes(
                results.deep_view(),
            ) <= u64::MAX,
        ensures
            final(self).files() == grouping::gathered(
                hashing::all_files(hashing::all_groups(results.deep_view())),
            ),
            final(self).loaded() == old(self).loaded(),
            final(self).results() == old(self).results(),
            old(self).wf() && hashing::all_filed(results.deep_view()) ==> final(self).wf(),
            final(finder).noted_results(old(finder), results.deep_view()),
            final(finder).files_with_identical_size == old(finder).files_with_identical_size,
            final(finder).files_with_identical_hashes == old(finder).files_with_identical_hashes,
            final(finder).information == (Info {
                bytes_read_when_hashing: final(finder).information.bytes_read_when_hashing,
                ..old(finder).information
            }),
    {
        self.files = finder.collect_prehash(results);
    }

    /// The files that are left, by size.
    pub fn files_left(&self) -> (r: &BTreeMap<u64, Vec<FileEntry>>)
        ensures
            grouping::contents(r@) == self.files(),
    {
        &self.files
    }

    /// Whether each file that is left stands under its own size.
    pub fn can_plan(&self) -> (r: bool)
        ensures
            r == finder::filed_by_size(self.files()),
    {
        counting::is_filed_by_size(&self.files)
    }

    /// Parts the files that are left into those whose hash is known, and those that
    /// have to be read. Nothing is known where nothing could be loaded.
    pub fn plan(&mut self, loaded: Option<BTreeMap<u64, Vec<FileEntry>>>) -> (r: HashPlan)
        requires
            finder::filed_by_size(old(self).files()),
        ensures
            final(self).loaded() == (match loaded {
                Some(m) => grouping::contents(m@),
                None => no_files(),
            }),
            final(self).files() == old(self).files(),
            final(self).results() == old(self).results(),
            grouping::contents(r.cached@) == reuse::known_part(
                old(self).files(),
                final(self).loaded(),
            ),
            grouping::contents(r.to_hash@) == reuse::unknown_part(
                old(self).files(),
                final(self).loaded(),
            ),
            finder::filed_by_size(grouping::contents(r.to_hash@)),
            finder::filed_by_size(final(self).loaded()) ==> finder::filed_by_size(
                grouping::contents(r.cached@),
            ),
            old(self).wf() && finder::filed_by_size(final(self).loaded()) ==> final(self).wf(),
    {
        self.loaded = match loaded {
            Some(m) => m,
            None => {
                let none: BTreeMap<u64, Vec<FileEntry>> = BTreeMap::new();
                assert(grouping::contents(none@) =~= no_files());
                none
            },
        };
        reuse::plan_hashing(&self.files, &self.loaded)
    }

    /// Takes in the hashes that were computed.
    pub fn take_computed(&mut self, results: Vec<GroupHashes>)
        ensures
            final(self).results() == results.deep_view(),
            final(self).files() == old(self).files(),
            final(self).loaded() == old(self).loaded(),
            old(self).wf() && hashing::all_filed(results.deep_view()) ==> final(self).wf(),
    {
        self.results = results;
    }

    /// Takes in the hashes that were computed, and beside them those of the plan
    /// that were known.
    pub fn take_hashes(&mut self, results: Vec<GroupHashes>, plan: &HashPlan)
        ensures
            final(self).results() == reuse::with_all_records(
                results.deep_view(),
                groups::by_size(grouping::contents(plan.cached@)),
            ),
            final(self).files() == old(self).files(),
            final(self).loaded() == old(self).loaded(),
            old(self).wf() && hashing::all_filed(results.deep_view()) && finder::filed_by_size(
                grouping::contents(plan.cached@),
            ) ==> final(self).wf(),
    {
        let mut results: Vec<GroupHashes> = results;
        reuse::merge_cached(&mut results, &plan.cached);
        self.results = results;
    }

    /// What is remembered for the next search.
    pub fn records(&self) -> (r: TextMap<FileEntry>)
        ensures
            reuse::remembered(r@) == reuse::by_path(
                reuse::files_in(groups::by_size(self.loaded())) + reuse::result_files(
                    self.results(),
                ),
            ),
    {
        reuse::collect_records(&self.loaded, &self.results)
    }

    /// Whether the bytes that were read for the hashes can be counted.
    pub fn can_give_groups(&self, finder: &DuplicateFinder) -> (r: bool)
        ensures
            r == (finder.information.bytes_read_when_hashing + hashing::total_bytes(self.results())
                <= u64::MAX),
    {
        finder.can_note_results(&self.results)
    }

    /// Gives the finder the groups of files with the same size and the same hash.
    pub fn give_groups(&self, finder: &mut DuplicateFinder)
        requires
            old(finder).information.bytes_read_when_hashing + hashing::total_bytes(self.results())
                <= u64::MAX,
        ensures
            final(finder).hashes() == grouping::extended(
                old(finder).hashes(),
                hashing::all_groups(self.results()),
            ),
            old(finder).wf() && self.wf() ==> final(finder).wf(),
            final(finder).noted_results(old(finder), self.results()),
            final(finder).files_with_identical_size == old(finder).files_with_identical_size,
            final(finder).information == (Info {
                bytes_read_when_hashing: final(finder).information.bytes_read_when_hashing,
                ..old(finder).information
            }),
    {
        finder.file_hash_groups(&self.results);
    }

    /// Ends a search by hash: gives the finder the groups, counts them, and has it
    /// drop the files by size.
    pub fn finish(&self, finder: &mut DuplicateFinder) -> (r: Ending)
        ensures
            ({
                let fits = old(finder).information.bytes_read_when_hashing
                    + hashing::total_bytes(self.results()) <= u64::MAX;
                let hashes = grouping::extended(
                    old(finder).hashes(),
                    hashing::all_groups(self.results()),
                );
                let filed = old(finder).minimal_file_size > 0 && finder::filed_by_size(
                    old(finder).sizes(),
                ) && finder::groups_filed_by_size(hashes);
                let countable = counting::hashes_countable(
                    old(finder).information,
                    groups::by_hash(hashes),
                );
                let bytes_noted = Info {
                    bytes_read_when_hashing: final(finder).information.bytes_read_when_hashing,
                    ..old(finder).information
                };
                &&& r == (if !fits {
                    Ending::TooManyBytes
                } else if !filed {
                    Ending::Misfiled
                } else if !countable {
                    Ending::TooManyFiles
                } else {
                    Ending::Counted
                })
                &&& !fits ==> *final(finder) == *old(finder)
                &&& fits ==> final(finder).hashes() == hashes && final(finder).noted_results(
                    old(finder),
                    self.results(),
                )
                &&& fits && r != Ending::Counted ==> final(finder).files_with_identical_size
                    == old(finder).files_with_identical_size && final(finder).information
                    == bytes_noted
                &&& r == Ending::Counted ==> final(finder).wf() && final(finder).sizes()
                    == no_files() && final(finder).information == counting::with_hashes_counted(
                    bytes_noted,
                    groups::by_hash(hashes),
                )
            }),
    {
        if !self.can_give_groups(finder) {
            return Ending::TooManyBytes;
        }
        self.give_groups(finder);
        if !finder.is_well_formed() {
            return Ending::Misfiled;
        }
        if !finder.can_count_hashes() {
            return Ending::TooManyFiles;
        }
        finder.finish_files_hash();
        Ending::Counted
    }
}

} // verus!
