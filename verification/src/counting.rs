//! Leaving single files out of the results, and counting what remains.
use crate::finder;
use crate::finder::DuplicateFinder;
use crate::grouping;
use crate::groups;
use crate::listing;
use crate::model;
use crate::model::{FileEntry, FileView, Info};
use crate::textmap;
use crate::textmap::TextMap;
use std::collections::BTreeMap;
use vstd::prelude::*;

verus! {

impl DuplicateFinder {
    /// Leaves out the files whose name no other file has.
    pub fn keep_identical_names(&mut self)
        ensures
            final(self).names() == groups::duplicated(old(self).names()),
            groups::all_large(groups::by_name(final(self).names())),
            *final(self) == (DuplicateFinder {
                files_with_identical_names: final(self).files_with_identical_names,
                ..*old(self)
            }),
    {
        let mut kept: TextMap<Vec<FileEntry>> = TextMap::new();
        let ghost m = self.names();
        let list: Vec<(&String, &Vec<FileEntry>)> = listing::list_by_name(
            &self.files_with_identical_names,
        );
        let ghost keys = textmap::keys_of(m);
        let ghost named = listing::named_list(list@);
        let mut i: usize = 0;
        proof {
            assert(named.len() == list@.len() && groups::by_name(m).len() == keys.len());
            assert(grouping::contents(kept@) =~= groups::duplicated(
                groups::part_under(m, keys.take(0)),
            ));
        }
        while i < list.len()
            invariant
                i <= list.len(),
                list@.len() == keys.len(),
                named == listing::named_list(list@),
                named == groups::by_name(m),
                keys == textmap::keys_of(m),
                textmap::lists_keys(keys, m),
                grouping::contents(kept@) == groups::duplicated(
                    groups::part_under(m, keys.take(i as int)),
                ),
            decreases list.len() - i,
        {
            let ghost before = grouping::contents(kept@);
            let ghost k = keys[i as int];
            proof {
                assert(named[i as int] == (k, m[k]));
                assert(keys.contains(k));
                groups::lemma_part_next(m, keys, i as int);
            }
            if list[i].1.len() > 1 {
                let copy: Vec<FileEntry> = model::clone_files(list[i].1);
                assert(copy.deep_view() =~= m[k]);
                kept.insert(list[i].0.clone(), copy);
                assert(grouping::contents(kept@) =~= before.insert(k, m[k]));
            }
            i += 1;
            assert(grouping::contents(kept@) =~= groups::duplicated(
                groups::part_under(m, keys.take(i as int)),
            ));
        }
        proof {
            groups::lemma_large_by_name(m, keys);
            groups::lemma_large_groups(keys, m);
            assert(keys.take(list@.len() as int) =~= keys);
            assert(groups::part_under(m, keys) =~= m) by {
                assert forall|k: Seq<char>| #[trigger] m.contains_key(k) implies keys.contains(
                    k,
                ) by {}
            }
        }
        self.files_with_identical_names = kept;
    }

    /// Leaves out the files whose size no other file has.
    pub fn keep_identical_sizes(&mut self)
        ensures
            final(self).sizes() == groups::duplicated(old(self).sizes()),
            groups::all_large(groups::by_size(final(self).sizes())),
            *final(self) == (DuplicateFinder {
                files_with_identical_size: final(self).files_with_identical_size,
                ..*old(self)
            }),
            old(self).wf() ==> final(self).wf(),
    {
        let mut kept: BTreeMap<u64, Vec<FileEntry>> = BTreeMap::new();
        let ghost m = self.sizes();
        let list: Vec<(u64, &Vec<FileEntry>)> = listing::list_by_size(
            &self.files_with_identical_size,
        );
        let ghost keys = grouping::keys_of(m);
        let ghost sized = listing::sized_list(list@);
        let mut i: usize = 0;
        proof {
            assert(sized.len() == list@.len() && groups::by_size(m).len() == keys.len());
            assert(grouping::contents(kept@) =~= groups::duplicated(
                groups::part_under(m, keys.take(0)),
            ));
        }
        while i < list.len()
            invariant
                i <= list.len(),
                list@.len() == keys.len(),
                sized == listing::sized_list(list@),
                sized == groups::by_size(m),
                keys == grouping::keys_of(m),
                grouping::lists_keys(keys, m),
                grouping::contents(kept@) == groups::duplicated(
                    groups::part_under(m, keys.take(i as int)),
                ),
            decreases list.len() - i,
        {
            let ghost before = grouping::contents(kept@);
            let ghost k = keys[i as int];
            proof {
                assert(sized[i as int] == (k, m[k]));
                assert(keys.contains(k));
                groups::lemma_part_next(m, keys, i as int);
            }
            if list[i].1.len() > 1 {
                let copy: Vec<FileEntry> = model::clone_files(list[i].1);
                assert(copy.deep_view() =~= m[k]);
                kept.insert(list[i].0, copy);
                assert(grouping::contents(kept@) =~= before.insert(k, m[k]));
            }
            i += 1;
            assert(grouping::contents(kept@) =~= groups::duplicated(
                groups::part_under(m, keys.take(i as int)),
            ));
        }
        proof {
            groups::lemma_large_by_size(m, keys);
            groups::lemma_large_groups(keys, m);
            assert(keys.take(list@.len() as int) =~= keys);
            assert(groups::part_under(m, keys) =~= m) by {
                assert forall|k: u64| #[trigger] m.contains_key(k) implies keys.contains(k) by {}
            }
        }
        self.files_with_identical_size = kept;
        assert(old(self).wf() ==> self.wf()) by {
            if old(self).wf() {
                assert forall|k: u64, i: int|
                    self.sizes().contains_key(k) && 0 <= i < self.sizes()[k].len() implies (
                #[trigger] self.sizes()[k][i]).size == k by {
                    assert(old(self).sizes()[k][i].size == k);
                }
            }
        }
    }
}

/// The counts of the groups by name after `groups` were counted.
pub open spec fn with_names_counted(info: Info, groups: Seq<(Seq<char>, Seq<FileView>)>) -> Info {
    Info {
        number_of_duplicated_files_by_name: (info.number_of_duplicated_files_by_name
            + groups::extra_files(groups)) as usize,
        number_of_groups_by_name: (info.number_of_groups_by_name + groups.len()) as usize,
        ..info
    }
}

/// The counts of the groups by name stay within a machine word.
pub open spec fn names_countable(info: Info, groups: Seq<(Seq<char>, Seq<FileView>)>) -> bool {
    &&& info.number_of_duplicated_files_by_name + groups::extra_files(groups) <= usize::MAX
    &&& info.number_of_groups_by_name + groups.len() <= usize::MAX
}

/// The counts of the groups by size after `groups` were counted.
pub open spec fn with_sizes_counted(info: Info, groups: Seq<(u64, Seq<FileView>)>) -> Info {
    Info {
        number_of_duplicated_files_by_size: (info.number_of_duplicated_files_by_size
            + groups::extra_files(groups)) as usize,
        number_of_groups_by_size: (info.number_of_groups_by_size + groups.len()) as usize,
        lost_space_by_size: (info.lost_space_by_size + groups::lost_space(groups)) as u64,
        ..info
    }
}

/// The counts of the groups by size stay within a machine word.
pub open spec fn sizes_countable(info: Info, groups: Seq<(u64, Seq<FileView>)>) -> bool {
    &&& info.number_of_duplicated_files_by_size + groups::extra_files(groups) <= usize::MAX
    &&& info.number_of_groups_by_size + groups.len() <= usize::MAX
    &&& info.lost_space_by_size + groups::lost_space(groups) <= u64::MAX
}

/// The counts of the groups by hash after `groups` were counted.
pub open spec fn with_hashes_counted(info: Info, groups: Seq<(u64, Seq<FileView>)>) -> Info {
    Info {
        number_of_duplicated_files_by_hash: (info.number_of_duplicated_files_by_hash
            + groups::extra_files(groups)) as usize,
        number_of_groups_by_hash: (info.number_of_groups_by_hash + groups.len()) as usize,
        lost_space_by_hash: (info.lost_space_by_hash + groups::lost_space(groups)) as u64,
        ..info
    }
}

/// The counts of the groups by hash stay within a machine word.
pub open spec fn hashes_countable(info: Info, groups: Seq<(u64, Seq<FileView>)>) -> bool {
    &&& info.number_of_duplicated_files_by_hash + groups::extra_files(groups) <= usize::MAX
    &&& info.number_of_groups_by_hash + groups.len() <= usize::MAX
    &&& info.lost_space_by_hash + groups::lost_space(groups) <= u64::MAX
}

proof fn lemma_counts_not_negative(groups: Seq<(u64, Seq<FileView>)>)
    requires
        groups::none_empty(groups),
    ensures
        groups::extra_files(groups) >= 0,
        groups::lost_space(groups) >= 0,
{
    groups::lemma_extra_files_grow(groups, 0);
    groups::lemma_lost_space_grows(groups, 0);
}

/// The groups by hash of a well-formed finder hold at least two files each.
pub proof fn lemma_hash_groups_are_large(m: Map<u64, Seq<Seq<FileView>>>)
    requires
        finder::groups_filed_by_size(m),
        grouping::lists_keys(grouping::keys_of(m), m),
    ensures
        groups::all_large(groups::by_hash(m)),
{
    lemma_lists_are_large(grouping::keys_of(m), m);
}

proof fn lemma_lists_are_large(keys: Seq<u64>, m: Map<u64, Seq<Seq<FileView>>>)
    requires
        finder::groups_filed_by_size(m),
        forall|k: u64| #[trigger] keys.contains(k) ==> m.contains_key(k),
    ensures
        groups::all_large(groups::lists_under(keys, m)),
    decreases keys.len(),
{
    if keys.len() > 0 {
        let init = keys.drop_last();
        let before = groups::lists_under(init, m);
        let k = keys.last();
        assert forall|j: u64| #[trigger] init.contains(j) implies m.contains_key(j) by {
            let i = choose|i: int| 0 <= i < init.len() && init[i] == j;
            assert(keys[i] == j);
            assert(keys.contains(j));
        }
        lemma_lists_are_large(init, m);
        assert(keys[keys.len() - 1] == k);
        assert(keys.contains(k));
        assert forall|i: int| 0 <= i < groups::lists_under(keys, m).len() implies (
        #[trigger] groups::lists_under(keys, m)[i]).1.len() > 1 by {
            if i < before.len() {
                assert(groups::lists_under(keys, m)[i] == before[i]);
            } else {
                assert(finder::is_group_of_size(m[k][i - before.len()], k));
            }
        }
    }
}

impl DuplicateFinder {
    /// Whether the groups by name can be counted.
    pub fn can_count_names(&self) -> (r: bool)
        requires
            groups::none_empty(groups::by_name(self.names())),
        ensures
            r == names_countable(self.information, groups::by_name(self.names())),
    {
        let list: Vec<(&String, &Vec<FileEntry>)> = listing::list_by_name(
            &self.files_with_identical_names,
        );
        assert(list@.len() == groups::by_name(self.names()).len());
        proof {
            groups::lemma_extra_files_grow(groups::by_name(self.names()), 0);
        }
        match listing::count_extra_named(&list) {
            Some(files) => files <= usize::MAX - self.information.number_of_duplicated_files_by_name
                && list.len() <= usize::MAX - self.information.number_of_groups_by_name,
            None => false,
        }
    }

    /// Counts the groups by name.
    pub fn count_names(&mut self)
        requires
            groups::none_empty(groups::by_name(old(self).names())),
            names_countable(old(self).information, groups::by_name(old(self).names())),
        ensures
            *final(self) == (DuplicateFinder {
                information: with_names_counted(
                    old(self).information,
                    groups::by_name(old(self).names()),
                ),
                ..*old(self)
            }),
    {
        let list: Vec<(&String, &Vec<FileEntry>)> = listing::list_by_name(
            &self.files_with_identical_names,
        );
        assert(list@.len() == groups::by_name(self.names()).len());
        proof {
            groups::lemma_extra_files_grow(groups::by_name(self.names()), 0);
        }
        let groups_found: usize = list.len();
        let files_found: usize = listing::count_extra_named(&list).unwrap();
        self.information.number_of_duplicated_files_by_name =
        self.information.number_of_duplicated_files_by_name + files_found;
        self.information.number_of_groups_by_name = self.information.number_of_groups_by_name
            + groups_found;
    }

    /// Whether the groups by size can be counted.
    pub fn can_count_sizes(&self) -> (r: bool)
        requires
            groups::none_empty(groups::by_size(self.sizes())),
        ensures
            r == sizes_countable(self.information, groups::by_size(self.sizes())),
    {
        let list: Vec<(u64, &Vec<FileEntry>)> = listing::list_by_size(
            &self.files_with_identical_size,
        );
        assert(list@.len() == groups::by_size(self.sizes()).len());
        proof {
            lemma_counts_not_negative(groups::by_size(self.sizes()));
        }
        match listing::count_extra_sized(&list) {
            Some((files, space)) => files <= usize::MAX
                - self.information.number_of_duplicated_files_by_size && list.len() <= usize::MAX
                - self.information.number_of_groups_by_size && space <= u64::MAX
                - self.information.lost_space_by_size,
            None => false,
        }
    }

    /// Counts the groups by size.
    pub fn count_sizes(&mut self)
        requires
            groups::none_empty(groups::by_size(old(self).sizes())),
            sizes_countable(old(self).information, groups::by_size(old(self).sizes())),
        ensures
            *final(self) == (DuplicateFinder {
                information: with_sizes_counted(
                    old(self).information,
                    groups::by_size(old(self).sizes()),
                ),
                ..*old(self)
            }),
    {
        let list: Vec<(u64, &Vec<FileEntry>)> = listing::list_by_size(
            &self.files_with_identical_size,
        );
        assert(list@.len() == groups::by_size(self.sizes()).len());
        proof {
            lemma_counts_not_negative(groups::by_size(self.sizes()));
        }
        let groups_found: usize = list.len();
        let (files_found, space): (usize, u64) = listing::count_extra_sized(&list).unwrap();
        self.information.number_of_duplicated_files_by_size =
        self.information.number_of_duplicated_files_by_size + files_found;
        self.information.number_of_groups_by_size = self.information.number_of_groups_by_size
            + groups_found;
        self.information.lost_space_by_size = self.information.lost_space_by_size + space;
    }

    /// Whether the groups by hash can be counted.
    pub fn can_count_hashes(&self) -> (r: bool)
        requires
            self.wf(),
        ensures
            r == hashes_countable(self.information, groups::by_hash(self.hashes())),
    {
        let list: Vec<(u64, &Vec<FileEntry>)> = listing::list_by_hash(
            &self.files_with_identical_hashes,
        );
        assert(list@.len() == groups::by_hash(self.hashes()).len());
        proof {
            lemma_hash_groups_are_large(self.hashes());
            lemma_counts_not_negative(groups::by_hash(self.hashes()));
        }
        match listing::count_extra_sized(&list) {
            Some((files, space)) => files <= usize::MAX
                - self.information.number_of_duplicated_files_by_hash && list.len() <= usize::MAX
                - self.information.number_of_groups_by_hash && space <= u64::MAX
                - self.information.lost_space_by_hash,
            None => false,
        }
    }

    /// Counts the groups by hash. The files by size are not needed any more, and
    /// are dropped.
    pub fn finish_files_hash(&mut self)
        requires
            old(self).wf(),
            hashes_countable(old(self).information, groups::by_hash(old(self).hashes())),
        ensures
            final(self).sizes() == Map::<u64, Seq<FileView>>::empty(),
            *final(self) == (DuplicateFinder {
                information: with_hashes_counted(
                    old(self).information,
                    groups::by_hash(old(self).hashes()),
                ),
                files_with_identical_size: final(self).files_with_identical_size,
                ..*old(self)
            }),
            final(self).wf(),
    {
        let list: Vec<(u64, &Vec<FileEntry>)> = listing::list_by_hash(
            &self.files_with_identical_hashes,
        );
        assert(list@.len() == groups::by_hash(self.hashes()).len());
        proof {
            lemma_hash_groups_are_large(self.hashes());
            lemma_counts_not_negative(groups::by_hash(self.hashes()));
        }
        let groups_found: usize = list.len();
        let (files_found, space): (usize, u64) = listing::count_extra_sized(&list).unwrap();
        self.information.number_of_duplicated_files_by_hash =
        self.information.number_of_duplicated_files_by_hash + files_found;
        self.information.number_of_groups_by_hash = self.information.number_of_groups_by_hash
            + groups_found;
        self.information.lost_space_by_hash = self.information.lost_space_by_hash + space;
        self.files_with_identical_size = BTreeMap::new();
        assert(self.sizes() =~= Map::<u64, Seq<FileView>>::empty());
    }
}

impl DuplicateFinder {
    /// Ends a search by name: leaves out the files whose name no other file has, and
    /// counts the groups. Returns whether they could be counted.
    pub fn finish_files_name(&mut self) -> (r: bool)
        ensures
            final(self).names() == groups::duplicated(old(self).names()),
            groups::all_large(groups::by_name(final(self).names())),
            r == names_countable(old(self).information, groups::by_name(final(self).names())),
            *final(self) == (DuplicateFinder {
                files_with_identical_names: final(self).files_with_identical_names,
                information: if r {
                    with_names_counted(
                        old(self).information,
                        groups::by_name(final(self).names()),
                    )
                } else {
                    old(self).information
                },
                ..*old(self)
            }),
    {
        self.keep_identical_names();
        if !self.can_count_names() {
            return false;
        }
        self.count_names();
        true
    }

    /// Ends the comparison by size: leaves out the files whose size no other file
    /// has, and counts the groups. Returns whether they could be counted.
    pub fn finish_files_size(&mut self) -> (r: bool)
        ensures
            final(self).sizes() == groups::duplicated(old(self).sizes()),
            groups::all_large(groups::by_size(final(self).sizes())),
            r == sizes_countable(old(self).information, groups::by_size(final(self).sizes())),
            *final(self) == (DuplicateFinder {
                files_with_identical_size: final(self).files_with_identical_size,
                information: if r {
                    with_sizes_counted(
                        old(self).information,
                        groups::by_size(final(self).sizes()),
                    )
                } else {
                    old(self).information
                },
                ..*old(self)
            }),
            old(self).wf() ==> final(self).wf(),
    {
        self.keep_identical_sizes();
        if !self.can_count_sizes() {
            return false;
        }
        self.count_sizes();
        true
    }
}

// ---------------------------------------------------------------------------
// Testing the results
// ---------------------------------------------------------------------------

/// All files are of one size.
pub open spec fn all_of_size(files: Seq<FileView>, size: u64) -> bool {
    forall|i: int| 0 <= i < files.len() ==> (#[trigger] files[i]).size == size
}

/// Whether all files are of one size.
pub fn are_of_size(files: &Vec<FileEntry>, size: u64) -> (r: bool)
    ensures
        r == all_of_size(files.deep_view(), size),
{
    let ghost fv = files.deep_view();
    let mut i: usize = 0;
    while i < files.len()
        invariant
            i <= files.len(),
            fv == files.deep_view(),
            forall|j: int| 0 <= j < i ==> (#[trigger] fv[j]).size == size,
        decreases files.len() - i,
    {
        assert(fv[i as int].size == files@[i as int].size);
        if files[i].size != size {
            return false;
        }
        i += 1;
    }
    true
}

/// Whether each file stands under its own size.
pub fn is_filed_by_size(m: &BTreeMap<u64, Vec<FileEntry>>) -> (r: bool)
    ensures
        r == finder::filed_by_size(grouping::contents(m@)),
{
    let ghost c = grouping::contents(m@);
    let keys: Vec<u64> = grouping::keys_in_order(m);
    let mut i: usize = 0;
    while i < keys.len()
        invariant
            i <= keys.len(),
            c == grouping::contents(m@),
            grouping::lists_keys(keys@, m@),
            forall|n: int| 0 <= n < i ==> all_of_size(c[#[trigger] keys@[n]], keys@[n]),
        decreases keys.len() - i,
    {
        let k: u64 = keys[i];
        assert(keys@.contains(k));
        if let Some(files) = m.get(&k) {
            if !are_of_size(files, k) {
                proof {
                    let n = choose|n: int| 0 <= n < c[k].len() && (#[trigger] c[k][n]).size != k;
                    assert(c.contains_key(k) && c[k][n].size != k);
                }
                return false;
            }
        }
        i += 1;
    }
    proof {
        assert forall|k: u64, n: int| c.contains_key(k) && 0 <= n < c[k].len() implies (
        #[trigger] c[k][n]).size == k by {
            assert(keys@.contains(k));
            let j = choose|j: int| 0 <= j < keys@.len() && keys@[j] == k;
            assert(all_of_size(c[keys@[j]], keys@[j]));
        }
    }
    true
}

/// Whether each group holds at least two files, and they stand under their size.
fn are_groups_filed_by_size(m: &BTreeMap<u64, Vec<Vec<FileEntry>>>) -> (r: bool)
    ensures
        r == finder::groups_filed_by_size(grouping::contents(m@)),
{
    let ghost c = grouping::contents(m@);
    let keys: Vec<u64> = grouping::keys_in_order(m);
    let mut i: usize = 0;
    while i < keys.len()
        invariant
            i <= keys.len(),
            c == grouping::contents(m@),
            grouping::lists_keys(keys@, m@),
            forall|n: int, g: int|
                0 <= n < i && 0 <= g < c[keys@[n]].len() ==> finder::is_group_of_size(
                    #[trigger] c[keys@[n]][g],
                    keys@[n],
                ),
        decreases keys.len() - i,
    {
        let k: u64 = keys[i];
        assert(keys@.contains(k));
        if let Some(groups) = m.get(&k) {
            let ghost gv = groups.deep_view();
            let mut j: usize = 0;
            while j < groups.len()
                invariant
                    j <= groups.len(),
                    gv == groups.deep_view(),
                    gv == c[k],
                    c == grouping::contents(m@),
                    c.contains_key(k),
                    forall|g: int|
                        0 <= g < j ==> finder::is_group_of_size(#[trigger] gv[g], k),
                decreases groups.len() - j,
            {
                assert(gv[j as int] == groups@[j as int].deep_view());
                let holds: bool = groups[j].len() > 1 && are_of_size(&groups[j], k);
                assert(holds == finder::is_group_of_size(gv[j as int], k));
                if !holds {
                    assert(!finder::is_group_of_size(c[k][j as int], k));
                    return false;
                }
                j += 1;
            }
        }
        i += 1;
    }
    proof {
        assert forall|k: u64, g: int| c.contains_key(k) && 0 <= g < c[k].len() implies
            finder::is_group_of_size(#[trigger] c[k][g], k) by {
            assert(keys@.contains(k));
            let j = choose|j: int| 0 <= j < keys@.len() && keys@[j] == k;
            assert(finder::is_group_of_size(c[keys@[j]][g], keys@[j]));
        }
    }
    true
}

impl DuplicateFinder {
    /// Whether the finder is as its own functions leave it.
    pub fn is_well_formed(&self) -> (r: bool)
        ensures
            r == self.wf(),
    {
        self.minimal_file_size > 0 && is_filed_by_size(&self.files_with_identical_size)
            && are_groups_filed_by_size(&self.files_with_identical_hashes)
    }
}

// ---------------------------------------------------------------------------
// Laws
// ---------------------------------------------------------------------------

/// After a search by name, its statistics have grown by the number of groups and by the
/// number of files that are too many, and by nothing else.
pub proof fn law_names_are_counted(info: Info, groups: Seq<(Seq<char>, Seq<FileView>)>)
    requires
        groups::none_empty(groups),
    ensures
        names_countable(info, groups) <==> info.number_of_groups_by_name + groups.len()
            <= usize::MAX && info.number_of_duplicated_files_by_name + groups::extra_files(groups)
            <= usize::MAX,
        names_countable(info, groups) ==> ({
            let after = with_names_counted(info, groups);
            &&& after.number_of_groups_by_name == info.number_of_groups_by_name + groups.len()
            &&& after.number_of_duplicated_files_by_name == info.number_of_duplicated_files_by_name
                + groups::extra_files(groups)
            &&& after == (Info {
                number_of_groups_by_name: after.number_of_groups_by_name,
                number_of_duplicated_files_by_name: after.number_of_duplicated_files_by_name,
                ..info
            })
        }),
{
    groups::lemma_extra_files_grow(groups, 0);
    assert(groups.take(0) =~= Seq::empty());
}

/// After a search by size, its statistics have grown by the number of groups, by the
/// number of files that are too many and by their space, and by nothing else.
pub proof fn law_sizes_are_counted(info: Info, groups: Seq<(u64, Seq<FileView>)>)
    requires
        groups::none_empty(groups),
    ensures
        sizes_countable(info, groups) <==> info.number_of_groups_by_size + groups.len()
            <= usize::MAX && info.number_of_duplicated_files_by_size + groups::extra_files(groups)
            <= usize::MAX && info.lost_space_by_size + groups::lost_space(groups) <= u64::MAX,
        sizes_countable(info, groups) ==> ({
            let after = with_sizes_counted(info, groups);
            &&& after.number_of_groups_by_size == info.number_of_groups_by_size + groups.len()
            &&& after.number_of_duplicated_files_by_size == info.number_of_duplicated_files_by_size
                + groups::extra_files(groups)
            &&& after.lost_space_by_size == info.lost_space_by_size + groups::lost_space(groups)
            &&& after == (Info {
                number_of_groups_by_size: after.number_of_groups_by_size,
                number_of_duplicated_files_by_size: after.number_of_duplicated_files_by_size,
                lost_space_by_size: after.lost_space_by_size,
                ..info
            })
        }),
{
    groups::lemma_extra_files_grow(groups, 0);
    groups::lemma_lost_space_grows(groups, 0);
    assert(groups.take(0) =~= Seq::empty());
}

/// After a search by hash, its statistics have grown by the number of groups, by the
/// number of files that are too many and by their space, and by nothing else.
pub proof fn law_hashes_are_counted(info: Info, groups: Seq<(u64, Seq<FileView>)>)
    requires
        groups::none_empty(groups),
    ensures
        hashes_countable(info, groups) <==> info.number_of_groups_by_hash + groups.len()
            <= usize::MAX && info.number_of_duplicated_files_by_hash + groups::extra_files(groups)
            <= usize::MAX && info.lost_space_by_hash + groups::lost_space(groups) <= u64::MAX,
        hashes_countable(info, groups) ==> ({
            let after = with_hashes_counted(info, groups);
            &&& after.number_of_groups_by_hash == info.number_of_groups_by_hash + groups.len()
            &&& after.number_of_duplicated_files_by_hash == info.number_of_duplicated_files_by_hash
                + groups::extra_files(groups)
            &&& after.lost_space_by_hash == info.lost_space_by_hash + groups::lost_space(groups)
            &&& after == (Info {
                number_of_groups_by_hash: after.number_of_groups_by_hash,
                number_of_duplicated_files_by_hash: after.number_of_duplicated_files_by_hash,
                lost_space_by_hash: after.lost_space_by_hash,
                ..info
            })
        }),
{
    groups::lemma_extra_files_grow(groups, 0);
    groups::lemma_lost_space_grows(groups, 0);
    assert(groups.take(0) =~= Seq::empty());
}

/// Files are of a size if each of them is.
pub proof fn law_files_of_one_size(files: Seq<FileView>, size: u64)
    ensures
        all_of_size(files, size) <==> forall|i: int|
            0 <= i < files.len() ==> (#[trigger] files[i]).size == size,
{
}

} // verus!
