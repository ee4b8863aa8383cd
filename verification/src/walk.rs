//! A whole walk through folders.
use crate::finder::DuplicateFinder;
use crate::grouping;
use crate::model::{FileView, PathView};
use crate::scan;
use crate::scan::ListedEntry;
use vstd::prelude::*;
use vstd::seq_lib::*;

verus! {

impl DuplicateFinder {
    /// The folders that are still to be looked through after some were: `visits`
    /// holds the entries of each, in the order in which they were looked through.
    pub open spec fn left_after(
        &self,
        start: Seq<PathView>,
        visits: Seq<Seq<ListedEntry>>,
    ) -> Seq<PathView>
        decreases visits.len(),
    {
        if visits.len() == 0 {
            start
        } else {
            self.left_after(start, visits.drop_last()).drop_last() + self.followed(visits.last())
        }
    }

    /// The folders that were looked through: each time the last of those left.
    pub open spec fn visited(
        &self,
        start: Seq<PathView>,
        visits: Seq<Seq<ListedEntry>>,
    ) -> Seq<PathView>
        decreases visits.len(),
    {
        if visits.len() == 0 {
            Seq::empty()
        } else {
            self.visited(start, visits.drop_last()).push(
                self.left_after(start, visits.drop_last()).last(),
            )
        }
    }

    /// Whenever a folder was looked through, there was one left.
    pub open spec fn is_walk(&self, start: Seq<PathView>, visits: Seq<Seq<ListedEntry>>) -> bool {
        forall|n: int|
            0 <= n < visits.len() ==> (#[trigger] self.left_after(start, visits.take(n))).len() > 0
    }

    /// The files that were taken in on a walk, each beside its name.
    pub open spec fn taken_on(&self, visits: Seq<Seq<ListedEntry>>) -> Seq<(Seq<char>, FileView)>
        decreases visits.len(),
    {
        if visits.len() == 0 {
            Seq::empty()
        } else {
            self.taken_on(visits.drop_last()) + self.taken(visits.last())
        }
    }

    /// The folders that were followed on a walk.
    pub open spec fn followed_on(&self, visits: Seq<Seq<ListedEntry>>) -> Seq<PathView>
        decreases visits.len(),
    {
        if visits.len() == 0 {
            Seq::empty()
        } else {
            self.followed_on(visits.drop_last()) + self.followed(visits.last())
        }
    }

    /// The files by name after a walk, folder by folder.
    pub open spec fn names_after(
        &self,
        names: Map<Seq<char>, Seq<FileView>>,
        visits: Seq<Seq<ListedEntry>>,
    ) -> Map<Seq<char>, Seq<FileView>>
        decreases visits.len(),
    {
        if visits.len() == 0 {
            names
        } else {
            grouping::extended(
                self.names_after(names, visits.drop_last()),
                self.taken(visits.last()),
            )
        }
    }

    /// The files by size after a walk, folder by folder.
    pub open spec fn sizes_after(
        &self,
        sizes: Map<u64, Seq<FileView>>,
        visits: Seq<Seq<ListedEntry>>,
    ) -> Map<u64, Seq<FileView>>
        decreases visits.len(),
    {
        if visits.len() == 0 {
            sizes
        } else {
            grouping::extended(
                self.sizes_after(sizes, visits.drop_last()),
                scan::by_own_size(self.taken(visits.last())),
            )
        }
    }
}

/// At any time of a walk, the folders that it began in and those that were
/// followed are those that were looked through and those that are left, each as
/// often as it was met.
pub proof fn law_no_folder_is_lost(
    finder: DuplicateFinder,
    start: Seq<PathView>,
    visits: Seq<Seq<ListedEntry>>,
)
    requires
        finder.is_walk(start, visits),
    ensures
        finder.visited(start, visits).len() == visits.len(),
        finder.visited(start, visits).to_multiset().add(
            finder.left_after(start, visits).to_multiset(),
        ) =~= start.to_multiset().add(finder.followed_on(visits).to_multiset()),
    decreases visits.len(),
{
    broadcast use group_to_multiset_ensures;

    if visits.len() > 0 {
        let init = visits.drop_last();
        assert forall|n: int| 0 <= n < init.len() implies (
        #[trigger] finder.left_after(start, init.take(n))).len() > 0 by {
            assert(init.take(n) =~= visits.take(n));
        }
        law_no_folder_is_lost(finder, start, init);
        let left = finder.left_after(start, init);
        assert(visits.take(visits.len() - 1) =~= init);
        assert(left.len() > 0);
        assert(left =~= left.drop_last().push(left.last()));
        let more = finder.followed(visits.last());
        lemma_multiset_commutative(left.drop_last(), more);
        lemma_multiset_commutative(finder.followed_on(init), more);
        let looked = finder.visited(start, init);
        assert(looked.push(left.last()).to_multiset() =~= looked.to_multiset().insert(left.last()));
        assert(left.drop_last().push(left.last()).to_multiset()
            =~= left.drop_last().to_multiset().insert(left.last()));
        assert(finder.visited(start, visits).to_multiset().add(
            finder.left_after(start, visits).to_multiset(),
        ) =~= looked.to_multiset().add(left.to_multiset()).add(more.to_multiset()));
    } else {
        let none: Seq<PathView> = Seq::empty();
        none.to_multiset_ensures();
        assert(none.to_multiset() =~= vstd::multiset::Multiset::empty());
    }
}

/// When no folder is left, every folder that the walk began in or followed was
/// looked through once for each time it was met, and the results are the files
/// that were taken in from all of them.
pub proof fn law_whole_walk(
    finder: DuplicateFinder,
    start: Seq<PathView>,
    visits: Seq<Seq<ListedEntry>>,
)
    requires
        finder.is_walk(start, visits),
        finder.left_after(start, visits).len() == 0,
    ensures
        finder.visited(start, visits).len() == visits.len(),
        finder.visited(start, visits).to_multiset() =~= (start + finder.followed_on(
            visits,
        )).to_multiset(),
        finder.names_after(Map::empty(), visits) == grouping::gathered(finder.taken_on(visits)),
        finder.sizes_after(Map::empty(), visits) == grouping::gathered(
            scan::by_own_size(finder.taken_on(visits)),
        ),
{
    broadcast use group_to_multiset_ensures;

    law_no_folder_is_lost(finder, start, visits);
    assert(finder.left_after(start, visits) =~= Seq::empty());
    lemma_multiset_commutative(start, finder.followed_on(visits));
    law_walk_files_all(finder, visits);
}

/// What was filed folder by folder is what was taken in from all folders.
pub proof fn law_walk_files_all(finder: DuplicateFinder, visits: Seq<Seq<ListedEntry>>)
    ensures
        finder.names_after(Map::empty(), visits) == grouping::gathered(finder.taken_on(visits)),
        finder.sizes_after(Map::empty(), visits) == grouping::gathered(
            scan::by_own_size(finder.taken_on(visits)),
        ),
    decreases visits.len(),
{
    if visits.len() == 0 {
        grouping::lemma_extended_by_nothing(Map::<Seq<char>, Seq<FileView>>::empty());
        grouping::lemma_extended_by_nothing(Map::<u64, Seq<FileView>>::empty());
        assert(scan::by_own_size(Seq::empty()) =~= Seq::empty());
    } else {
        let init = visits.drop_last();
        let before = finder.taken_on(init);
        let more = finder.taken(visits.last());
        law_walk_files_all(finder, init);
        grouping::lemma_extended_twice(Map::<Seq<char>, Seq<FileView>>::empty(), before, more);
        grouping::lemma_extended_twice(
            Map::<u64, Seq<FileView>>::empty(),
            scan::by_own_size(before),
            scan::by_own_size(more),
        );
        assert(scan::by_own_size(before) + scan::by_own_size(more) =~= scan::by_own_size(
            before + more,
        ));
    }
}

/// Both searches look for the same files: they differ at most in what they
/// compare them by and in what they do with duplicates.
pub open spec fn look_alike(a: DuplicateFinder, b: DuplicateFinder) -> bool {
    &&& a.allowed_extensions.file_extensions.deep_view()
        == b.allowed_extensions.file_extensions.deep_view()
    &&& a.minimal_file_size == b.minimal_file_size
    &&& a.recursive_search == b.recursive_search
}

/// What is taken in, followed and said depends on the settings that say which
/// files to look for, and on nothing else: not on what files are compared by.
pub proof fn law_settings_decide(
    a: DuplicateFinder,
    b: DuplicateFinder,
    folder: Seq<char>,
    entries: Seq<ListedEntry>,
)
    requires
        look_alike(a, b),
    ensures
        a.taken(entries) == b.taken(entries),
        a.followed(entries) == b.followed(entries),
        a.all_warnings(folder, entries) == b.all_warnings(folder, entries),
    decreases entries.len(),
{
    if entries.len() > 0 {
        law_settings_decide(a, b, folder, entries.drop_last());
    }
}

/// Searches that look for the same files find the same files by size on the same
/// walk.
pub proof fn law_sizes_agree(
    a: DuplicateFinder,
    b: DuplicateFinder,
    sizes: Map<u64, Seq<FileView>>,
    visits: Seq<Seq<ListedEntry>>,
)
    requires
        look_alike(a, b),
    ensures
        a.sizes_after(sizes, visits) == b.sizes_after(sizes, visits),
    decreases visits.len(),
{
    if visits.len() > 0 {
        law_sizes_agree(a, b, sizes, visits.drop_last());
        law_settings_decide(a, b, Seq::empty(), visits.last());
    }
}

} // verus!
