//! Which files of a group are removed, and what is told of it.
use crate::counting;
use crate::finder::DuplicateFinder;
use crate::grouping;
use crate::groups;
use crate::listing;
use crate::model::{CheckingMethod, DeleteMethod, FileEntry, FileView, Info};
use crate::text;
use crate::textmap;
use vstd::prelude::*;
use vstd::string::*;

verus! {

// ---------------------------------------------------------------------------
// The oldest and the newest file
// ---------------------------------------------------------------------------

/// Among the files that have the date of file `i`, that file counts: it is the
/// first of them, or the last where the date is zero, which stands for a time
/// before the epoch.
pub open spec fn counts_among_equals(files: Seq<FileView>, i: int) -> bool {
    if files[i].modified_date == 0 {
        forall|j: int| i < j < files.len() ==> (#[trigger] files[j]).modified_date != 0
    } else {
        forall|j: int|
            0 <= j < i ==> (#[trigger] files[j]).modified_date != files[i].modified_date
    }
}

/// `i` is the place of the oldest file: the one that counts among those with the
/// least date.
pub open spec fn is_oldest(files: Seq<FileView>, i: int) -> bool {
    &&& 0 <= i < files.len()
    &&& forall|j: int|
        0 <= j < files.len() ==> files[i].modified_date <= (#[trigger] files[j]).modified_date
    &&& counts_among_equals(files, i)
}

/// `i` is the place of the newest file: the one that counts among those with the
/// greatest date.
pub open spec fn is_newest(files: Seq<FileView>, i: int) -> bool {
    &&& 0 <= i < files.len()
    &&& forall|j: int|
        0 <= j < files.len() ==> (#[trigger] files[j]).modified_date <= files[i].modified_date
    &&& counts_among_equals(files, i)
}

/// The place of the oldest file.
pub open spec fn oldest_index(files: Seq<FileView>) -> int {
    choose|i: int| is_oldest(files, i)
}

/// The place of the newest file.
pub open spec fn newest_index(files: Seq<FileView>) -> int {
    choose|i: int| is_newest(files, i)
}

proof fn lemma_oldest_unique(files: Seq<FileView>, i: int)
    requires
        is_oldest(files, i),
    ensures
        oldest_index(files) == i,
{
    let j = oldest_index(files);
    assert(is_oldest(files, j));
    assert(files[i].modified_date <= files[j].modified_date);
    assert(files[j].modified_date <= files[i].modified_date);
}

proof fn lemma_newest_unique(files: Seq<FileView>, i: int)
    requires
        is_newest(files, i),
    ensures
        newest_index(files) == i,
{
    let j = newest_index(files);
    assert(is_newest(files, j));
    assert(files[i].modified_date <= files[j].modified_date);
    assert(files[j].modified_date <= files[i].modified_date);
}

proof fn lemma_oldest_step(files: Seq<FileView>, i: int, next: FileView)
    requires
        is_oldest(files, i),
    ensures
        is_oldest(
            files.push(next),
            if files[i].modified_date > next.modified_date || next.modified_date == 0 {
                files.len() as int
            } else {
                i
            },
        ),
{
    let more = files.push(next);
    assert forall|j: int| 0 <= j < files.len() implies #[trigger] more[j] == files[j] by {}
    assert(forall|j: int| 0 <= j < files.len() ==> files[i].modified_date <= (
    #[trigger] more[j]).modified_date);
}

proof fn lemma_newest_step(files: Seq<FileView>, i: int, next: FileView)
    requires
        is_newest(files, i),
    ensures
        is_newest(
            files.push(next),
            if files[i].modified_date == 0 || files[i].modified_date < next.modified_date {
                files.len() as int
            } else {
                i
            },
        ),
{
    let more = files.push(next);
    assert forall|j: int| 0 <= j < files.len() implies #[trigger] more[j] == files[j] by {}
    assert(forall|j: int| 0 <= j < files.len() ==> (#[trigger] more[j]).modified_date
        <= files[i].modified_date);
}

/// The place of the oldest file.
fn find_oldest(files: &Vec<FileEntry>) -> (r: usize)
    requires
        files@.len() > 0,
    ensures
        is_oldest(files.deep_view(), r as int),
        r == oldest_index(files.deep_view()),
        r < files@.len(),
{
    let ghost fv = files.deep_view();
    let mut q_index: usize = 0;
    let mut q_time: u64 = 0;
    let mut i: usize = 0;
    while i < files.len()
        invariant
            i <= files.len(),
            fv == files.deep_view(),
            i > 0 ==> is_oldest(fv.take(i as int), q_index as int),
            i > 0 ==> q_index < i && q_time == fv[q_index as int].modified_date,
        decreases files.len() - i,
    {
        let date: u64 = files[i].modified_date;
        proof {
            let taken = fv.take(i as int);
            let next = fv[i as int];
            assert(fv.take(i + 1) =~= taken.push(next));
            if i == 0 {
                assert(is_oldest(fv.take(1), 0));
            } else {
                lemma_oldest_step(taken, q_index as int, next);
            }
        }
        if i == 0 || q_time > date || date == 0 {
            q_time = date;
            q_index = i;
        }
        i += 1;
    }
    proof {
        assert(fv.take(files@.len() as int) =~= fv);
        lemma_oldest_unique(fv, q_index as int);
    }
    q_index
}

/// The place of the newest file.
fn find_newest(files: &Vec<FileEntry>) -> (r: usize)
    requires
        files@.len() > 0,
    ensures
        is_newest(files.deep_view(), r as int),
        r == newest_index(files.deep_view()),
        r < files@.len(),
{
    let ghost fv = files.deep_view();
    let mut q_index: usize = 0;
    let mut q_time: u64 = 0;
    let mut i: usize = 0;
    while i < files.len()
        invariant
            i <= files.len(),
            fv == files.deep_view(),
            i == 0 ==> q_time == 0,
            i > 0 ==> is_newest(fv.take(i as int), q_index as int),
            i > 0 ==> q_index < i && q_time == fv[q_index as int].modified_date,
        decreases files.len() - i,
    {
        let date: u64 = files[i].modified_date;
        proof {
            let taken = fv.take(i as int);
            let next = fv[i as int];
            assert(fv.take(i + 1) =~= taken.push(next));
            if i == 0 {
                assert(is_newest(fv.take(1), 0));
            } else {
                lemma_newest_step(taken, q_index as int, next);
            }
        }
        if q_time == 0 || q_time < date {
            q_time = date;
            q_index = i;
        }
        i += 1;
    }
    proof {
        assert(fv.take(files@.len() as int) =~= fv);
        lemma_newest_unique(fv, q_index as int);
    }
    q_index
}

// ---------------------------------------------------------------------------
// One group
// ---------------------------------------------------------------------------

/// Every place below `n` but `kept`, in order.
pub open spec fn all_but(n: nat, kept: int) -> Seq<usize> {
    Seq::new(
        (n - 1) as nat,
        |i: int|
            if i < kept {
                i as usize
            } else {
                (i + 1) as usize
            },
    )
}

/// The places of the files of a group that are removed, in order.
pub open spec fn removed_places(files: Seq<FileView>, method: DeleteMethod) -> Seq<usize> {
    match method {
        DeleteMethod::DoNothing => Seq::empty(),
        DeleteMethod::OneOldest => seq![oldest_index(files) as usize],
        DeleteMethod::OneNewest => seq![newest_index(files) as usize],
        DeleteMethod::AllExceptOldest => all_but(files.len(), oldest_index(files)),
        DeleteMethod::AllExceptNewest => all_but(files.len(), newest_index(files)),
        DeleteMethod::HardLink => all_but(files.len(), oldest_index(files)),
    }
}

/// The files of a group that are to be removed.
pub struct RemovalPlan {
    /// Their places in the group.
    pub places: Vec<usize>,
    /// The place of the file that each of them is to become a link to.
    pub link_to: Option<usize>,
}

fn places_but(n: usize, kept: usize) -> (r: Vec<usize>)
    requires
        kept < n,
    ensures
        r@ == all_but(n as nat, kept as int),
{
    let mut r: Vec<usize> = Vec::new();
    let mut i: usize = 0;
    while i < n
        invariant
            i <= n,
            kept < n,
            r@ =~= all_but(n as nat, kept as int).take(if i <= kept {
                i as int
            } else {
                i - 1
            }),
        decreases n - i,
    {
        if i != kept {
            r.push(i);
        }
        i += 1;
    }
    assert(all_but(n as nat, kept as int).take(n - 1) =~= all_but(n as nat, kept as int));
    r
}

/// Decides which files of a group of duplicates are removed.
pub fn plan_removal(files: &Vec<FileEntry>, method: &DeleteMethod) -> (r: RemovalPlan)
    requires
        files@.len() > 1,
    ensures
        r.places@ == removed_places(files.deep_view(), *method),
        forall|i: int| 0 <= i < r.places@.len() ==> (#[trigger] r.places@[i]) < files@.len(),
        match r.link_to {
            Some(place) => *method == DeleteMethod::HardLink && place == oldest_index(
                files.deep_view(),
            ) && place < files@.len(),
            None => *method != DeleteMethod::HardLink,
        },
        r.link_to matches Some(place) ==> !r.places@.contains(place) && forall|j: int|
            0 <= j < files@.len() ==> files@[place as int].modified_date <= (
            #[trigger] files@[j]).modified_date,
{
    match method {
        DeleteMethod::DoNothing => RemovalPlan { places: Vec::new(), link_to: None },
        DeleteMethod::OneOldest => {
            let mut places: Vec<usize> = Vec::new();
            places.push(find_oldest(files));
            assert(places@ =~= removed_places(files.deep_view(), *method));
            RemovalPlan { places, link_to: None }
        },
        DeleteMethod::OneNewest => {
            let mut places: Vec<usize> = Vec::new();
            places.push(find_newest(files));
            assert(places@ =~= removed_places(files.deep_view(), *method));
            RemovalPlan { places, link_to: None }
        },
        DeleteMethod::AllExceptOldest => {
            let kept: usize = find_oldest(files);
            RemovalPlan { places: places_but(files.len(), kept), link_to: None }
        },
        DeleteMethod::AllExceptNewest => {
            let kept: usize = find_newest(files);
            RemovalPlan { places: places_but(files.len(), kept), link_to: None }
        },
        DeleteMethod::HardLink => {
            let kept: usize = find_oldest(files);
            let n: usize = files.len();
            proof {
                lemma_all_but(n as nat, kept as int, kept as int);
                assert forall|j: int|
                    0 <= j < files@.len() implies files@[kept as int].modified_date <= (
                #[trigger] files@[j]).modified_date by {
                    assert(files.deep_view()[j] == files@[j]@);
                }
            }
            RemovalPlan { places: places_but(n, kept), link_to: Some(kept) }
        },
    }
}

/// The space gained by those removals that succeeded.
pub open spec fn gained_space(
    files: Seq<FileView>,
    places: Seq<usize>,
    removed: Seq<bool>,
) -> int
    decreases places.len(),
{
    if places.len() == 0 {
        0
    } else {
        gained_space(files, places.drop_last(), removed.drop_last()) + (if removed.last() {
            files[places.last() as int].size as int
        } else {
            0
        })
    }
}

/// How many of `removed` are `which`.
pub open spec fn count_of(removed: Seq<bool>, which: bool) -> nat
    decreases removed.len(),
{
    if removed.len() == 0 {
        0
    } else {
        count_of(removed.drop_last(), which) + (if removed.last() == which {
            1nat
        } else {
            0nat
        })
    }
}

/// What is said of a file that could not be removed.
pub open spec fn failure_text(
    files: Seq<FileView>,
    method: DeleteMethod,
    place: usize,
) -> Seq<char> {
    let path = files[place as int].path.text;
    match method {
        DeleteMethod::HardLink => "Failed to link "@ + path + " -> "@
            + files[oldest_index(files)].path.text,
        _ => "Failed to delete "@ + path,
    }
}

/// What is said of the removals that failed.
pub open spec fn failure_texts(
    files: Seq<FileView>,
    method: DeleteMethod,
    places: Seq<usize>,
    removed: Seq<bool>,
) -> Seq<Seq<char>>
    decreases places.len(),
{
    if places.len() == 0 {
        Seq::empty()
    } else {
        let before = failure_texts(files, method, places.drop_last(), removed.drop_last());
        if removed.last() {
            before
        } else {
            before.push(failure_text(files, method, places.last()))
        }
    }
}

proof fn lemma_gained_space_grows(
    files: Seq<FileView>,
    places: Seq<usize>,
    removed: Seq<bool>,
    n: int,
)
    requires
        places.len() == removed.len(),
        0 <= n <= places.len(),
    ensures
        0 <= gained_space(files, places.take(n), removed.take(n)) <= gained_space(
            files,
            places,
            removed,
        ),
    decreases places.len(),
{
    if places.len() == 0 {
        assert(places.take(n) =~= places);
        assert(removed.take(n) =~= removed);
    } else if n == places.len() {
        assert(places.take(n) =~= places);
        assert(removed.take(n) =~= removed);
        lemma_gained_space_grows(files, places.drop_last(), removed.drop_last(), 0);
        assert(places.drop_last().take(0) =~= Seq::empty());
    } else {
        lemma_gained_space_grows(files, places.drop_last(), removed.drop_last(), n);
        assert(places.drop_last().take(n) =~= places.take(n));
        assert(removed.drop_last().take(n) =~= removed.take(n));
    }
}

/// The space gained by the removals in one group, if it fits in a machine word.
pub fn space_gained(files: &Vec<FileEntry>, method: &DeleteMethod, removed: &Vec<bool>) -> (r:
    Option<u64>)
    requires
        files@.len() > 1,
        removed@.len() == removed_places(files.deep_view(), *method).len(),
    ensures
        ({
            let gained = gained_space(
                files.deep_view(),
                removed_places(files.deep_view(), *method),
                removed@,
            );
            match r {
                Some(space) => space == gained,
                None => gained > u64::MAX,
            }
        }),
{
    let plan: RemovalPlan = plan_removal(files, method);
    let ghost fv = files.deep_view();
    let ghost places = plan.places@;
    let mut sum: u64 = 0;
    let mut i: usize = 0;
    while i < removed.len()
        invariant
            i <= removed.len(),
            fv == files.deep_view(),
            places == plan.places@,
            places == removed_places(fv, *method),
            places.len() == removed@.len(),
            forall|k: int| 0 <= k < places.len() ==> (#[trigger] places[k]) < files@.len(),
            sum == gained_space(fv, places.take(i as int), removed@.take(i as int)),
        decreases removed.len() - i,
    {
        proof {
            assert(places.take(i + 1).drop_last() =~= places.take(i as int));
            assert(places.take(i + 1).last() == places[i as int]);
            assert(removed@.take(i + 1).drop_last() =~= removed@.take(i as int));
            assert(removed@.take(i + 1).last() == removed@[i as int]);
            lemma_gained_space_grows(fv, places, removed@, i + 1);
        }
        if removed[i] {
            let size: u64 = files[plan.places[i]].size;
            if size > u64::MAX - sum {
                return None;
            }
            sum = sum + size;
        }
        i += 1;
    }
    assert(places.take(removed@.len() as int) =~= places);
    assert(removed@.take(removed@.len() as int) =~= removed@);
    Some(sum)
}

/// Tells of the removals in one group. `removed` says of each place of the plan
/// whether it succeeded. Returns the space gained, the number of files removed and
/// the number of those that could not be.
pub fn delete_files(
    files: &Vec<FileEntry>,
    method: &DeleteMethod,
    removed: &Vec<bool>,
    warnings: &mut Vec<String>,
) -> (r: (u64, usize, usize))
    requires
        files@.len() > 1,
        removed@.len() == removed_places(files.deep_view(), *method).len(),
        gained_space(files.deep_view(), removed_places(files.deep_view(), *method), removed@)
            <= u64::MAX,
    ensures
        r.0 == gained_space(
            files.deep_view(),
            removed_places(files.deep_view(), *method),
            removed@,
        ),
        r.1 == count_of(removed@, true),
        r.2 == count_of(removed@, false),
        final(warnings).deep_view() == old(warnings).deep_view() + failure_texts(
            files.deep_view(),
            *method,
            removed_places(files.deep_view(), *method),
            removed@,
        ),
{
    let plan: RemovalPlan = plan_removal(files, method);
    proof {
        lemma_gained_space_grows(files.deep_view(), plan.places@, removed@, 0);
    }
    let gained: u64 = space_gained(files, method, removed).unwrap();
    let ghost fv = files.deep_view();
    let ghost places = plan.places@;
    let ghost before = warnings.deep_view();
    let mut successes: usize = 0;
    let mut failures: usize = 0;
    let mut i: usize = 0;
    assert(before + Seq::<Seq<char>>::empty() =~= before);
    while i < removed.len()
        invariant
            i <= removed.len(),
            fv == files.deep_view(),
            places == plan.places@,
            places.len() == removed@.len(),
            forall|k: int| 0 <= k < places.len() ==> (#[trigger] places[k]) < files@.len(),
            match plan.link_to {
                Some(place) => *method == DeleteMethod::HardLink && place == oldest_index(fv)
                    && place < files@.len(),
                None => *method != DeleteMethod::HardLink,
            },
            successes + failures == i,
            successes == count_of(removed@.take(i as int), true),
            failures == count_of(removed@.take(i as int), false),
            warnings.deep_view() == before + failure_texts(
                fv,
                *method,
                places.take(i as int),
                removed@.take(i as int),
            ),
        decreases removed.len() - i,
    {
        let ghost said = warnings.deep_view();
        proof {
            assert(places.take(i + 1).drop_last() =~= places.take(i as int));
            assert(places.take(i + 1).last() == places[i as int]);
            assert(removed@.take(i + 1).drop_last() =~= removed@.take(i as int));
            assert(removed@.take(i + 1).last() == removed@[i as int]);
        }
        if removed[i] {
            successes = successes + 1;
        } else {
            failures = failures + 1;
            let path: &str = files[plan.places[i]].path.text.as_str();
            let warning: String = match plan.link_to {
                Some(place) => {
                    let start: String = text::join("Failed to link ", path);
                    let middle: String = text::join(start.as_str(), " -> ");
                    text::join(middle.as_str(), files[place].path.text.as_str())
                },
                None => text::join("Failed to delete ", path),
            };
            proof {
                assert(warning@ == failure_text(fv, *method, places[i as int]));
            }
            warnings.push(warning);
            assert(warnings.deep_view() =~= said.push(warning@));
            assert(said.push(warning@) =~= before + failure_texts(
                fv,
                *method,
                places.take(i + 1),
                removed@.take(i + 1),
            ));
        }
        i += 1;
    }
    assert(places.take(removed@.len() as int) =~= places);
    assert(removed@.take(removed@.len() as int) =~= removed@);
    (gained, successes, failures)
}

// ---------------------------------------------------------------------------
// All groups
// ---------------------------------------------------------------------------

impl DuplicateFinder {
    /// The groups of duplicates that the search found, in order.
    pub open spec fn found_groups(&self) -> Seq<Seq<FileView>> {
        match self.check_method {
            CheckingMethod::Name => groups::by_name(self.names()).map_values(
                |g: (Seq<char>, Seq<FileView>)| g.1,
            ),
            CheckingMethod::Size => groups::by_size(self.sizes()).map_values(
                |g: (u64, Seq<FileView>)| g.1,
            ),
            CheckingMethod::Hash | CheckingMethod::HashMB => groups::by_hash(
                self.hashes(),
            ).map_values(|g: (u64, Seq<FileView>)| g.1),
            CheckingMethod::NotSet => Seq::empty(),
        }
    }
}

impl DuplicateFinder {
    /// Single files have been left out of the results.
    pub open spec fn has_duplicates_alone(&self) -> bool {
        match self.check_method {
            CheckingMethod::Name => groups::all_large(groups::by_name(self.names())),
            CheckingMethod::Size => groups::all_large(groups::by_size(self.sizes())),
            _ => self.wf(),
        }
    }
}

/// `removed` says of each file that is to be removed from each group whether that
/// succeeded.
pub open spec fn tells_of(
    groups: Seq<Seq<FileView>>,
    method: DeleteMethod,
    removed: Seq<Seq<bool>>,
) -> bool {
    &&& removed.len() == groups.len()
    &&& forall|i: int|
        0 <= i < groups.len() ==> (#[trigger] removed[i]).len() == removed_places(
            groups[i],
            method,
        ).len()
}

/// Each group holds at least two files.
pub open spec fn are_duplicates(groups: Seq<Seq<FileView>>) -> bool {
    forall|i: int| 0 <= i < groups.len() ==> (#[trigger] groups[i]).len() > 1
}

/// The space gained in all groups.
pub open spec fn total_gained(
    groups: Seq<Seq<FileView>>,
    method: DeleteMethod,
    removed: Seq<Seq<bool>>,
) -> int
    decreases groups.len(),
{
    if groups.len() == 0 {
        0
    } else {
        total_gained(groups.drop_last(), method, removed.drop_last()) + gained_space(
            groups.last(),
            removed_places(groups.last(), method),
            removed.last(),
        )
    }
}

/// How many of all removals ended as `which`.
pub open spec fn total_count(removed: Seq<Seq<bool>>, which: bool) -> nat
    decreases removed.len(),
{
    if removed.len() == 0 {
        0
    } else {
        total_count(removed.drop_last(), which) + count_of(removed.last(), which)
    }
}

/// What is said of all removals that failed.
pub open spec fn all_failures(
    groups: Seq<Seq<FileView>>,
    method: DeleteMethod,
    removed: Seq<Seq<bool>>,
) -> Seq<Seq<char>>
    decreases groups.len(),
{
    if groups.len() == 0 {
        Seq::empty()
    } else {
        all_failures(groups.drop_last(), method, removed.drop_last()) + failure_texts(
            groups.last(),
            method,
            removed_places(groups.last(), method),
            removed.last(),
        )
    }
}

/// The numbers about removals after those of all groups were counted.
pub open spec fn with_removals_counted(
    info: Info,
    groups: Seq<Seq<FileView>>,
    method: DeleteMethod,
    removed: Seq<Seq<bool>>,
) -> Info {
    Info {
        gained_space: (info.gained_space + total_gained(groups, method, removed)) as u64,
        number_of_removed_files: (info.number_of_removed_files + total_count(
            removed,
            true,
        )) as usize,
        number_of_failed_to_remove_files: (info.number_of_failed_to_remove_files + total_count(
            removed,
            false,
        )) as usize,
        ..info
    }
}

/// The numbers about removals stay within a machine word.
pub open spec fn removals_countable(
    info: Info,
    groups: Seq<Seq<FileView>>,
    method: DeleteMethod,
    removed: Seq<Seq<bool>>,
) -> bool {
    &&& info.gained_space + total_gained(groups, method, removed) <= u64::MAX
    &&& info.number_of_removed_files + total_count(removed, true) <= usize::MAX
    &&& info.number_of_failed_to_remove_files + total_count(removed, false) <= usize::MAX
}

proof fn lemma_totals_grow(
    groups: Seq<Seq<FileView>>,
    method: DeleteMethod,
    removed: Seq<Seq<bool>>,
    n: int,
)
    requires
        tells_of(groups, method, removed),
        0 <= n <= groups.len(),
    ensures
        0 <= total_gained(groups.take(n), method, removed.take(n)) <= total_gained(
            groups,
            method,
            removed,
        ),
        total_count(removed.take(n), true) <= total_count(removed, true),
        total_count(removed.take(n), false) <= total_count(removed, false),
    decreases groups.len(),
{
    if groups.len() == 0 {
        assert(groups.take(n) =~= groups);
        assert(removed.take(n) =~= removed);
    } else {
        let last = groups.len() - 1;
        assert(removed[last].len() == removed_places(groups[last], method).len());
        lemma_gained_space_grows(
            groups.last(),
            removed_places(groups.last(), method),
            removed.last(),
            0,
        );
        assert(tells_of(groups.drop_last(), method, removed.drop_last())) by {
            assert forall|i: int| 0 <= i < groups.drop_last().len() implies (
            #[trigger] removed.drop_last()[i]).len() == removed_places(
                groups.drop_last()[i],
                method,
            ).len() by {
                assert(removed[i].len() == removed_places(groups[i], method).len());
            }
        }
        if n == groups.len() {
            assert(groups.take(n) =~= groups);
            assert(removed.take(n) =~= removed);
            lemma_totals_grow(groups.drop_last(), method, removed.drop_last(), 0);
            assert(groups.drop_last().take(0) =~= Seq::empty());
        } else {
            lemma_totals_grow(groups.drop_last(), method, removed.drop_last(), n);
            assert(groups.drop_last().take(n) =~= groups.take(n));
            assert(removed.drop_last().take(n) =~= removed.take(n));
        }
    }
}

/// How many of `removed` are `which`.
fn count(removed: &Vec<bool>, which: bool) -> (r: usize)
    ensures
        r == count_of(removed@, which),
{
    let mut r: usize = 0;
    let mut i: usize = 0;
    while i < removed.len()
        invariant
            i <= removed.len(),
            r <= i,
            r == count_of(removed@.take(i as int), which),
        decreases removed.len() - i,
    {
        if removed[i] == which {
            r = r + 1;
        }
        i += 1;
        proof {
            assert(removed@.take(i as int).drop_last() =~= removed@.take(i - 1));
        }
    }
    assert(removed@.take(removed@.len() as int) =~= removed@);
    r
}

impl DuplicateFinder {
    /// The groups of duplicates that the search found, in order.
    pub fn list_found_groups(&self) -> (r: Vec<&Vec<FileEntry>>)
        ensures
            r.deep_view() == self.found_groups(),
            self.has_duplicates_alone() ==> are_duplicates(self.found_groups()),
    {
        let mut r: Vec<&Vec<FileEntry>> = Vec::new();
        let mut i: usize = 0;
        assert(r.deep_view() =~= self.found_groups().take(0));
        match self.check_method {
            CheckingMethod::Name => {
                let list: Vec<(&String, &Vec<FileEntry>)> = listing::list_by_name(
                    &self.files_with_identical_names,
                );
                assert(list@.len() == self.found_groups().len());
                while i < list.len()
                    invariant
                        i <= list.len(),
                        self.check_method == CheckingMethod::Name,
                        listing::named_list(list@) == groups::by_name(self.names()),
                        r.deep_view() == self.found_groups().take(i as int),
                    decreases list.len() - i,
                {
                    let ghost before = r.deep_view();
                    assert(listing::named_list(list@)[i as int].1 == list@[i as int].1.deep_view());
                    r.push(list[i].1);
                    i += 1;
                    assert(r.deep_view() =~= before.push(list@[i - 1].1.deep_view()));
                    assert(self.found_groups().take(i as int) =~= before.push(
                        self.found_groups()[i - 1],
                    ));
                }
            },
            CheckingMethod::Size => {
                let list: Vec<(u64, &Vec<FileEntry>)> = listing::list_by_size(
                    &self.files_with_identical_size,
                );
                assert(list@.len() == self.found_groups().len());
                while i < list.len()
                    invariant
                        i <= list.len(),
                        self.check_method == CheckingMethod::Size,
                        listing::sized_list(list@) == groups::by_size(self.sizes()),
                        r.deep_view() == self.found_groups().take(i as int),
                    decreases list.len() - i,
                {
                    let ghost before = r.deep_view();
                    assert(listing::sized_list(list@)[i as int].1 == list@[i as int].1.deep_view());
                    r.push(list[i].1);
                    i += 1;
                    assert(r.deep_view() =~= before.push(list@[i - 1].1.deep_view()));
                    assert(self.found_groups().take(i as int) =~= before.push(
                        self.found_groups()[i - 1],
                    ));
                }
            },
            CheckingMethod::Hash | CheckingMethod::HashMB => {
                let list: Vec<(u64, &Vec<FileEntry>)> = listing::list_by_hash(
                    &self.files_with_identical_hashes,
                );
                proof {
                    if self.wf() {
                        counting::lemma_hash_groups_are_large(self.hashes());
                    }
                }
                assert(list@.len() == self.found_groups().len());
                while i < list.len()
                    invariant
                        i <= list.len(),
                        self.check_method == CheckingMethod::Hash || self.check_method
                            == CheckingMethod::HashMB,
                        listing::sized_list(list@) == groups::by_hash(self.hashes()),
                        r.deep_view() == self.found_groups().take(i as int),
                    decreases list.len() - i,
                {
                    let ghost before = r.deep_view();
                    assert(listing::sized_list(list@)[i as int].1 == list@[i as int].1.deep_view());
                    r.push(list[i].1);
                    i += 1;
                    assert(r.deep_view() =~= before.push(list@[i - 1].1.deep_view()));
                    assert(self.found_groups().take(i as int) =~= before.push(
                        self.found_groups()[i - 1],
                    ));
                }
            },
            CheckingMethod::NotSet => {},
        }
        assert(self.found_groups().take(self.found_groups().len() as int) =~= self.found_groups());
        r
    }

    /// Whether the removals can be counted.
    pub fn can_count_removals(&self, removed: &Vec<Vec<bool>>) -> (r: bool)
        requires
            are_duplicates(self.found_groups()),
            tells_of(self.found_groups(), self.delete_method, removed.deep_view()),
        ensures
            r == removals_countable(
                self.information,
                self.found_groups(),
                self.delete_method,
                removed.deep_view(),
            ),
    {
        let list: Vec<&Vec<FileEntry>> = self.list_found_groups();
        let ghost gs = self.found_groups();
        let ghost rv = removed.deep_view();
        let method: DeleteMethod = self.delete_method;
        let mut gained: u64 = self.information.gained_space;
        let mut successes: usize = self.information.number_of_removed_files;
        let mut failures: usize = self.information.number_of_failed_to_remove_files;
        let mut i: usize = 0;
        while i < list.len()
            invariant
                i <= list.len(),
                gs == list.deep_view(),
                gs == self.found_groups(),
                rv == removed.deep_view(),
                method == self.delete_method,
                are_duplicates(gs),
                tells_of(gs, method, rv),
                gained == self.information.gained_space + total_gained(
                    gs.take(i as int),
                    method,
                    rv.take(i as int),
                ),
                successes == self.information.number_of_removed_files + total_count(
                    rv.take(i as int),
                    true,
                ),
                failures == self.information.number_of_failed_to_remove_files + total_count(
                    rv.take(i as int),
                    false,
                ),
            decreases list.len() - i,
        {
            proof {
                assert(gs[i as int].len() > 1);
                assert(rv[i as int] =~= removed@[i as int]@);
                assert(gs.take(i + 1).drop_last() =~= gs.take(i as int));
                assert(gs.take(i + 1).last() == gs[i as int]);
                assert(rv.take(i + 1).drop_last() =~= rv.take(i as int));
                assert(rv.take(i + 1).last() == rv[i as int]);
                lemma_totals_grow(gs, method, rv, i + 1);
                lemma_totals_grow(gs, method, rv, i as int);
            }
            let more: u64 = match space_gained(list[i], &method, &removed[i]) {
                Some(more) => more,
                None => {
                    return false;
                },
            };
            let more_successes: usize = count(&removed[i], true);
            let more_failures: usize = count(&removed[i], false);
            if more > u64::MAX - gained || more_successes > usize::MAX - successes || more_failures
                > usize::MAX - failures {
                return false;
            }
            gained = gained + more;
            successes = successes + more_successes;
            failures = failures + more_failures;
            i += 1;
        }
        assert(gs.take(list@.len() as int) =~= gs);
        assert(rv.take(list@.len() as int) =~= rv);
        true
    }

    /// Tells of the removals in all groups.
    pub fn delete_files(&mut self, removed: &Vec<Vec<bool>>)
        requires
            old(self).delete_method != DeleteMethod::DoNothing ==> {
                &&& old(self).check_method != CheckingMethod::NotSet
                &&& are_duplicates(old(self).found_groups())
                &&& tells_of(
                    old(self).found_groups(),
                    old(self).delete_method,
                    removed.deep_view(),
                )
                &&& removals_countable(
                    old(self).information,
                    old(self).found_groups(),
                    old(self).delete_method,
                    removed.deep_view(),
                )
            },
        ensures
            old(self).delete_method == DeleteMethod::DoNothing ==> *final(self) == *old(self),
            old(self).delete_method != DeleteMethod::DoNothing ==> {
                &&& final(self).warnings() == old(self).warnings() + all_failures(
                    old(self).found_groups(),
                    old(self).delete_method,
                    removed.deep_view(),
                )
                &&& final(self).messages() == old(self).messages()
                &&& final(self).errors() == old(self).errors()
                &&& *final(self) == (DuplicateFinder {
                    text_messages: final(self).text_messages,
                    information: with_removals_counted(
                        old(self).information,
                        old(self).found_groups(),
                        old(self).delete_method,
                        removed.deep_view(),
                    ),
                    ..*old(self)
                })
            },
    {
        if self.delete_method == DeleteMethod::DoNothing {
            return;
        }
        let method: DeleteMethod = self.delete_method;
        let ghost gs = self.found_groups();
        let ghost rv = removed.deep_view();
        let mut warnings: Vec<String> = Vec::new();
        let mut gained: u64 = self.information.gained_space;
        let mut successes: usize = self.information.number_of_removed_files;
        let mut failures: usize = self.information.number_of_failed_to_remove_files;
        let list: Vec<&Vec<FileEntry>> = self.list_found_groups();
        let mut i: usize = 0;
        assert(warnings.deep_view() =~= Seq::empty());
        while i < list.len()
            invariant
                i <= list.len(),
                gs == list.deep_view(),
                rv == removed.deep_view(),
                are_duplicates(gs),
                tells_of(gs, method, rv),
                removals_countable(self.information, gs, method, rv),
                warnings.deep_view() == all_failures(gs.take(i as int), method, rv.take(i as int)),
                gained == self.information.gained_space + total_gained(
                    gs.take(i as int),
                    method,
                    rv.take(i as int),
                ),
                successes == self.information.number_of_removed_files + total_count(
                    rv.take(i as int),
                    true,
                ),
                failures == self.information.number_of_failed_to_remove_files + total_count(
                    rv.take(i as int),
                    false,
                ),
            decreases list.len() - i,
        {
            proof {
                assert(gs[i as int].len() > 1);
                assert(rv[i as int] =~= removed@[i as int]@);
                assert(gs.take(i + 1).drop_last() =~= gs.take(i as int));
                assert(gs.take(i + 1).last() == gs[i as int]);
                assert(rv.take(i + 1).drop_last() =~= rv.take(i as int));
                assert(rv.take(i + 1).last() == rv[i as int]);
                lemma_totals_grow(gs, method, rv, i + 1);
                lemma_totals_grow(gs, method, rv, i as int);
            }
            let (space, done, failed): (u64, usize, usize) = crate::removal::delete_files(
                list[i],
                &method,
                &removed[i],
                &mut warnings,
            );
            gained = gained + space;
            successes = successes + done;
            failures = failures + failed;
            i += 1;
        }
        assert(gs.take(list@.len() as int) =~= gs);
        assert(rv.take(list@.len() as int) =~= rv);
        let ghost before = self.warnings();
        let ghost said = warnings.deep_view();
        self.information.gained_space = gained;
        self.information.number_of_removed_files = successes;
        self.information.number_of_failed_to_remove_files = failures;
        self.text_messages.warnings.append(&mut warnings);
        assert(self.warnings() =~= before + said);
    }
}

// ---------------------------------------------------------------------------
// Laws
// ---------------------------------------------------------------------------

proof fn lemma_oldest_exists(files: Seq<FileView>)
    requires
        files.len() > 0,
    ensures
        is_oldest(files, oldest_index(files)),
        0 <= oldest_index(files) < files.len(),
    decreases files.len(),
{
    if files.len() == 1 {
        assert(is_oldest(files, 0));
    } else {
        lemma_oldest_exists(files.drop_last());
        lemma_oldest_step(files.drop_last(), oldest_index(files.drop_last()), files.last());
        assert(files.drop_last().push(files.last()) =~= files);
    }
}

proof fn lemma_newest_exists(files: Seq<FileView>)
    requires
        files.len() > 0,
    ensures
        is_newest(files, newest_index(files)),
        0 <= newest_index(files) < files.len(),
    decreases files.len(),
{
    if files.len() == 1 {
        assert(is_newest(files, 0));
    } else {
        lemma_newest_exists(files.drop_last());
        lemma_newest_step(files.drop_last(), newest_index(files.drop_last()), files.last());
        assert(files.drop_last().push(files.last()) =~= files);
    }
}

/// Whatever the method, a group of duplicates keeps a file: some place is not
/// among those that are removed, and none is removed twice.
pub proof fn law_a_file_is_kept(files: Seq<FileView>, method: DeleteMethod)
    requires
        1 < files.len() <= usize::MAX,
    ensures
        removed_places(files, method).no_duplicates(),
        exists|kept: int|
            0 <= kept < files.len() && !#[trigger] removed_places(files, method).contains(
                kept as usize,
            ),
{
    lemma_oldest_exists(files);
    lemma_newest_exists(files);
    let places = removed_places(files, method);
    let kept = match method {
        DeleteMethod::DoNothing => 0int,
        DeleteMethod::OneOldest => if oldest_index(files) == 0 {
            1int
        } else {
            0int
        },
        DeleteMethod::OneNewest => if newest_index(files) == 0 {
            1int
        } else {
            0int
        },
        DeleteMethod::AllExceptNewest => newest_index(files),
        _ => oldest_index(files),
    };
    assert(!places.contains(kept as usize));
}

/// `AllExceptOldest`, `AllExceptNewest` and `HardLink` remove every file of a group
/// but one: the oldest or the newest.
pub proof fn law_all_but_one_are_removed(files: Seq<FileView>, place: int)
    requires
        1 < files.len() <= usize::MAX,
        0 <= place < files.len(),
    ensures
        removed_places(files, DeleteMethod::AllExceptOldest).contains(place as usize) <==> place
            != oldest_index(files),
        removed_places(files, DeleteMethod::HardLink).contains(place as usize) <==> place
            != oldest_index(files),
        removed_places(files, DeleteMethod::AllExceptNewest).contains(place as usize) <==> place
            != newest_index(files),
{
    lemma_oldest_exists(files);
    lemma_newest_exists(files);
    lemma_all_but(files.len(), oldest_index(files), place);
    lemma_all_but(files.len(), newest_index(files), place);
}

proof fn lemma_all_but(n: nat, kept: int, place: int)
    requires
        1 < n <= usize::MAX,
        0 <= kept < n,
        0 <= place < n,
    ensures
        all_but(n, kept).contains(place as usize) <==> place != kept,
{
    let s = all_but(n, kept);
    if place < kept {
        assert(s[place] == place as usize);
    } else if place > kept {
        assert(s[place - 1] == place as usize);
    }
}

/// The oldest file is one with the least date, and the newest one with the greatest.
pub proof fn law_dates_decide(files: Seq<FileView>, place: int)
    requires
        files.len() > 0,
        0 <= place < files.len(),
    ensures
        0 <= oldest_index(files) < files.len(),
        0 <= newest_index(files) < files.len(),
        files[oldest_index(files)].modified_date <= files[place].modified_date,
        files[newest_index(files)].modified_date >= files[place].modified_date,
{
    lemma_oldest_exists(files);
    lemma_newest_exists(files);
}

/// Each removal that was tried either succeeded or failed.
pub proof fn law_removals_add_up(removed: Seq<bool>)
    ensures
        count_of(removed, true) + count_of(removed, false) == removed.len(),
    decreases removed.len(),
{
    if removed.len() > 0 {
        law_removals_add_up(removed.drop_last());
    }
}

/// `OneOldest` removes exactly one file, and no file of the group has a lesser date.
/// Of several with that date it is the first, or the last where the date is zero.
pub proof fn law_one_oldest_is_removed(files: Seq<FileView>)
    requires
        1 < files.len() <= usize::MAX,
    ensures
        ({
            let places = removed_places(files, DeleteMethod::OneOldest);
            let place = places[0] as int;
            &&& places.len() == 1
            &&& 0 <= place < files.len()
            &&& forall|j: int|
                0 <= j < files.len() ==> files[place].modified_date <= (
                #[trigger] files[j]).modified_date
            &&& files[place].modified_date != 0 ==> forall|j: int|
                0 <= j < place ==> (#[trigger] files[j]).modified_date != files[place].modified_date
            &&& files[place].modified_date == 0 ==> forall|j: int|
                place < j < files.len() ==> (#[trigger] files[j]).modified_date != 0
        }),
{
    lemma_oldest_exists(files);
}

/// `OneNewest` removes exactly one file, and no file of the group has a greater date.
/// Of several with that date it is the first, or the last where the date is zero.
pub proof fn law_one_newest_is_removed(files: Seq<FileView>)
    requires
        1 < files.len() <= usize::MAX,
    ensures
        ({
            let places = removed_places(files, DeleteMethod::OneNewest);
            let place = places[0] as int;
            &&& places.len() == 1
            &&& 0 <= place < files.len()
            &&& forall|j: int|
                0 <= j < files.len() ==> (#[trigger] files[j]).modified_date
                    <= files[place].modified_date
            &&& files[place].modified_date != 0 ==> forall|j: int|
                0 <= j < place ==> (#[trigger] files[j]).modified_date != files[place].modified_date
            &&& files[place].modified_date == 0 ==> forall|j: int|
                place < j < files.len() ==> (#[trigger] files[j]).modified_date != 0
        }),
{
    lemma_newest_exists(files);
}

/// What `OneOldest` removes is what `AllExceptOldest` and `HardLink` keep, and what
/// `OneNewest` removes is what `AllExceptNewest` keeps: the places that they remove
/// are all the others, in order. `DoNothing` removes none.
pub proof fn law_methods_are_opposites(files: Seq<FileView>)
    requires
        1 < files.len() <= usize::MAX,
    ensures
        removed_places(files, DeleteMethod::DoNothing).len() == 0,
        removed_places(files, DeleteMethod::AllExceptOldest) == Seq::new(
            files.len(),
            |i: int| i as usize,
        ).filter(|p: usize| p != removed_places(files, DeleteMethod::OneOldest)[0]),
        removed_places(files, DeleteMethod::HardLink) == removed_places(
            files,
            DeleteMethod::AllExceptOldest,
        ),
        removed_places(files, DeleteMethod::AllExceptNewest) == Seq::new(
            files.len(),
            |i: int| i as usize,
        ).filter(|p: usize| p != removed_places(files, DeleteMethod::OneNewest)[0]),
        removed_places(files, DeleteMethod::AllExceptOldest).len() == files.len() - 1,
        removed_places(files, DeleteMethod::AllExceptNewest).len() == files.len() - 1,
{
    lemma_oldest_exists(files);
    lemma_newest_exists(files);
    lemma_others(files.len(), files.len(), oldest_index(files));
    lemma_others(files.len(), files.len(), newest_index(files));
    let oldest = oldest_index(files) as usize;
    let newest = newest_index(files) as usize;
    assert((|p: usize| p != removed_places(files, DeleteMethod::OneOldest)[0]) =~= (|p: usize|
        p != oldest));
    assert((|p: usize| p != removed_places(files, DeleteMethod::OneNewest)[0]) =~= (|p: usize|
        p != newest));
    assert(Seq::new(files.len(), |i: int| i as usize).take(files.len() as int) =~= Seq::new(
        files.len(),
        |i: int| i as usize,
    ));
    assert(all_but(files.len(), oldest_index(files)).take(files.len() - 1) =~= all_but(
        files.len(),
        oldest_index(files),
    ));
    assert(all_but(files.len(), newest_index(files)).take(files.len() - 1) =~= all_but(
        files.len(),
        newest_index(files),
    ));
}

proof fn lemma_others(n: nat, i: nat, kept: int)
    requires
        i <= n <= usize::MAX,
        0 <= kept < n,
    ensures
        Seq::new(n, |j: int| j as usize).take(i as int).filter(|p: usize| p != kept as usize)
            == all_but(n, kept).take(
            if i <= kept {
                i as int
            } else {
                i - 1
            },
        ),
    decreases i,
{
    reveal(Seq::filter);
    let s = Seq::new(n, |j: int| j as usize);
    let now = s.take(i as int).filter(|p: usize| p != kept as usize);
    if i == 0 {
        assert(now =~= Seq::empty());
        assert(all_but(n, kept).take(0) =~= Seq::empty());
    } else {
        lemma_others(n, (i - 1) as nat, kept);
        assert(s.take(i as int).drop_last() =~= s.take(i - 1));
        let before = all_but(n, kept).take(
            if i - 1 <= kept {
                i - 1
            } else {
                i - 2
            },
        );
        if i - 1 != kept {
            assert(now == before.push((i - 1) as usize));
            if i <= kept {
                assert(before.push((i - 1) as usize) =~= all_but(n, kept).take(i as int));
            } else {
                assert(before.push((i - 1) as usize) =~= all_but(n, kept).take(i - 1));
            }
        }
    }
}

/// The space gained is the sum of the sizes of the files whose removal succeeded: with
/// one removal more it grows by the size of that file, or not at all if it failed.
pub proof fn law_gained_space_is_that_of_removed_files(
    files: Seq<FileView>,
    places: Seq<usize>,
    removed: Seq<bool>,
    place: usize,
    succeeded: bool,
)
    requires
        places.len() == removed.len(),
    ensures
        gained_space(files, Seq::empty(), Seq::empty()) == 0,
        gained_space(files, places.push(place), removed.push(succeeded)) == gained_space(
            files,
            places,
            removed,
        ) + (if succeeded {
            files[place as int].size as int
        } else {
            0
        }),
{
    assert(places.push(place).drop_last() =~= places);
    assert(removed.push(succeeded).drop_last() =~= removed);
}

/// How many removals succeeded or failed is how often that stands among the results.
pub proof fn law_removals_are_counted(removed: Seq<bool>, which: bool)
    ensures
        count_of(removed, which) == removed.filter(|b: bool| b == which).len(),
    decreases removed.len(),
{
    reveal(Seq::filter);
    if removed.len() > 0 {
        law_removals_are_counted(removed.drop_last(), which);
    }
}

/// Of each removal that failed, and of no other, one thing is said, in order.
pub proof fn law_failed_removals_are_told(
    files: Seq<FileView>,
    method: DeleteMethod,
    places: Seq<usize>,
    removed: Seq<bool>,
    place: usize,
    succeeded: bool,
)
    requires
        places.len() == removed.len(),
    ensures
        failure_texts(files, method, Seq::empty(), Seq::empty()).len() == 0,
        failure_texts(files, method, places.push(place), removed.push(succeeded)) == failure_texts(
            files,
            method,
            places,
            removed,
        ) + (if succeeded {
            Seq::empty()
        } else {
            seq![failure_text(files, method, place)]
        }),
{
    assert(places.push(place).drop_last() =~= places);
    assert(removed.push(succeeded).drop_last() =~= removed);
    let before = failure_texts(files, method, places, removed);
    assert(before + Seq::<Seq<char>>::empty() =~= before);
    assert(before + seq![failure_text(files, method, place)] =~= before.push(
        failure_text(files, method, place),
    ));
}

/// What is said of a file that could not be removed names its path, and for a link
/// also that of the oldest file, which it was to become a link to.
pub proof fn law_failure_names_the_file(files: Seq<FileView>, method: DeleteMethod, place: usize)
    requires
        1 < files.len() <= usize::MAX,
    ensures
        method != DeleteMethod::HardLink ==> failure_text(files, method, place)
            == "Failed to delete "@ + files[place as int].path.text,
        method == DeleteMethod::HardLink ==> failure_text(files, method, place)
            == "Failed to link "@ + files[place as int].path.text + " -> "@ + files[removed_places(
            files,
            DeleteMethod::OneOldest,
        )[0] as int].path.text,
{
    lemma_oldest_exists(files);
}

/// The numbers about the removals of all groups are the sums of those of each group,
/// and what is said of them stands group by group.
pub proof fn law_groups_are_counted_one_by_one(
    groups: Seq<Seq<FileView>>,
    method: DeleteMethod,
    removed: Seq<Seq<bool>>,
    group: Seq<FileView>,
    outcome: Seq<bool>,
    which: bool,
)
    requires
        groups.len() == removed.len(),
    ensures
        total_gained(Seq::empty(), method, Seq::empty()) == 0,
        total_gained(groups.push(group), method, removed.push(outcome)) == total_gained(
            groups,
            method,
            removed,
        ) + gained_space(group, removed_places(group, method), outcome),
        total_count(Seq::empty(), which) == 0,
        total_count(removed.push(outcome), which) == total_count(removed, which) + outcome.filter(
            |b: bool| b == which,
        ).len(),
        all_failures(Seq::empty(), method, Seq::empty()).len() == 0,
        all_failures(groups.push(group), method, removed.push(outcome)) == all_failures(
            groups,
            method,
            removed,
        ) + failure_texts(group, method, removed_places(group, method), outcome),
{
    assert(groups.push(group).drop_last() =~= groups);
    assert(removed.push(outcome).drop_last() =~= removed);
    law_removals_are_counted(outcome, which);
}

/// The statistics grow by the numbers about the removals, and in nothing else.
pub proof fn law_removals_are_added_to_statistics(
    info: Info,
    groups: Seq<Seq<FileView>>,
    method: DeleteMethod,
    removed: Seq<Seq<bool>>,
)
    requires
        removals_countable(info, groups, method, removed),
        tells_of(groups, method, removed),
    ensures
        ({
            let after = with_removals_counted(info, groups, method, removed);
            &&& after.gained_space == info.gained_space + total_gained(groups, method, removed)
            &&& after.number_of_removed_files == info.number_of_removed_files + total_count(
                removed,
                true,
            )
            &&& after.number_of_failed_to_remove_files == info.number_of_failed_to_remove_files
                + total_count(removed, false)
            &&& after == (Info {
                gained_space: after.gained_space,
                number_of_removed_files: after.number_of_removed_files,
                number_of_failed_to_remove_files: after.number_of_failed_to_remove_files,
                ..info
            })
        }),
{
    lemma_totals_grow(groups, method, removed, 0);
    assert(groups.take(0) =~= Seq::empty());
}

/// The groups of a search by name are those that share a name, one for each name, in
/// the order of the names.
pub proof fn law_groups_found_by_name(finder: DuplicateFinder)
    requires
        finder.check_method == CheckingMethod::Name,
    ensures
        finder.found_groups().len() == textmap::keys_of(finder.names()).len(),
        forall|i: int|
            0 <= i < finder.found_groups().len() ==> #[trigger] finder.found_groups()[i]
                == finder.names()[textmap::keys_of(finder.names())[i]],
{
}

/// The groups of a search by size are those that share a size, one for each size, in
/// ascending order.
pub proof fn law_groups_found_by_size(finder: DuplicateFinder)
    requires
        finder.check_method == CheckingMethod::Size,
    ensures
        finder.found_groups().len() == grouping::keys_of(finder.sizes()).len(),
        forall|i: int|
            0 <= i < finder.found_groups().len() ==> #[trigger] finder.found_groups()[i]
                == finder.sizes()[grouping::keys_of(finder.sizes())[i]],
{
}

/// The groups of a search by hash are those under each size, size by size.
pub proof fn law_groups_found_by_hash(finder: DuplicateFinder)
    requires
        finder.check_method == CheckingMethod::Hash || finder.check_method
            == CheckingMethod::HashMB,
    ensures
        finder.found_groups() == grouping::keys_of(finder.hashes()).map_values(
            |k: u64| finder.hashes()[k],
        ).flatten(),
{
    let m = finder.hashes();
    let keys = grouping::keys_of(m);
    lemma_hash_lists(keys, m);
}

proof fn lemma_hash_lists(keys: Seq<u64>, m: Map<u64, Seq<Seq<FileView>>>)
    ensures
        groups::lists_under(keys, m).map_values(|g: (u64, Seq<FileView>)| g.1) == keys.map_values(
            |k: u64| m[k],
        ).flatten(),
    decreases keys.len(),
{
    let f = |k: u64| m[k];
    let second = |g: (u64, Seq<FileView>)| g.1;
    let parts = keys.map_values(f);
    if keys.len() == 0 {
        assert(parts =~= Seq::empty());
        assert(groups::lists_under(keys, m).map_values(second) =~= Seq::empty());
    } else {
        let init = keys.drop_last();
        let k = keys.last();
        lemma_hash_lists(init, m);
        assert(parts.drop_last() =~= init.map_values(f));
        parts.drop_last().lemma_flatten_push(parts.last());
        assert(parts.drop_last().push(parts.last()) =~= parts);
        let tail = m[k].map_values(|g: Seq<FileView>| (k, g));
        assert(groups::lists_under(keys, m).map_values(second) =~= groups::lists_under(
            init,
            m,
        ).map_values(second) + m[k]);
    }
}

/// The removals can be counted if every number stays within a machine word.
pub proof fn law_when_removals_can_be_counted(
    info: Info,
    groups: Seq<Seq<FileView>>,
    method: DeleteMethod,
    removed: Seq<Seq<bool>>,
)
    ensures
        removals_countable(info, groups, method, removed) <==> info.gained_space + total_gained(
            groups,
            method,
            removed,
        ) <= u64::MAX && info.number_of_removed_files + total_count(removed, true) <= usize::MAX
            && info.number_of_failed_to_remove_files + total_count(removed, false) <= usize::MAX,
{
}

/// What is told of removals has one answer for each file that is to be removed from each
/// group of at least two files.
pub proof fn law_each_removal_has_an_answer(
    groups: Seq<Seq<FileView>>,
    method: DeleteMethod,
    removed: Seq<Seq<bool>>,
)
    ensures
        tells_of(groups, method, removed) <==> removed.len() == groups.len() && forall|i: int|
            0 <= i < groups.len() ==> (#[trigger] removed[i]).len() == removed_places(
                groups[i],
                method,
            ).len(),
        are_duplicates(groups) <==> forall|i: int|
            0 <= i < groups.len() ==> (#[trigger] groups[i]).len() >= 2,
{
}

} // verus!
