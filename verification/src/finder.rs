//! The finder of duplicated files: its settings, its results and its course.
use crate::grouping;
use crate::model::{
    CheckingMethod, DeleteMethod, Directories, ExcludedItems, Extensions, FileEntry, FilePath,
    FileView, HashType, Info, Messages,
};
use crate::textmap::TextMap;
use std::collections::BTreeMap;
use vstd::prelude::*;

verus! {

/// Finds files that have the same name, the same size or the same content.
pub struct DuplicateFinder {
    pub text_messages: Messages,
    pub information: Info,
    /// The files found, by name.
    pub files_with_identical_names: TextMap<Vec<FileEntry>>,
    /// The files found, by size.
    pub files_with_identical_size: BTreeMap<u64, Vec<FileEntry>>,
    /// The groups of files with the same hash, by size.
    pub files_with_identical_hashes: BTreeMap<u64, Vec<Vec<FileEntry>>>,
    pub directories: Directories,
    pub allowed_extensions: Extensions,
    pub excluded_items: ExcludedItems,
    pub recursive_search: bool,
    pub minimal_file_size: u64,
    pub check_method: CheckingMethod,
    pub delete_method: DeleteMethod,
    pub hash_type: HashType,
    pub stopped_search: bool,
}

impl DuplicateFinder {
    /// The files found, by name.
    pub open spec fn names(&self) -> Map<Seq<char>, Seq<FileView>> {
        grouping::contents(self.files_with_identical_names@)
    }

    /// The files found, by size.
    pub open spec fn sizes(&self) -> Map<u64, Seq<FileView>> {
        grouping::contents(self.files_with_identical_size@)
    }

    /// The groups of files with the same hash, by size.
    pub open spec fn hashes(&self) -> Map<u64, Seq<Seq<FileView>>> {
        grouping::contents(self.files_with_identical_hashes@)
    }

    /// The messages given so far.
    pub open spec fn messages(&self) -> Seq<Seq<char>> {
        self.text_messages.messages.deep_view()
    }

    /// The warnings given so far.
    pub open spec fn warnings(&self) -> Seq<Seq<char>> {
        self.text_messages.warnings.deep_view()
    }

    /// The errors given so far.
    pub open spec fn errors(&self) -> Seq<Seq<char>> {
        self.text_messages.errors.deep_view()
    }

    /// Every file stands under its own size, each group by hash holds at least two
    /// files, and empty files are too small for the search.
    pub open spec fn wf(&self) -> bool {
        &&& self.minimal_file_size > 0
        &&& filed_by_size(self.sizes())
        &&& groups_filed_by_size(self.hashes())
    }

    /// Both finders were set up alike.
    pub open spec fn same_settings(&self, other: &DuplicateFinder) -> bool {
        &&& self.directories == other.directories
        &&& self.allowed_extensions == other.allowed_extensions
        &&& self.excluded_items == other.excluded_items
        &&& self.recursive_search == other.recursive_search
        &&& self.minimal_file_size == other.minimal_file_size
        &&& self.check_method == other.check_method
        &&& self.delete_method == other.delete_method
        &&& self.hash_type == other.hash_type
    }
}

/// Each file stands under its own size.
pub open spec fn filed_by_size(m: Map<u64, Seq<FileView>>) -> bool {
    forall|k: u64, i: int|
        m.contains_key(k) && 0 <= i < m[k].len() ==> (#[trigger] m[k][i]).size == k
}

/// Each group holds at least two files, and they stand under their own size.
pub open spec fn groups_filed_by_size(m: Map<u64, Seq<Seq<FileView>>>) -> bool {
    forall|k: u64, g: int|
        m.contains_key(k) && 0 <= g < m[k].len() ==> is_group_of_size(#[trigger] m[k][g], k)
}

/// At least two files, all of one size.
pub open spec fn is_group_of_size(group: Seq<FileView>, size: u64) -> bool {
    &&& group.len() > 1
    &&& forall|i: int| 0 <= i < group.len() ==> (#[trigger] group[i]).size == size
}

impl DuplicateFinder {
    /// A finder that has found nothing and searches folders within folders for
    /// files of at least a kilobyte; by what, is still to be set.
    pub fn new() -> (r: Self)
        ensures
            r.wf(),
            r.information == Info::zero(),
            r.names() == Map::<Seq<char>, Seq<FileView>>::empty(),
            r.sizes() == Map::<u64, Seq<FileView>>::empty(),
            r.hashes() == Map::<u64, Seq<Seq<FileView>>>::empty(),
            r.messages().len() == 0,
            r.warnings().len() == 0,
            r.errors().len() == 0,
            r.directories.included_directories@.len() == 0,
            r.directories.excluded_directories@.len() == 0,
            r.allowed_extensions.file_extensions@.len() == 0,
            r.excluded_items.items@.len() == 0,
            r.recursive_search,
            r.minimal_file_size == 1024,
            r.check_method == CheckingMethod::NotSet,
            r.delete_method == DeleteMethod::DoNothing,
            r.hash_type == HashType::Blake3,
            !r.stopped_search,
    {
        let r = DuplicateFinder {
            text_messages: Messages::new(),
            information: Info::new(),
            files_with_identical_names: TextMap::new(),
            files_with_identical_size: BTreeMap::new(),
            files_with_identical_hashes: BTreeMap::new(),
            directories: Directories {
                included_directories: Vec::new(),
                excluded_directories: Vec::new(),
            },
            allowed_extensions: Extensions { file_extensions: Vec::new() },
            excluded_items: ExcludedItems { items: Vec::new() },
            recursive_search: true,
            minimal_file_size: 1024,
            check_method: CheckingMethod::NotSet,
            delete_method: DeleteMethod::DoNothing,
            hash_type: HashType::Blake3,
            stopped_search: false,
        };
        proof {
            assert(r.names() =~= Map::<Seq<char>, Seq<FileView>>::empty());
            assert(r.sizes() =~= Map::<u64, Seq<FileView>>::empty());
            assert(r.hashes() =~= Map::<u64, Seq<Seq<FileView>>>::empty());
        }
        r
    }
}

impl Default for DuplicateFinder {
    fn default() -> (r: Self)
        ensures
            r.wf(),
            r.information == Info::zero(),
            r.names() == Map::<Seq<char>, Seq<FileView>>::empty(),
            r.sizes() == Map::<u64, Seq<FileView>>::empty(),
            r.hashes() == Map::<u64, Seq<Seq<FileView>>>::empty(),
            r.messages().len() == 0,
            r.warnings().len() == 0,
            r.errors().len() == 0,
            r.directories.included_directories@.len() == 0,
            r.directories.excluded_directories@.len() == 0,
            r.allowed_extensions.file_extensions@.len() == 0,
            r.excluded_items.items@.len() == 0,
            r.recursive_search,
            r.minimal_file_size == 1024,
            r.check_method == CheckingMethod::NotSet,
            r.delete_method == DeleteMethod::DoNothing,
            r.hash_type == HashType::Blake3,
            !r.stopped_search,
    {
        DuplicateFinder::new()
    }
}

// ---------------------------------------------------------------------------
// The course of a search
// ---------------------------------------------------------------------------

/// What has to be done next in a search.
#[derive(PartialEq, Eq, Clone, Copy, Debug, Structural)]
pub enum SearchStep {
    /// Take files in by name, and count the groups.
    ScanNames,
    /// Take files in by size, and count the groups.
    ScanSizes,
    /// Hash the beginnings of the files.
    Prehash,
    /// Hash the first megabyte of the files that are left.
    HashMegabyte,
    /// Hash the files that are left in full, unless their hashes are known.
    HashFull,
    /// Remember the hashes, also if the search was stopped.
    SaveHashes { stopped: bool },
    /// Group the files by their hashes, and count the groups.
    GroupByHash,
    /// Remove the duplicates that were found.
    Delete,
    /// Print what is needed for debugging.
    DebugPrint,
    Finished,
}

/// How a step went.
#[derive(PartialEq, Eq, Clone, Copy, Debug, Structural)]
pub enum SearchEvent {
    Completed,
    /// The user stopped the search.
    Stopped,
}

/// A step that the user can stop.
pub open spec fn can_be_stopped(step: SearchStep) -> bool {
    match step {
        SearchStep::ScanNames => true,
        SearchStep::ScanSizes => true,
        SearchStep::Prehash => true,
        SearchStep::HashMegabyte => true,
        SearchStep::HashFull => true,
        _ => false,
    }
}

/// The step that a search begins with.
pub open spec fn first_step_of(method: CheckingMethod) -> SearchStep {
    if method == CheckingMethod::Name {
        SearchStep::ScanNames
    } else {
        SearchStep::ScanSizes
    }
}

/// The step that follows.
pub open spec fn next_step_of(
    method: CheckingMethod,
    step: SearchStep,
    event: SearchEvent,
) -> SearchStep {
    match (step, event) {
        (SearchStep::HashFull, _) => SearchStep::SaveHashes {
            stopped: event == SearchEvent::Stopped,
        },
        (SearchStep::SaveHashes { stopped }, _) => if stopped {
            SearchStep::Finished
        } else {
            SearchStep::GroupByHash
        },
        (SearchStep::GroupByHash, _) => SearchStep::Delete,
        (SearchStep::Delete, _) => SearchStep::DebugPrint,
        (_, SearchEvent::Stopped) => SearchStep::Finished,
        (SearchStep::ScanNames, _) => SearchStep::Delete,
        (SearchStep::ScanSizes, _) => if method == CheckingMethod::Size {
            SearchStep::Delete
        } else {
            SearchStep::Prehash
        },
        (SearchStep::Prehash, _) => if method == CheckingMethod::HashMB {
            SearchStep::HashMegabyte
        } else {
            SearchStep::HashFull
        },
        (SearchStep::HashMegabyte, _) => SearchStep::GroupByHash,
        _ => SearchStep::Finished,
    }
}

/// The step of a search after `n` steps that were completed.
pub open spec fn course(method: CheckingMethod, n: nat) -> SearchStep
    decreases n,
{
    if n == 0 {
        first_step_of(method)
    } else {
        next_step_of(method, course(method, (n - 1) as nat), SearchEvent::Completed)
    }
}

/// How many steps of a search come before duplicates are removed.
pub open spec fn steps_before_removal(method: CheckingMethod) -> nat {
    match method {
        CheckingMethod::Hash => 5,
        CheckingMethod::HashMB => 4,
        _ => 1,
    }
}

/// A search that is not stopped comes once to the removal of duplicates, after
/// the files were compared by what it was asked to, and then ends.
pub proof fn law_course_of_a_search(method: CheckingMethod, n: nat)
    requires
        method != CheckingMethod::NotSet,
    ensures
        course(method, n) == SearchStep::Delete <==> n == steps_before_removal(method),
        course(method, n) == SearchStep::Finished <==> n > steps_before_removal(method) + 1,
        course(method, n) == SearchStep::ScanNames <==> method == CheckingMethod::Name && n == 0,
        course(method, n) == SearchStep::ScanSizes <==> method != CheckingMethod::Name && n == 0,
        course(method, n) == SearchStep::HashMegabyte <==> method == CheckingMethod::HashMB && n
            == 2,
        course(method, n) == SearchStep::HashFull <==> method == CheckingMethod::Hash && n == 2,
        course(method, n) == SearchStep::GroupByHash <==> (method == CheckingMethod::Hash || method
            == CheckingMethod::HashMB) && n + 1 == steps_before_removal(method),
    decreases n,
{
    if n <= 7 {
        reveal_with_fuel(course, 8);
    } else {
        law_course_of_a_search(method, (n - 1) as nat);
    }
}

/// A search that is stopped removes nothing and finds nothing more: it ends at
/// once or when the hashes were remembered.
pub proof fn law_stopped_search_ends(
    method: CheckingMethod,
    step: SearchStep,
    event: SearchEvent,
)
    requires
        can_be_stopped(step),
    ensures
        ({
            let next = next_step_of(method, step, SearchEvent::Stopped);
            ||| next == SearchStep::Finished
            ||| next == (SearchStep::SaveHashes { stopped: true }) && next_step_of(
                method,
                next,
                event,
            ) == SearchStep::Finished
        }),
        next_step_of(method, SearchStep::Finished, event) == SearchStep::Finished,
{
}

impl DuplicateFinder {
    /// The step that the search begins with.
    pub fn first_step(&self) -> (r: SearchStep)
        requires
            self.check_method != CheckingMethod::NotSet,
        ensures
            r == first_step_of(self.check_method),
    {
        match self.check_method {
            CheckingMethod::Name => SearchStep::ScanNames,
            _ => SearchStep::ScanSizes,
        }
    }

    /// Decides what follows on a step of the search, and notes if it was stopped.
    pub fn find_duplicates(&mut self, step: SearchStep, event: SearchEvent) -> (r: SearchStep)
        requires
            old(self).check_method != CheckingMethod::NotSet,
        ensures
            r == next_step_of(old(self).check_method, step, event),
            *final(self) == (DuplicateFinder {
                stopped_search: old(self).stopped_search || (can_be_stopped(step) && event
                    == SearchEvent::Stopped),
                ..*old(self)
            }),
    {
        let stopped: bool = event == SearchEvent::Stopped;
        match step {
            SearchStep::ScanNames | SearchStep::ScanSizes | SearchStep::Prehash
            | SearchStep::HashMegabyte | SearchStep::HashFull => {
                if stopped {
                    self.stopped_search = true;
                }
            },
            _ => {},
        }
        match step {
            SearchStep::HashFull => SearchStep::SaveHashes { stopped },
            SearchStep::SaveHashes { stopped: before } => if before {
                SearchStep::Finished
            } else {
                SearchStep::GroupByHash
            },
            SearchStep::GroupByHash => SearchStep::Delete,
            SearchStep::Delete => SearchStep::DebugPrint,
            SearchStep::ScanNames => if stopped {
                SearchStep::Finished
            } else {
                SearchStep::Delete
            },
            SearchStep::ScanSizes => if stopped {
                SearchStep::Finished
            } else if self.check_method == CheckingMethod::Size {
                SearchStep::Delete
            } else {
                SearchStep::Prehash
            },
            SearchStep::Prehash => if stopped {
                SearchStep::Finished
            } else if self.check_method == CheckingMethod::HashMB {
                SearchStep::HashMegabyte
            } else {
                SearchStep::HashFull
            },
            SearchStep::HashMegabyte => if stopped {
                SearchStep::Finished
            } else {
                SearchStep::GroupByHash
            },
            _ => SearchStep::Finished,
        }
    }
}

// ---------------------------------------------------------------------------
// Settings
// ---------------------------------------------------------------------------

impl DuplicateFinder {
    pub fn set_check_method(&mut self, check_method: CheckingMethod)
        ensures
            *final(self) == (DuplicateFinder { check_method, ..*old(self) }),
    {
        self.check_method = check_method;
    }

    pub fn set_delete_method(&mut self, delete_method: DeleteMethod)
        ensures
            *final(self) == (DuplicateFinder { delete_method, ..*old(self) }),
    {
        self.delete_method = delete_method;
    }

    /// Leaves out smaller files, and empty files in any case.
    pub fn set_minimal_file_size(&mut self, minimal_file_size: u64)
        ensures
            *final(self) == (DuplicateFinder {
                minimal_file_size: if minimal_file_size == 0 {
                    1
                } else {
                    minimal_file_size
                },
                ..*old(self)
            }),
            old(self).wf() ==> final(self).wf(),
    {
        self.minimal_file_size = match minimal_file_size {
            0 => 1,
            t => t,
        };
    }

    pub fn set_recursive_search(&mut self, recursive_search: bool)
        ensures
            *final(self) == (DuplicateFinder { recursive_search, ..*old(self) }),
    {
        self.recursive_search = recursive_search;
    }

    /// The texts of `reported` follow on those given so far.
    pub open spec fn was_told(&self, old_self: &DuplicateFinder, reported: Messages) -> bool {
        &&& self.messages() == old_self.messages() + reported.messages.deep_view()
        &&& self.warnings() == old_self.warnings() + reported.warnings.deep_view()
        &&& self.errors() == old_self.errors() + reported.errors.deep_view()
    }

    fn tell(&mut self, reported: Messages)
        ensures
            final(self).was_told(old(self), reported),
            *final(self) == (DuplicateFinder {
                text_messages: final(self).text_messages,
                ..*old(self)
            }),
    {
        let mut rest: Messages = reported;
        self.text_messages.messages.append(&mut rest.messages);
        self.text_messages.warnings.append(&mut rest.warnings);
        self.text_messages.errors.append(&mut rest.errors);
        assert(self.messages() =~= old(self).messages() + reported.messages.deep_view());
        assert(self.warnings() =~= old(self).warnings() + reported.warnings.deep_view());
        assert(self.errors() =~= old(self).errors() + reported.errors.deep_view());
    }

    /// Searches in these directories, as far as they were accepted. Returns
    /// whether they were.
    pub fn set_included_directory(
        &mut self,
        included_directory: Vec<FilePath>,
        accepted: bool,
        reported: Messages,
    ) -> (r: bool)
        ensures
            r == accepted,
            final(self).was_told(old(self), reported),
            *final(self) == (DuplicateFinder {
                text_messages: final(self).text_messages,
                directories: (Directories {
                    included_directories: included_directory,
                    ..old(self).directories
                }),
                ..*old(self)
            }),
    {
        self.tell(reported);
        self.directories.included_directories = included_directory;
        accepted
    }

    /// Leaves out these directories.
    pub fn set_excluded_directory(
        &mut self,
        excluded_directory: Vec<FilePath>,
        reported: Messages,
    )
        ensures
            final(self).was_told(old(self), reported),
            *final(self) == (DuplicateFinder {
                text_messages: final(self).text_messages,
                directories: (Directories {
                    excluded_directories: excluded_directory,
                    ..old(self).directories
                }),
                ..*old(self)
            }),
    {
        self.tell(reported);
        self.directories.excluded_directories = excluded_directory;
    }

    /// Searches in, and leaves out, these directories from now on: what is left
    /// of them where some lie within others.
    pub fn optimize_directories(&mut self, directories: Directories, reported: Messages)
        ensures
            final(self).was_told(old(self), reported),
            *final(self) == (DuplicateFinder {
                text_messages: final(self).text_messages,
                directories,
                ..*old(self)
            }),
    {
        self.tell(reported);
        self.directories = directories;
    }

    /// Takes in files with these extensions alone.
    pub fn set_allowed_extensions(&mut self, allowed_extensions: Vec<String>, reported: Messages)
        ensures
            final(self).was_told(old(self), reported),
            *final(self) == (DuplicateFinder {
                text_messages: final(self).text_messages,
                allowed_extensions: (Extensions { file_extensions: allowed_extensions }),
                ..*old(self)
            }),
    {
        self.tell(reported);
        self.allowed_extensions.file_extensions = allowed_extensions;
    }

    /// Leaves out the paths that match one of these items.
    pub fn set_excluded_items(&mut self, excluded_items: Vec<String>, reported: Messages)
        ensures
            final(self).was_told(old(self), reported),
            *final(self) == (DuplicateFinder {
                text_messages: final(self).text_messages,
                excluded_items: (ExcludedItems { items: excluded_items }),
                ..*old(self)
            }),
    {
        self.tell(reported);
        self.excluded_items.items = excluded_items;
    }
}

// ---------------------------------------------------------------------------
// Results
// ---------------------------------------------------------------------------

impl DuplicateFinder {
    pub fn get_check_method(&self) -> (r: &CheckingMethod)
        ensures
            *r == self.check_method,
    {
        &self.check_method
    }

    pub fn get_stopped_search(&self) -> (r: bool)
        ensures
            r == self.stopped_search,
    {
        self.stopped_search
    }

    pub fn get_files_sorted_by_names(&self) -> (r: &TextMap<Vec<FileEntry>>)
        ensures
            *r == self.files_with_identical_names,
    {
        &self.files_with_identical_names
    }

    pub fn get_files_sorted_by_size(&self) -> (r: &BTreeMap<u64, Vec<FileEntry>>)
        ensures
            *r == self.files_with_identical_size,
    {
        &self.files_with_identical_size
    }

    pub fn get_files_sorted_by_hash(&self) -> (r: &BTreeMap<u64, Vec<Vec<FileEntry>>>)
        ensures
            *r == self.files_with_identical_hashes,
    {
        &self.files_with_identical_hashes
    }

    pub fn get_text_messages(&self) -> (r: &Messages)
        ensures
            *r == self.text_messages,
    {
        &self.text_messages
    }

    pub fn get_information(&self) -> (r: &Info)
        ensures
            *r == self.information,
    {
        &self.information
    }
}

// ---------------------------------------------------------------------------
// Laws
// ---------------------------------------------------------------------------

/// What follows on a step that was completed. Files are compared by name, by size, or by
/// size and then by hash: first by their beginnings, then by a megabyte or as a whole.
/// The hashes of whole files are saved. Duplicates are removed last.
pub proof fn law_steps_follow(method: CheckingMethod)
    requires
        method != CheckingMethod::NotSet,
    ensures
        first_step_of(method) == (if method == CheckingMethod::Name {
            SearchStep::ScanNames
        } else {
            SearchStep::ScanSizes
        }),
        next_step_of(method, SearchStep::ScanNames, SearchEvent::Completed) == SearchStep::Delete,
        next_step_of(method, SearchStep::ScanSizes, SearchEvent::Completed) == (if method
            == CheckingMethod::Size {
            SearchStep::Delete
        } else {
            SearchStep::Prehash
        }),
        next_step_of(method, SearchStep::Prehash, SearchEvent::Completed) == (if method
            == CheckingMethod::HashMB {
            SearchStep::HashMegabyte
        } else {
            SearchStep::HashFull
        }),
        next_step_of(method, SearchStep::HashMegabyte, SearchEvent::Completed)
            == SearchStep::GroupByHash,
        next_step_of(method, SearchStep::HashFull, SearchEvent::Completed)
            == (SearchStep::SaveHashes { stopped: false }),
        next_step_of(method, SearchStep::SaveHashes { stopped: false }, SearchEvent::Completed)
            == SearchStep::GroupByHash,
        next_step_of(method, SearchStep::GroupByHash, SearchEvent::Completed) == SearchStep::Delete,
        next_step_of(method, SearchStep::Delete, SearchEvent::Completed) == SearchStep::DebugPrint,
        next_step_of(method, SearchStep::DebugPrint, SearchEvent::Completed)
            == SearchStep::Finished,
        next_step_of(method, SearchStep::Finished, SearchEvent::Completed) == SearchStep::Finished,
{
}

/// What follows on a step that was stopped: the end, but for the hashes of whole files,
/// which are saved before. Only the steps that look at files can be stopped.
pub proof fn law_stops_follow(method: CheckingMethod, event: SearchEvent)
    ensures
        next_step_of(method, SearchStep::ScanNames, SearchEvent::Stopped) == SearchStep::Finished,
        next_step_of(method, SearchStep::ScanSizes, SearchEvent::Stopped) == SearchStep::Finished,
        next_step_of(method, SearchStep::Prehash, SearchEvent::Stopped) == SearchStep::Finished,
        next_step_of(method, SearchStep::HashMegabyte, SearchEvent::Stopped)
            == SearchStep::Finished,
        next_step_of(method, SearchStep::HashFull, SearchEvent::Stopped)
            == (SearchStep::SaveHashes { stopped: true }),
        next_step_of(method, SearchStep::SaveHashes { stopped: true }, event)
            == SearchStep::Finished,
        can_be_stopped(SearchStep::ScanNames),
        can_be_stopped(SearchStep::ScanSizes),
        can_be_stopped(SearchStep::Prehash),
        can_be_stopped(SearchStep::HashMegabyte),
        can_be_stopped(SearchStep::HashFull),
        !can_be_stopped(SearchStep::SaveHashes { stopped: true }),
        !can_be_stopped(SearchStep::SaveHashes { stopped: false }),
        !can_be_stopped(SearchStep::GroupByHash),
        !can_be_stopped(SearchStep::Delete),
        !can_be_stopped(SearchStep::DebugPrint),
        !can_be_stopped(SearchStep::Finished),
{
}

/// What a finder holds is seen whole.
pub proof fn law_finder_is_seen_whole(finder: DuplicateFinder)
    ensures
        finder.names() == grouping::contents(finder.files_with_identical_names@),
        finder.sizes() == grouping::contents(finder.files_with_identical_size@),
        finder.hashes() == grouping::contents(finder.files_with_identical_hashes@),
        finder.messages() == finder.text_messages.messages.deep_view(),
        finder.warnings() == finder.text_messages.warnings.deep_view(),
        finder.errors() == finder.text_messages.errors.deep_view(),
{
}

/// A finder is well formed if it takes in no empty files, and every file stands under its
/// size, by hash in a group of at least two.
pub proof fn law_well_formed(finder: DuplicateFinder)
    ensures
        finder.wf() <==> {
            &&& finder.minimal_file_size > 0
            &&& forall|k: u64, i: int|
                finder.sizes().contains_key(k) && 0 <= i < finder.sizes()[k].len() ==> (
                #[trigger] finder.sizes()[k][i]).size == k
            &&& forall|k: u64, g: int|
                finder.hashes().contains_key(k) && 0 <= g < finder.hashes()[k].len() ==> (
                #[trigger] finder.hashes()[k][g]).len() > 1
            &&& forall|k: u64, g: int, i: int|
                finder.hashes().contains_key(k) && 0 <= g < finder.hashes()[k].len() && 0 <= i
                    < finder.hashes()[k][g].len() ==> (
                #[trigger] finder.hashes()[k][g][i]).size == k
        },
{
    let m = finder.hashes();
    if finder.wf() {
        assert forall|k: u64, g: int, i: int|
            m.contains_key(k) && 0 <= g < m[k].len() && 0 <= i < m[k][g].len() implies (
        #[trigger] m[k][g][i]).size == k by {
            assert(is_group_of_size(m[k][g], k));
        }
    }
}

/// What was reported stands behind what was said before.
pub proof fn law_reports_are_told(
    after: DuplicateFinder,
    before: DuplicateFinder,
    reported: Messages,
)
    requires
        after.was_told(&before, reported),
    ensures
        after.text_messages.messages.deep_view() == before.text_messages.messages.deep_view()
            + reported.messages.deep_view(),
        after.text_messages.warnings.deep_view() == before.text_messages.warnings.deep_view()
            + reported.warnings.deep_view(),
        after.text_messages.errors.deep_view() == before.text_messages.errors.deep_view()
            + reported.errors.deep_view(),
{
}

} // verus!
