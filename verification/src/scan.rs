//! Walking through folders and taking in the files that a search is about.
use crate::finder;
use crate::finder::DuplicateFinder;
use crate::grouping;
use crate::model::{FileEntry, FilePath, FileView, PathView};
use crate::text;
use vstd::prelude::*;

verus! {

/// What an entry of a folder is.
#[derive(PartialEq, Eq, Clone, Copy, Debug, Structural)]
pub enum EntryKind {
    Directory,
    File,
    Other,
}

/// When a file was modified, in seconds.
#[derive(PartialEq, Eq, Clone, Copy, Debug, Structural)]
pub enum ModifiedTime {
    Unavailable,
    BeforeEpoch,
    Seconds(u64),
}

/// What is known of an entry of a folder.
#[derive(Debug)]
pub struct EntryData {
    pub kind: EntryKind,
    /// The path of the folder, joined with the name.
    pub path: FilePath,
    /// The name, if it is Unicode.
    pub name: Option<String>,
    pub size: u64,
    pub modified: ModifiedTime,
    /// The path is that of a directory that the search leaves out.
    pub in_excluded_directory: bool,
    /// The path matches an item that the search leaves out.
    pub is_excluded_item: bool,
}

/// An entry of a folder, as far as it could be read.
#[derive(Debug)]
pub enum ListedEntry {
    Unreadable,
    NoMetadata,
    Read(EntryData),
}

/// What a folder holds.
#[derive(Debug)]
pub enum FolderListing {
    CannotOpen,
    Entries(Vec<ListedEntry>),
}

/// A walk through folders.
#[derive(Debug)]
pub struct Scan {
    /// The folders that are still to be looked through.
    pub folders_to_check: Vec<FilePath>,
}

impl Scan {
    /// The folder to look through next: the one that was added last.
    pub fn next_folder(&mut self) -> (r: Option<FilePath>)
        ensures
            match r {
                Some(folder) => {
                    &&& old(self).folders_to_check@.len() > 0
                    &&& folder == old(self).folders_to_check@.last()
                    &&& final(self).folders_to_check@ == old(self).folders_to_check@.drop_last()
                },
                None => {
                    &&& old(self).folders_to_check@.len() == 0
                    &&& final(self).folders_to_check@ == old(self).folders_to_check@
                },
            },
    {
        self.folders_to_check.pop()
    }
}

/// A file may have this name: it ends, whatever the case, with a dot and one of
/// the extensions, or there are none.
pub open spec fn name_allowed(extensions: Seq<Seq<char>>, name: Seq<char>) -> bool {
    extensions.len() == 0 || exists|i: int|
        0 <= i < extensions.len() && #[trigger] text::has_suffix(
            text::lower_case(name),
            "."@ + text::lower_case(extensions[i]),
        )
}

/// The file that an entry is.
pub open spec fn file_of(entry: EntryData) -> FileView {
    FileView {
        path: entry.path@,
        size: entry.size,
        modified_date: match entry.modified {
            ModifiedTime::Seconds(seconds) => seconds,
            _ => 0,
        },
        hash: Seq::empty(),
    }
}

impl DuplicateFinder {
    /// The search goes on in this folder.
    pub open spec fn follows(&self, entry: ListedEntry) -> bool {
        match entry {
            ListedEntry::Read(data) => {
                &&& data.kind == EntryKind::Directory
                &&& self.recursive_search
                &&& !data.in_excluded_directory
                &&& !data.is_excluded_item
            },
            _ => false,
        }
    }

    /// This entry is a file that the search is about.
    pub open spec fn considers(&self, data: EntryData) -> bool {
        &&& data.kind == EntryKind::File
        &&& data.name is Some
        &&& name_allowed(self.allowed_extensions.file_extensions.deep_view(), data.name.unwrap()@)
        &&& data.size >= self.minimal_file_size
        &&& !data.is_excluded_item
    }

    /// The search takes this file in.
    pub open spec fn takes(&self, entry: ListedEntry) -> bool {
        match entry {
            ListedEntry::Read(data) => self.considers(data) && data.modified
                != ModifiedTime::Unavailable,
            _ => false,
        }
    }

    /// What there is to say of an entry of `folder`.
    pub open spec fn warnings_of(&self, folder: Seq<char>, entry: ListedEntry) -> Seq<Seq<char>> {
        match entry {
            ListedEntry::Unreadable => seq!["Cannot read entry in dir "@ + folder],
            ListedEntry::NoMetadata => seq!["Cannot read metadata in dir "@ + folder],
            ListedEntry::Read(data) => if !self.considers(data) {
                Seq::empty()
            } else {
                match data.modified {
                    ModifiedTime::Unavailable => seq![
                        "Unable to get modification date from file "@ + data.path.text@,
                    ],
                    ModifiedTime::BeforeEpoch => seq![
                        "File "@ + data.path.text@ + " seems to be modified before Unix Epoch."@,
                    ],
                    ModifiedTime::Seconds(_) => Seq::empty(),
                }
            },
        }
    }

    /// The files among `entries` that the search takes in, each beside its name.
    pub open spec fn taken(&self, entries: Seq<ListedEntry>) -> Seq<(Seq<char>, FileView)>
        decreases entries.len(),
    {
        if entries.len() == 0 {
            Seq::empty()
        } else if self.takes(entries.last()) {
            self.taken(entries.drop_last()).push(
                (entries.last()->Read_0.name.unwrap()@, file_of(entries.last()->Read_0)),
            )
        } else {
            self.taken(entries.drop_last())
        }
    }

    /// The folders among `entries` in which the search goes on.
    pub open spec fn followed(&self, entries: Seq<ListedEntry>) -> Seq<PathView>
        decreases entries.len(),
    {
        if entries.len() == 0 {
            Seq::empty()
        } else if self.follows(entries.last()) {
            self.followed(entries.drop_last()).push(entries.last()->Read_0.path@)
        } else {
            self.followed(entries.drop_last())
        }
    }

    /// What there is to say of the entries of `folder`.
    pub open spec fn all_warnings(
        &self,
        folder: Seq<char>,
        entries: Seq<ListedEntry>,
    ) -> Seq<Seq<char>>
        decreases entries.len(),
    {
        if entries.len() == 0 {
            Seq::empty()
        } else {
            self.all_warnings(folder, entries.drop_last()) + self.warnings_of(
                folder,
                entries.last(),
            )
        }
    }
}

/// How many of `entries` are files.
pub open spec fn files_among(entries: Seq<ListedEntry>) -> nat
    decreases entries.len(),
{
    if entries.len() == 0 {
        0
    } else {
        let before = files_among(entries.drop_last());
        match entries.last() {
            ListedEntry::Read(data) => if data.kind == EntryKind::File {
                before + 1
            } else {
                before
            },
            _ => before,
        }
    }
}

/// Each file beside its size.
pub open spec fn by_own_size(files: Seq<(Seq<char>, FileView)>) -> Seq<(u64, FileView)> {
    files.map_values(|p: (Seq<char>, FileView)| (p.1.size, p.1))
}

/// What a list of named files is.
pub open spec fn named_files(files: Seq<(String, FileEntry)>) -> Seq<(Seq<char>, FileView)> {
    files.map_values(|p: (String, FileEntry)| (p.0@, p.1@))
}

/// The entries of a folder; none, if it could not be opened.
pub open spec fn entries_of(listing: FolderListing) -> Seq<ListedEntry> {
    match listing {
        FolderListing::CannotOpen => Seq::empty(),
        FolderListing::Entries(entries) => entries@,
    }
}

/// Whether a file may have this name.
fn is_name_allowed(extensions: &Vec<String>, name: &str) -> (r: bool)
    ensures
        r == name_allowed(extensions.deep_view(), name@),
{
    if extensions.len() == 0 {
        return true;
    }
    let lower: String = text::to_lower_case(name);
    let ghost ev = extensions.deep_view();
    let mut i: usize = 0;
    while i < extensions.len()
        invariant
            i <= extensions.len(),
            ev == extensions.deep_view(),
            lower@ == text::lower_case(name@),
            forall|j: int|
                0 <= j < i ==> !#[trigger] text::has_suffix(
                    text::lower_case(name@),
                    "."@ + text::lower_case(ev[j]),
                ),
        decreases extensions.len() - i,
    {
        let tail: String = text::join(".", text::to_lower_case(extensions[i].as_str()).as_str());
        if text::ends_with(lower.as_str(), tail.as_str()) {
            assert(text::has_suffix(
                text::lower_case(name@),
                "."@ + text::lower_case(ev[i as int]),
            ));
            return true;
        }
        i += 1;
    }
    false
}

impl DuplicateFinder {
    /// Whether this entry is a file that the search is about.
    fn is_considered(&self, data: &EntryData) -> (r: bool)
        ensures
            r == self.considers(*data),
    {
        if data.kind != EntryKind::File {
            return false;
        }
        match &data.name {
            None => false,
            Some(name) => is_name_allowed(&self.allowed_extensions.file_extensions, name.as_str())
                && data.size >= self.minimal_file_size && !data.is_excluded_item,
        }
    }

    /// Gives a warning.
    fn warn(&mut self, warning: String)
        ensures
            final(self).warnings() == old(self).warnings().push(warning@),
            final(self).messages() == old(self).messages(),
            final(self).errors() == old(self).errors(),
            *final(self) == (DuplicateFinder {
                text_messages: final(self).text_messages,
                ..*old(self)
            }),
    {
        self.text_messages.warnings.push(warning);
        assert(self.warnings() =~= old(self).warnings().push(warning@));
    }

    /// Looks at one entry of `folder`: gives the warnings it calls for, and
    /// returns it as a file if the search takes it in.
    fn look_at(&mut self, folder: &FilePath, entry: &ListedEntry) -> (r: Option<FileEntry>)
        ensures
            final(self).warnings() == old(self).warnings() + old(self).warnings_of(
                folder.text@,
                *entry,
            ),
            final(self).messages() == old(self).messages(),
            final(self).errors() == old(self).errors(),
            *final(self) == (DuplicateFinder {
                text_messages: final(self).text_messages,
                ..*old(self)
            }),
            match r {
                Some(file) => old(self).takes(*entry) && file@ == file_of(entry->Read_0),
                None => !old(self).takes(*entry),
            },
    {
        let ghost before = self.warnings();
        match entry {
            ListedEntry::Unreadable => {
                self.warn(text::join("Cannot read entry in dir ", folder.text.as_str()));
                assert(self.warnings() =~= before + old(self).warnings_of(folder.text@, *entry));
                None
            },
            ListedEntry::NoMetadata => {
                self.warn(text::join("Cannot read metadata in dir ", folder.text.as_str()));
                assert(self.warnings() =~= before + old(self).warnings_of(folder.text@, *entry));
                None
            },
            ListedEntry::Read(data) => {
                if !self.is_considered(data) {
                    assert(before + Seq::<Seq<char>>::empty() =~= before);
                    return None;
                }
                let modified_date: u64 = match data.modified {
                    ModifiedTime::Seconds(seconds) => {
                        assert(before + Seq::<Seq<char>>::empty() =~= before);
                        seconds
                    },
                    ModifiedTime::BeforeEpoch => {
                        let start: String = text::join("File ", data.path.text.as_str());
                        self.warn(
                            text::join(start.as_str(), " seems to be modified before Unix Epoch."),
                        );
                        assert(self.warnings() =~= before + old(self).warnings_of(
                            folder.text@,
                            *entry,
                        ));
                        0
                    },
                    ModifiedTime::Unavailable => {
                        self.warn(
                            text::join(
                                "Unable to get modification date from file ",
                                data.path.text.as_str(),
                            ),
                        );
                        assert(self.warnings() =~= before + old(self).warnings_of(
                            folder.text@,
                            *entry,
                        ));
                        return None;
                    },
                };
                Some(
                    FileEntry {
                        path: data.path.clone(),
                        size: data.size,
                        modified_date,
                        hash: String::new(),
                    },
                )
            },
        }
    }

    /// Looks through a folder. Returns the files that the search takes in, each
    /// with its name, and how many files there are.
    fn look_through(&mut self, scan: &mut Scan, folder: &FilePath, listing: &FolderListing) -> (r: (
        Vec<(String, FileEntry)>,
        usize,
    ))
        ensures
            named_files(r.0@) == old(self).taken(entries_of(*listing)),
            r.1 == files_among(entries_of(*listing)),
            final(scan).folders_to_check.deep_view() == old(scan).folders_to_check.deep_view()
                + old(self).followed(entries_of(*listing)),
            final(self).warnings() == old(self).warnings() + listing_warnings(
                *old(self),
                folder.text@,
                *listing,
            ),
            final(self).messages() == old(self).messages(),
            final(self).errors() == old(self).errors(),
            *final(self) == (DuplicateFinder {
                text_messages: final(self).text_messages,
                ..*old(self)
            }),
    {
        let ghost before = self.warnings();
        let ghost folders = scan.folders_to_check.deep_view();
        let mut found: Vec<(String, FileEntry)> = Vec::new();
        let mut count: usize = 0;
        assert(folders + Seq::<PathView>::empty() =~= folders);
        assert(named_files(found@) =~= Seq::empty());
        match listing {
            FolderListing::CannotOpen => {
                self.warn(text::join("Cannot open dir ", folder.text.as_str()));
                assert(self.warnings() =~= before + seq!["Cannot open dir "@ + folder.text@]);
            },
            FolderListing::Entries(entries) => {
                let ghost all = entries@;
                let mut i: usize = 0;
                proof {
                    assert(all.take(0) =~= Seq::empty());
                    assert(before + Seq::<Seq<char>>::empty() =~= before);
                }
                while i < entries.len()
                    invariant
                        i <= entries.len(),
                        all == entries@,
                        count <= i,
                        count == files_among(all.take(i as int)),
                        named_files(found@) == old(self).taken(all.take(i as int)),
                        scan.folders_to_check.deep_view() == folders + old(self).followed(
                            all.take(i as int),
                        ),
                        self.warnings() == before + old(self).all_warnings(
                            folder.text@,
                            all.take(i as int),
                        ),
                        self.messages() == old(self).messages(),
                        self.errors() == old(self).errors(),
                        *self == (DuplicateFinder {
                            text_messages: self.text_messages,
                            ..*old(self)
                        }),
                    decreases entries.len() - i,
                {
                    let entry: &ListedEntry = &entries[i];
                    let ghost said = self.warnings();
                    let ghost found_before = named_files(found@);
                    let ghost folders_before = scan.folders_to_check.deep_view();
                    proof {
                        assert(all.take(i + 1).drop_last() =~= all.take(i as int));
                        assert(all.take(i + 1).last() == *entry);
                    }
                    let taken: Option<FileEntry> = self.look_at(folder, entry);
                    proof {
                        lemma_settings_decide(*self, *old(self), *entry, folder.text@);
                        assert(self.warnings() =~= before + old(self).all_warnings(
                            folder.text@,
                            all.take(i + 1),
                        ));
                    }
                    if let ListedEntry::Read(data) = entry {
                        if data.kind == EntryKind::File {
                            count = count + 1;
                        }
                        if data.kind == EntryKind::Directory && self.recursive_search
                            && !data.in_excluded_directory && !data.is_excluded_item {
                            scan.folders_to_check.push(data.path.clone());
                            assert(scan.folders_to_check.deep_view() =~= folders_before.push(
                                data.path@,
                            ));
                            assert(folders_before.push(data.path@) =~= folders
                                + old(self).followed(all.take(i + 1)));
                        }
                        if let Some(file) = taken {
                            if let Some(name) = &data.name {
                                found.push((name.clone(), file));
                                assert(named_files(found@) =~= found_before.push((name@, file@)));
                            }
                        }
                    }
                    i += 1;
                }
                assert(all.take(entries@.len() as int) =~= all);
            },
        }
        (found, count)
    }
}

/// What the search does with an entry depends on its settings alone.
proof fn lemma_settings_decide(
    a: DuplicateFinder,
    b: DuplicateFinder,
    entry: ListedEntry,
    folder: Seq<char>,
)
    requires
        a.same_settings(&b),
    ensures
        a.follows(entry) == b.follows(entry),
        a.takes(entry) == b.takes(entry),
        a.warnings_of(folder, entry) == b.warnings_of(folder, entry),
{
}

/// What a listing calls for saying.
pub open spec fn listing_warnings(
    finder: DuplicateFinder,
    folder: Seq<char>,
    listing: FolderListing,
) -> Seq<Seq<char>> {
    match listing {
        FolderListing::CannotOpen => seq!["Cannot open dir "@ + folder],
        FolderListing::Entries(entries) => finder.all_warnings(folder, entries@),
    }
}

impl DuplicateFinder {
    /// A walk that begins in the included directories.
    pub fn start_scan(&self) -> (r: Scan)
        ensures
            r.folders_to_check@ == self.directories.included_directories@,
    {
        let dirs: &Vec<FilePath> = &self.directories.included_directories;
        let mut folders_to_check: Vec<FilePath> = Vec::new();
        let mut i: usize = 0;
        while i < dirs.len()
            invariant
                i <= dirs.len(),
                folders_to_check@ == dirs@.take(i as int),
            decreases dirs.len() - i,
        {
            folders_to_check.push(dirs[i].clone());
            i += 1;
            assert(folders_to_check@ =~= dirs@.take(i as int));
        }
        assert(dirs@.take(dirs@.len() as int) =~= dirs@);
        Scan { folders_to_check }
    }

    /// Takes in what `folder` holds, and files the files by their names. Returns
    /// how many files there are.
    pub fn check_files_name(
        &mut self,
        scan: &mut Scan,
        folder: &FilePath,
        listing: &FolderListing,
    ) -> (r: usize)
        ensures
            r == files_among(entries_of(*listing)),
            final(self).names() == grouping::extended(
                old(self).names(),
                old(self).taken(entries_of(*listing)),
            ),
            final(scan).folders_to_check.deep_view() == old(scan).folders_to_check.deep_view()
                + old(self).followed(entries_of(*listing)),
            final(self).warnings() == old(self).warnings() + listing_warnings(
                *old(self),
                folder.text@,
                *listing,
            ),
            final(self).messages() == old(self).messages(),
            final(self).errors() == old(self).errors(),
            *final(self) == (DuplicateFinder {
                text_messages: final(self).text_messages,
                files_with_identical_names: final(self).files_with_identical_names,
                ..*old(self)
            }),
    {
        let (found, count): (Vec<(String, FileEntry)>, usize) = self.look_through(
            scan,
            folder,
            listing,
        );
        let ghost looked = *self;
        let ghost pairs = named_files(found@);
        let ghost start = self.names();
        let mut i: usize = 0;
        proof {
            assert(pairs.take(0) =~= Seq::empty());
            grouping::lemma_extended_by_nothing(start);
        }
        while i < found.len()
            invariant
                i <= found.len(),
                pairs == named_files(found@),
                self.names() == grouping::extended(start, pairs.take(i as int)),
                *self == (DuplicateFinder {
                    files_with_identical_names: self.files_with_identical_names,
                    ..looked
                }),
            decreases found.len() - i,
        {
            self.files_with_identical_names.add_item(found[i].0.as_str(), found[i].1.clone());
            i += 1;
            proof {
                grouping::lemma_extended_by_one(start, pairs.take(i - 1), pairs[i - 1]);
                assert(pairs.take(i as int) =~= pairs.take(i - 1).push(pairs[i - 1]));
            }
        }
        assert(pairs.take(found@.len() as int) =~= pairs);
        count
    }

    /// Takes in what `folder` holds, and files the files by their sizes. Returns
    /// how many files there are.
    pub fn check_files_size(
        &mut self,
        scan: &mut Scan,
        folder: &FilePath,
        listing: &FolderListing,
    ) -> (r: usize)
        ensures
            r == files_among(entries_of(*listing)),
            final(self).sizes() == grouping::extended(
                old(self).sizes(),
                by_own_size(old(self).taken(entries_of(*listing))),
            ),
            old(self).wf() ==> final(self).wf(),
            final(scan).folders_to_check.deep_view() == old(scan).folders_to_check.deep_view()
                + old(self).followed(entries_of(*listing)),
            final(self).warnings() == old(self).warnings() + listing_warnings(
                *old(self),
                folder.text@,
                *listing,
            ),
            final(self).messages() == old(self).messages(),
            final(self).errors() == old(self).errors(),
            *final(self) == (DuplicateFinder {
                text_messages: final(self).text_messages,
                files_with_identical_size: final(self).files_with_identical_size,
                ..*old(self)
            }),
    {
        let (found, count): (Vec<(String, FileEntry)>, usize) = self.look_through(
            scan,
            folder,
            listing,
        );
        let ghost looked = *self;
        let ghost named = named_files(found@);
        let ghost pairs = by_own_size(named);
        let ghost start = self.sizes();
        let mut i: usize = 0;
        proof {
            assert(pairs.take(0) =~= Seq::empty());
            grouping::lemma_extended_by_nothing(start);
        }
        while i < found.len()
            invariant
                i <= found.len(),
                named == named_files(found@),
                pairs == by_own_size(named),
                self.sizes() == grouping::extended(start, pairs.take(i as int)),
                finder::filed_by_size(start) ==> finder::filed_by_size(self.sizes()),
                *self == (DuplicateFinder {
                    files_with_identical_size: self.files_with_identical_size,
                    ..looked
                }),
            decreases found.len() - i,
        {
            let ghost before = self.sizes();
            let file: &FileEntry = &found[i].1;
            grouping::add_item(&mut self.files_with_identical_size, file.size, file.clone());
            i += 1;
            proof {
                grouping::lemma_extended_by_one(start, pairs.take(i - 1), pairs[i - 1]);
                assert(pairs.take(i as int) =~= pairs.take(i - 1).push(pairs[i - 1]));
                if finder::filed_by_size(start) {
                    lemma_stays_filed(before, file@);
                }
            }
        }
        assert(pairs.take(found@.len() as int) =~= pairs);
        count
    }
}

proof fn lemma_stays_filed(m: Map<u64, Seq<FileView>>, file: FileView)
    requires
        finder::filed_by_size(m),
    ensures
        finder::filed_by_size(grouping::with_item(m, file.size, file)),
{
    let n = grouping::with_item(m, file.size, file);
    assert forall|k: u64, i: int| n.contains_key(k) && 0 <= i < n[k].len() implies (
    #[trigger] n[k][i]).size == k by {
        if k == file.size {
            let old_list = grouping::listed(m, k);
            if i < old_list.len() {
                assert(m[k][i].size == k);
            }
        } else {
            assert(m[k][i].size == k);
        }
    }
}

// ---------------------------------------------------------------------------
// Laws
// ---------------------------------------------------------------------------

/// The folders that a search goes on in are, in order, the directories that it could
/// read, if it is recursive, but for those that are left out as a directory or as an
/// item. Neither size nor name nor date has a say.
pub proof fn law_folders_are_followed(finder: DuplicateFinder, entries: Seq<ListedEntry>)
    ensures
        finder.followed(entries) == entries.filter_map(
            |entry: ListedEntry|
                match entry {
                    ListedEntry::Read(data) => if data.kind == EntryKind::Directory
                        && finder.recursive_search && !data.in_excluded_directory
                        && !data.is_excluded_item {
                        Some(data.path@)
                    } else {
                        None
                    },
                    _ => None,
                },
        ),
    decreases entries.len(),
{
    reveal(Seq::filter_map);
    if entries.len() > 0 {
        law_folders_are_followed(finder, entries.drop_last());
    }
}

/// A directory that was read is followed if and only if the search is recursive and
/// the directory is left out neither as a directory nor as an item, and so two
/// directories that agree in that are both followed or both not. Nothing else is
/// followed.
pub proof fn law_exclusion_alone_keeps_out_of_a_folder(
    finder: DuplicateFinder,
    a: EntryData,
    b: EntryData,
)
    ensures
        finder.followed(seq![ListedEntry::Read(a)]) == (if a.kind == EntryKind::Directory
            && finder.recursive_search && !a.in_excluded_directory && !a.is_excluded_item {
            seq![a.path@]
        } else {
            Seq::empty()
        }),
        a.kind == EntryKind::Directory && b.kind == EntryKind::Directory && a.in_excluded_directory
            == b.in_excluded_directory && a.is_excluded_item == b.is_excluded_item
            ==> finder.followed(seq![ListedEntry::Read(a)]).len() == finder.followed(
            seq![ListedEntry::Read(b)],
        ).len(),
        finder.followed(seq![ListedEntry::Unreadable]).len() == 0,
        finder.followed(seq![ListedEntry::NoMetadata]).len() == 0,
{
    lemma_follow_one(finder, ListedEntry::Read(a));
    lemma_follow_one(finder, ListedEntry::Read(b));
    lemma_follow_one(finder, ListedEntry::Unreadable);
    lemma_follow_one(finder, ListedEntry::NoMetadata);
}

proof fn lemma_follow_one(finder: DuplicateFinder, entry: ListedEntry)
    ensures
        finder.followed(seq![entry]) == (if finder.follows(entry) {
            seq![entry->Read_0.path@]
        } else {
            Seq::empty()
        }),
{
    let one = seq![entry];
    assert(one.drop_last() =~= Seq::empty());
    assert(finder.followed(one.drop_last()) =~= Seq::empty());
    assert(Seq::<PathView>::empty().push(entry->Read_0.path@) =~= seq![entry->Read_0.path@]);
}

/// The path of a directory is among the folders that are followed, wherever the
/// directory stands, if the search is recursive and the directory is not left out; and
/// every folder that is followed is such a directory.
pub proof fn law_every_open_folder_is_searched(
    finder: DuplicateFinder,
    entries: Seq<ListedEntry>,
    path: PathView,
)
    ensures
        finder.followed(entries).contains(path) <==> exists|i: int|
            0 <= i < entries.len() && ((#[trigger] entries[i]) matches ListedEntry::Read(data)
                && data.kind == EntryKind::Directory && finder.recursive_search
                && !data.in_excluded_directory && !data.is_excluded_item && data.path@ == path),
    decreases entries.len(),
{
    if entries.len() > 0 {
        let init = entries.drop_last();
        let before = finder.followed(init);
        let all = finder.followed(entries);
        law_every_open_folder_is_searched(finder, init, path);
        assert(entries[entries.len() - 1] == entries.last());
        if before.contains(path) {
            let n = choose|n: int| 0 <= n < before.len() && before[n] == path;
            assert(all[n] == path);
            let i = choose|i: int|
                0 <= i < init.len() && ((#[trigger] init[i]) matches ListedEntry::Read(data)
                    && data.kind == EntryKind::Directory && finder.recursive_search
                    && !data.in_excluded_directory && !data.is_excluded_item && data.path@ == path);
            assert(entries[i] == init[i]);
        } else {
            if finder.follows(entries.last()) {
                assert(all[all.len() - 1] == entries.last()->Read_0.path@);
            }
            if all.contains(path) {
                let n = choose|n: int| 0 <= n < all.len() && all[n] == path;
                if n < before.len() {
                    assert(before[n] == path);
                }
                assert(finder.follows(entries.last()));
            }
            assert forall|i: int| 0 <= i < init.len() implies !((
            #[trigger] entries[i]) matches ListedEntry::Read(data) && data.kind
                == EntryKind::Directory && finder.recursive_search && !data.in_excluded_directory
                && !data.is_excluded_item && data.path@ == path) by {
                assert(entries[i] == init[i]);
            }
        }
    } else {
        assert(finder.followed(entries) =~= Seq::empty());
    }
}

/// The files that a search takes in are, in order, those with a Unicode name that may
/// stand, that are large enough, are not left out and have a date. Each stands beside
/// its name, with its path, its size, its date, which is zero before the epoch, and no
/// hash.
pub proof fn law_files_are_taken_in(finder: DuplicateFinder, entries: Seq<ListedEntry>)
    ensures
        finder.taken(entries) == entries.filter_map(
            |entry: ListedEntry|
                match entry {
                    ListedEntry::Read(data) => if data.kind == EntryKind::File && data.name is Some
                        && name_allowed(
                        finder.allowed_extensions.file_extensions.deep_view(),
                        data.name.unwrap()@,
                    ) && data.size >= finder.minimal_file_size && !data.is_excluded_item
                        && data.modified != ModifiedTime::Unavailable {
                        Some(
                            (
                                data.name.unwrap()@,
                                FileView {
                                    path: data.path@,
                                    size: data.size,
                                    modified_date: match data.modified {
                                        ModifiedTime::Seconds(seconds) => seconds,
                                        _ => 0,
                                    },
                                    hash: Seq::empty(),
                                },
                            ),
                        )
                    } else {
                        None
                    },
                    _ => None,
                },
        ),
    decreases entries.len(),
{
    reveal(Seq::filter_map);
    if entries.len() > 0 {
        law_files_are_taken_in(finder, entries.drop_last());
    }
}

/// A name may stand if there are no extensions to choose by, or if in lower case it is
/// something, a dot and one of the extensions in lower case.
pub proof fn law_extensions_decide(extensions: Seq<Seq<char>>, name: Seq<char>)
    ensures
        name_allowed(extensions, name) <==> extensions.len() == 0 || exists|i: int, head: Seq<char>|
            0 <= i < extensions.len() && text::lower_case(name) == #[trigger] (head + "."@
                + text::lower_case(extensions[i])),
{
    let lower = text::lower_case(name);
    if extensions.len() > 0 {
        if name_allowed(extensions, name) {
            let i = choose|i: int|
                0 <= i < extensions.len() && #[trigger] text::has_suffix(
                    lower,
                    "."@ + text::lower_case(extensions[i]),
                );
            let tail = "."@ + text::lower_case(extensions[i]);
            let head = lower.take(lower.len() - tail.len());
            assert(head + tail =~= lower);
            assert(head + tail =~= head + "."@ + text::lower_case(extensions[i]));
        }
        if exists|i: int, head: Seq<char>|
            0 <= i < extensions.len() && lower == #[trigger] (head + "."@ + text::lower_case(
                extensions[i],
            )) {
            let (i, head) = choose|i: int, head: Seq<char>|
                0 <= i < extensions.len() && lower == #[trigger] (head + "."@ + text::lower_case(
                    extensions[i],
                ));
            let tail = "."@ + text::lower_case(extensions[i]);
            assert(lower =~= head + tail);
            assert(lower.skip(lower.len() - tail.len()) =~= tail);
            assert(text::has_suffix(lower, "."@ + text::lower_case(extensions[i])));
        }
    }
}

/// How many files there are: the entries that were read and are files, whether or not
/// the search takes them in.
pub proof fn law_files_are_counted(entries: Seq<ListedEntry>)
    ensures
        files_among(entries) == entries.filter(
            |entry: ListedEntry|
                entry matches ListedEntry::Read(data) && data.kind == EntryKind::File,
        ).len(),
    decreases entries.len(),
{
    reveal(Seq::filter);
    if entries.len() > 0 {
        law_files_are_counted(entries.drop_last());
    }
}

/// Each file is filed under its own size.
pub proof fn law_size_is_the_key(files: Seq<(Seq<char>, FileView)>)
    ensures
        by_own_size(files).len() == files.len(),
        forall|i: int|
            0 <= i < files.len() ==> #[trigger] by_own_size(files)[i] == (
                files[i].1.size,
                files[i].1,
            ),
{
}

/// After a folder was looked through, there stand under a size the files that stood
/// there and behind them those of that size that the search takes in.
pub proof fn law_folder_is_filed_by_size(
    finder: DuplicateFinder,
    sizes: Map<u64, Seq<FileView>>,
    entries: Seq<ListedEntry>,
    k: u64,
)
    ensures
        ({
            let new = finder.taken(entries).filter(|p: (Seq<char>, FileView)| p.1.size == k);
            let after = grouping::extended(sizes, by_own_size(finder.taken(entries)));
            &&& after.contains_key(k) <==> sizes.contains_key(k) || new.len() > 0
            &&& after.contains_key(k) ==> after[k] == (if sizes.contains_key(k) {
                sizes[k]
            } else {
                Seq::empty()
            }) + new.map_values(|p: (Seq<char>, FileView)| p.1)
        }),
{
    let files = finder.taken(entries);
    let pairs = by_own_size(files);
    lemma_sized_items(files, k);
    let new = files.filter(|p: (Seq<char>, FileView)| p.1.size == k);
    if new.len() > 0 {
        files.lemma_filter_pred(|p: (Seq<char>, FileView)| p.1.size == k, 0);
        files.lemma_filter_contains_rev(|p: (Seq<char>, FileView)| p.1.size == k, new[0]);
        let i = choose|i: int| 0 <= i < files.len() && files[i] == new[0];
        assert(pairs[i].0 == k);
    }
    if grouping::has_key(pairs, k) {
        let i = choose|i: int| 0 <= i < pairs.len() && (#[trigger] pairs[i]).0 == k;
        files.lemma_filter_contains(|p: (Seq<char>, FileView)| p.1.size == k, i);
    }
}

proof fn lemma_sized_items(files: Seq<(Seq<char>, FileView)>, k: u64)
    ensures
        grouping::items_of(by_own_size(files), k) == files.filter(
            |p: (Seq<char>, FileView)| p.1.size == k,
        ).map_values(|p: (Seq<char>, FileView)| p.1),
    decreases files.len(),
{
    reveal(Seq::filter);
    let q = |p: (Seq<char>, FileView)| p.1.size == k;
    let second = |p: (Seq<char>, FileView)| p.1;
    let pairs = by_own_size(files);
    if files.len() > 0 {
        let init = files.drop_last();
        lemma_sized_items(init, k);
        assert(pairs.drop_last() =~= by_own_size(init));
        if files.last().1.size == k {
            assert(files.filter(q).map_values(second) =~= init.filter(q).map_values(second).push(
                files.last().1,
            ));
        }
    } else {
        assert(files.filter(q).map_values(second) =~= Seq::empty());
    }
}

/// What is said of the entries of a folder stands entry by entry, in order.
pub proof fn law_entries_are_told_in_order(
    finder: DuplicateFinder,
    folder: Seq<char>,
    entries: Seq<ListedEntry>,
    entry: ListedEntry,
)
    ensures
        finder.all_warnings(folder, Seq::empty()).len() == 0,
        finder.all_warnings(folder, entries.push(entry)) == finder.all_warnings(folder, entries)
            + finder.warnings_of(folder, entry),
{
    assert(entries.push(entry).drop_last() =~= entries);
}

/// Of an entry that could not be read one thing is said, that names the folder. Of a
/// file that the search would take in one thing is said if it has no date or one before
/// the epoch, that names the file. Of everything else nothing is said.
pub proof fn law_what_is_told_of_an_entry(
    finder: DuplicateFinder,
    folder: Seq<char>,
    data: EntryData,
)
    ensures
        finder.warnings_of(folder, ListedEntry::Unreadable) == seq![
            "Cannot read entry in dir "@ + folder,
        ],
        finder.warnings_of(folder, ListedEntry::NoMetadata) == seq![
            "Cannot read metadata in dir "@ + folder,
        ],
        finder.warnings_of(folder, ListedEntry::Read(data)) == (if data.kind == EntryKind::File
            && data.name is Some && name_allowed(
            finder.allowed_extensions.file_extensions.deep_view(),
            data.name.unwrap()@,
        ) && data.size >= finder.minimal_file_size && !data.is_excluded_item {
            match data.modified {
                ModifiedTime::Unavailable => seq![
                    "Unable to get modification date from file "@ + data.path.text@,
                ],
                ModifiedTime::BeforeEpoch => seq![
                    "File "@ + data.path.text@ + " seems to be modified before Unix Epoch."@,
                ],
                ModifiedTime::Seconds(_) => Seq::empty(),
            }
        } else {
            Seq::empty()
        }),
{
}

/// A folder that could not be opened holds nothing that a search sees, and one thing
/// is said, that names it; of another all entries are seen.
pub proof fn law_listing_is_seen_whole(
    finder: DuplicateFinder,
    folder: Seq<char>,
    entries: Vec<ListedEntry>,
)
    ensures
        entries_of(FolderListing::CannotOpen).len() == 0,
        entries_of(FolderListing::Entries(entries)) == entries@,
        listing_warnings(finder, folder, FolderListing::CannotOpen) == seq![
            "Cannot open dir "@ + folder,
        ],
        listing_warnings(finder, folder, FolderListing::Entries(entries)) == finder.all_warnings(
            folder,
            entries@,
        ),
{
}

} // verus!
