//! The values that a search works on.
use vstd::prelude::*;

verus! {

/// What a search compares files by.
#[derive(PartialEq, Eq, Clone, Copy, Debug, Structural)]
pub enum CheckingMethod {
    /// No method has been chosen yet.
    NotSet,
    Name,
    Size,
    Hash,
    HashMB,
}

/// The hash function that contents are compared by.
#[derive(PartialEq, Eq, Clone, Copy, Debug, Structural)]
pub enum HashType {
    Blake3,
}

/// What happens to the files of a group of duplicates.
#[derive(PartialEq, Eq, Clone, Copy, Debug, Structural)]
pub enum DeleteMethod {
    /// Every file is left where it is.
    DoNothing,
    AllExceptNewest,
    AllExceptOldest,
    OneOldest,
    OneNewest,
    HardLink,
}

/// How far a search has come.
#[derive(Debug)]
pub struct ProgressData {
    pub checking_method: CheckingMethod,
    pub current_stage: u8,
    pub max_stage: u8,
    pub files_checked: usize,
    pub files_to_check: usize,
}

/// A path that is not Unicode: the number by which its owner finds it again, and
/// how it looks when it is formatted for debugging. Equal paths have equal numbers.
#[derive(Debug)]
pub struct ForeignPath {
    pub id: u64,
    pub debug: String,
}

impl Clone for ForeignPath {
    fn clone(&self) -> (r: Self)
        ensures
            r == *self,
    {
        ForeignPath { id: self.id, debug: self.debug.clone() }
    }
}

/// A path. `text` is what is shown of it; unless the path is foreign, `text` is
/// the path itself.
#[derive(Debug)]
pub struct FilePath {
    pub text: String,
    pub foreign: Option<ForeignPath>,
}

impl Clone for FilePath {
    fn clone(&self) -> (r: Self)
        ensures
            r == *self,
    {
        FilePath {
            text: self.text.clone(),
            foreign: match &self.foreign {
                Some(f) => Some(f.clone()),
                None => None,
            },
        }
    }
}

/// What a path is: its text and, if it is foreign, its number and its debug form.
pub struct PathView {
    pub text: Seq<char>,
    pub foreign: Option<(u64, Seq<char>)>,
}

impl View for FilePath {
    type V = PathView;

    open spec fn view(&self) -> PathView {
        PathView {
            text: self.text@,
            foreign: match self.foreign {
                Some(f) => Some((f.id, f.debug@)),
                None => None,
            },
        }
    }
}

impl DeepView for FilePath {
    type V = PathView;

    open spec fn deep_view(&self) -> PathView {
        self@
    }
}

/// Whether two Unicode paths are equal.
pub uninterp spec fn paths_equal(a: Seq<char>, b: Seq<char>) -> bool;

/// Calls `==` on two `std::path::Path`, which compares them component by
/// component by the rules of the platform that the crate is built for. The
/// result is named `paths_equal` of the two texts; a path equals itself.
#[verifier::external_body]
fn same_text_path(a: &str, b: &str) -> (r: bool)
    ensures
        r == paths_equal(a@, b@),
        a@ == b@ ==> r,
{
    std::path::Path::new(a) == std::path::Path::new(b)
}

/// Two paths are the same: two Unicode paths that are equal, or one foreign path.
pub open spec fn same_file(a: PathView, b: PathView) -> bool {
    match (a.foreign, b.foreign) {
        (None, None) => paths_equal(a.text, b.text),
        (Some(x), Some(y)) => x.0 == y.0,
        _ => false,
    }
}

/// The path that a text writes.
pub open spec fn text_path(text: Seq<char>) -> PathView {
    PathView { text, foreign: None }
}

impl FilePath {
    /// The path that a text writes.
    pub fn from_text(text: &str) -> (r: Self)
        ensures
            r@ == text_path(text@),
    {
        FilePath { text: text.to_owned(), foreign: None }
    }

    /// Whether this is the same path as `other`.
    pub fn same_as(&self, other: &FilePath) -> (r: bool)
        ensures
            r == same_file(self@, other@),
            self.foreign is None && other.foreign is None && self.text@ == other.text@ ==> r,
    {
        match (&self.foreign, &other.foreign) {
            (None, None) => same_text_path(self.text.as_str(), other.text.as_str()),
            (Some(x), Some(y)) => x.id == y.id,
            _ => false,
        }
    }
}

/// A file that a search has found.
#[derive(Debug)]
pub struct FileEntry {
    pub path: FilePath,
    pub size: u64,
    pub modified_date: u64,
    pub hash: String,
}

impl Clone for FileEntry {
    fn clone(&self) -> (r: Self)
        ensures
            r == *self,
    {
        FileEntry {
            path: self.path.clone(),
            size: self.size,
            modified_date: self.modified_date,
            hash: self.hash.clone(),
        }
    }
}

/// What a file is.
pub struct FileView {
    pub path: PathView,
    pub size: u64,
    pub modified_date: u64,
    pub hash: Seq<char>,
}

impl View for FileEntry {
    type V = FileView;

    open spec fn view(&self) -> FileView {
        FileView {
            path: self.path@,
            size: self.size,
            modified_date: self.modified_date,
            hash: self.hash@,
        }
    }
}

impl DeepView for FileEntry {
    type V = FileView;

    open spec fn deep_view(&self) -> FileView {
        self@
    }
}

/// A copy of some files.
pub fn clone_files(files: &Vec<FileEntry>) -> (r: Vec<FileEntry>)
    ensures
        r@ == files@,
{
    let mut r: Vec<FileEntry> = Vec::new();
    let mut i: usize = 0;
    while i < files.len()
        invariant
            i <= files.len(),
            r@ == files@.take(i as int),
        decreases files.len() - i,
    {
        r.push(files[i].clone());
        i += 1;
        assert(r@ =~= files@.take(i as int));
    }
    assert(files@.take(files@.len() as int) =~= files@);
    r
}

/// Numbers about the results of a search.
#[derive(Debug)]
pub struct Info {
    pub number_of_groups_by_size: usize,
    pub number_of_duplicated_files_by_size: usize,
    pub number_of_groups_by_hash: usize,
    pub number_of_duplicated_files_by_hash: usize,
    pub number_of_groups_by_name: usize,
    pub number_of_duplicated_files_by_name: usize,
    pub lost_space_by_size: u64,
    pub lost_space_by_hash: u64,
    pub bytes_read_when_hashing: u64,
    pub number_of_removed_files: usize,
    pub number_of_failed_to_remove_files: usize,
    pub gained_space: u64,
}

impl Info {
    /// Every number is zero.
    pub open spec fn zero() -> Info {
        Info {
            number_of_groups_by_size: 0,
            number_of_duplicated_files_by_size: 0,
            number_of_groups_by_hash: 0,
            number_of_duplicated_files_by_hash: 0,
            number_of_groups_by_name: 0,
            number_of_duplicated_files_by_name: 0,
            lost_space_by_size: 0,
            lost_space_by_hash: 0,
            bytes_read_when_hashing: 0,
            number_of_removed_files: 0,
            number_of_failed_to_remove_files: 0,
            gained_space: 0,
        }
    }

    pub fn new() -> (r: Self)
        ensures
            r == Info::zero(),
    {
        Info {
            number_of_groups_by_size: 0,
            number_of_duplicated_files_by_size: 0,
            number_of_groups_by_hash: 0,
            number_of_duplicated_files_by_hash: 0,
            number_of_groups_by_name: 0,
            number_of_duplicated_files_by_name: 0,
            lost_space_by_size: 0,
            lost_space_by_hash: 0,
            bytes_read_when_hashing: 0,
            number_of_removed_files: 0,
            number_of_failed_to_remove_files: 0,
            gained_space: 0,
        }
    }
}

impl Default for Info {
    fn default() -> (r: Self)
        ensures
            r == Info::zero(),
    {
        Info::new()
    }
}

/// What a search has to say to its user.
#[derive(Debug)]
pub struct Messages {
    pub messages: Vec<String>,
    pub warnings: Vec<String>,
    pub errors: Vec<String>,
}

impl Messages {
    pub fn new() -> (r: Self)
        ensures
            r.messages@.len() == 0,
            r.warnings@.len() == 0,
            r.errors@.len() == 0,
    {
        Messages { messages: Vec::new(), warnings: Vec::new(), errors: Vec::new() }
    }
}

/// The directories that a search begins in, and those that it leaves out.
#[derive(Debug)]
pub struct Directories {
    pub included_directories: Vec<FilePath>,
    pub excluded_directories: Vec<FilePath>,
}

/// The extensions that a file may have; any, if the list is empty.
#[derive(Debug)]
pub struct Extensions {
    pub file_extensions: Vec<String>,
}

/// The patterns of the paths that a search leaves out.
#[derive(Debug)]
pub struct ExcludedItems {
    pub items: Vec<String>,
}

/// What a path and a file are leaves nothing out.
pub proof fn law_files_are_seen_whole(file: FileEntry)
    ensures
        file@.path == file.path@,
        file@.size == file.size,
        file@.modified_date == file.modified_date,
        file@.hash == file.hash@,
        file.path@.text == file.path.text@,
        file.path@.foreign == (match file.path.foreign {
            Some(f) => Some((f.id, f.debug@)),
            None => None,
        }),
        file.deep_view() == file@,
        file.path.deep_view() == file.path@,
{
}

/// Two Unicode paths are the same if their texts are equal as paths, two others if they
/// have one number; one of each never is.
pub proof fn law_same_paths(a: PathView, b: PathView)
    ensures
        a.foreign is None && b.foreign is None ==> (same_file(a, b) <==> paths_equal(
            a.text,
            b.text,
        )),
        a.foreign is Some && b.foreign is Some ==> (same_file(a, b) <==> a.foreign.unwrap().0
            == b.foreign.unwrap().0),
        a.foreign is Some != b.foreign is Some ==> !same_file(a, b),
{
}

/// The path that a text writes has that text and is Unicode.
pub proof fn law_text_writes_a_path(text: Seq<char>)
    ensures
        text_path(text).text == text,
        text_path(text).foreign is None,
{
}

/// At first every number is zero.
pub proof fn law_statistics_begin_at_zero()
    ensures
        Info::zero() == (Info {
            number_of_groups_by_size: 0,
            number_of_duplicated_files_by_size: 0,
            number_of_groups_by_hash: 0,
            number_of_duplicated_files_by_hash: 0,
            number_of_groups_by_name: 0,
            number_of_duplicated_files_by_name: 0,
            lost_space_by_size: 0,
            lost_space_by_hash: 0,
            bytes_read_when_hashing: 0,
            number_of_removed_files: 0,
            number_of_failed_to_remove_files: 0,
            gained_space: 0,
        }),
{
}

} // verus!
