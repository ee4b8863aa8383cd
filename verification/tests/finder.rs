use czkawka_core::digest::HashStage;
use czkawka_core::finder::{DuplicateFinder, SearchEvent, SearchStep};
use czkawka_core::model::{
    CheckingMethod, DeleteMethod, Directories, FileEntry, FilePath, HashType, Info, Messages,
};
use czkawka_core::progress;
use std::collections::BTreeMap;

fn said(text: &str) -> Messages {
    let mut m = Messages::new();
    m.warnings.push(text.to_string());
    m
}

#[test]
fn a_new_finder() {
    let f = DuplicateFinder::new();
    assert!(f.recursive_search);
    assert_eq!(f.minimal_file_size, 1024);
    assert_eq!(*f.get_check_method(), CheckingMethod::NotSet);
    assert_eq!(f.delete_method, DeleteMethod::DoNothing);
    assert_eq!(f.hash_type, HashType::Blake3);
    assert!(!f.get_stopped_search());
    assert_eq!(f.get_files_sorted_by_names().len(), 0);
    assert!(f.get_files_sorted_by_size().is_empty());
    assert!(f.get_files_sorted_by_hash().is_empty());
    assert_eq!(DuplicateFinder::default().minimal_file_size, 1024);
    assert_eq!(Info::default().gained_space, Info::new().gained_space);
}

#[test]
fn settings() {
    let mut f = DuplicateFinder::new();
    f.set_check_method(CheckingMethod::HashMB);
    f.set_delete_method(DeleteMethod::HardLink);
    f.set_recursive_search(false);
    f.set_minimal_file_size(7);
    assert_eq!(*f.get_check_method(), CheckingMethod::HashMB);
    assert_eq!(f.delete_method, DeleteMethod::HardLink);
    assert!(!f.recursive_search);
    assert_eq!(f.minimal_file_size, 7);
    f.set_minimal_file_size(0);
    assert_eq!(f.minimal_file_size, 1);
}

#[test]
fn settings_with_messages() {
    let mut f = DuplicateFinder::new();
    assert!(f.set_included_directory(vec![FilePath::from_text("/a")], true, said("one")));
    assert!(!f.set_included_directory(vec![], false, said("two")));
    f.set_excluded_directory(vec![FilePath::from_text("/b")], said("three"));
    f.set_allowed_extensions(vec!["txt".to_string()], said("four"));
    f.set_excluded_items(vec!["*x*".to_string()], said("five"));
    let directories = Directories {
        included_directories: vec![FilePath::from_text("/c")],
        excluded_directories: vec![],
    };
    f.optimize_directories(directories, said("six"));
    assert_eq!(f.get_text_messages().warnings, vec!["one", "two", "three", "four", "five", "six"]);
    assert_eq!(f.directories.included_directories[0].text, "/c");
    assert!(f.directories.excluded_directories.is_empty());
    assert_eq!(f.allowed_extensions.file_extensions, vec!["txt"]);
    assert_eq!(f.excluded_items.items, vec!["*x*"]);
}

fn course(method: CheckingMethod) -> Vec<SearchStep> {
    let mut f = DuplicateFinder::new();
    f.set_check_method(method);
    let mut steps = vec![f.first_step()];
    while *steps.last().unwrap() != SearchStep::Finished {
        let next = f.find_duplicates(*steps.last().unwrap(), SearchEvent::Completed);
        steps.push(next);
    }
    assert!(!f.get_stopped_search());
    steps
}

#[test]
fn course_of_a_search() {
    let end = [SearchStep::Delete, SearchStep::DebugPrint, SearchStep::Finished];
    assert_eq!(course(CheckingMethod::Name), [vec![SearchStep::ScanNames], end.to_vec()].concat());
    assert_eq!(course(CheckingMethod::Size), [vec![SearchStep::ScanSizes], end.to_vec()].concat());
    assert_eq!(
        course(CheckingMethod::Hash),
        [
            vec![
                SearchStep::ScanSizes,
                SearchStep::Prehash,
                SearchStep::HashFull,
                SearchStep::SaveHashes { stopped: false },
                SearchStep::GroupByHash,
            ],
            end.to_vec()
        ]
        .concat()
    );
    assert_eq!(
        course(CheckingMethod::HashMB),
        [
            vec![
                SearchStep::ScanSizes,
                SearchStep::Prehash,
                SearchStep::HashMegabyte,
                SearchStep::GroupByHash,
            ],
            end.to_vec()
        ]
        .concat()
    );
}

#[test]
fn stopped_search_ends() {
    for step in [
        SearchStep::ScanNames,
        SearchStep::ScanSizes,
        SearchStep::Prehash,
        SearchStep::HashMegabyte,
    ] {
        let mut f = DuplicateFinder::new();
        f.set_check_method(CheckingMethod::Hash);
        assert_eq!(f.find_duplicates(step, SearchEvent::Stopped), SearchStep::Finished);
        assert!(f.get_stopped_search());
    }
    let mut f = DuplicateFinder::new();
    f.set_check_method(CheckingMethod::Hash);
    let save = f.find_duplicates(SearchStep::HashFull, SearchEvent::Stopped);
    assert_eq!(save, SearchStep::SaveHashes { stopped: true });
    assert_eq!(f.find_duplicates(save, SearchEvent::Completed), SearchStep::Finished);
    assert!(f.get_stopped_search());
    let mut f = DuplicateFinder::new();
    f.set_check_method(CheckingMethod::Size);
    assert_eq!(
        f.find_duplicates(SearchStep::Delete, SearchEvent::Stopped),
        SearchStep::DebugPrint
    );
    assert!(!f.get_stopped_search());
}

#[test]
fn progress_of_a_search() {
    let p = progress::names_progress(5);
    assert_eq!(p.checking_method, CheckingMethod::Name);
    assert_eq!((p.current_stage, p.max_stage, p.files_checked, p.files_to_check), (0, 0, 5, 0));
    let p = progress::sizes_progress(CheckingMethod::Size, 6);
    assert_eq!((p.current_stage, p.max_stage, p.files_checked, p.files_to_check), (0, 0, 6, 0));
    let p = progress::sizes_progress(CheckingMethod::Hash, 6);
    assert_eq!(p.checking_method, CheckingMethod::Hash);
    assert_eq!(p.max_stage, 2);
    assert_eq!(progress::sizes_progress(CheckingMethod::HashMB, 6).max_stage, 2);
    assert_eq!(progress::sizes_progress(CheckingMethod::Name, 6).max_stage, 255);
    let p = progress::hashes_progress(CheckingMethod::HashMB, HashStage::Prehash, 1, 9);
    assert_eq!((p.current_stage, p.max_stage, p.files_checked, p.files_to_check), (1, 2, 1, 9));
    let p = progress::hashes_progress(CheckingMethod::Hash, HashStage::Full, 2, 9);
    assert_eq!((p.current_stage, p.max_stage, p.files_checked, p.files_to_check), (2, 2, 2, 9));
}

#[test]
fn files_to_check_are_counted() {
    let file = |size: u64| FileEntry {
        path: FilePath::from_text("/a"),
        size,
        modified_date: 1,
        hash: String::new(),
    };
    let mut m: BTreeMap<u64, Vec<FileEntry>> = BTreeMap::new();
    assert_eq!(progress::count_files_to_check(&m), Some(0));
    m.insert(3, vec![file(3), file(3)]);
    m.insert(5, vec![file(5)]);
    assert_eq!(progress::count_files_to_check(&m), Some(3));
}
