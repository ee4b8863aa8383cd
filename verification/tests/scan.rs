use czkawka_core::finder::DuplicateFinder;
use czkawka_core::model::{FilePath, Messages};
use czkawka_core::scan::{EntryData, EntryKind, FolderListing, ListedEntry, ModifiedTime};

fn entry(kind: EntryKind, name: &str, size: u64) -> EntryData {
    EntryData {
        kind,
        path: FilePath::from_text(&format!("/d/{}", name)),
        name: Some(name.to_string()),
        size,
        modified: ModifiedTime::Seconds(9),
        in_excluded_directory: false,
        is_excluded_item: false,
    }
}

fn file(name: &str, size: u64) -> ListedEntry {
    ListedEntry::Read(entry(EntryKind::File, name, size))
}

fn listing(entries: Vec<ListedEntry>) -> FolderListing {
    FolderListing::Entries(entries)
}

fn by_name(finder: &mut DuplicateFinder, l: FolderListing) -> usize {
    let mut scan = finder.start_scan();
    finder.check_files_name(&mut scan, &FilePath::from_text("/d"), &l)
}

#[test]
fn files_are_filed_by_name() {
    let mut finder = DuplicateFinder::new();
    let n = by_name(&mut finder, listing(vec![file("a", 2000), file("b", 2000), file("a", 3000)]));
    assert_eq!(n, 3);
    let names = finder.get_files_sorted_by_names();
    assert_eq!(names.len(), 2);
    assert_eq!(names.key_at(0), "a");
    let a = names.get("a").unwrap();
    assert_eq!(a.len(), 2);
    assert_eq!((a[0].size, a[1].size), (2000, 3000));
    assert_eq!(a[0].path.text, "/d/a");
    assert_eq!(a[0].modified_date, 9);
    assert_eq!(a[0].hash, "");
    assert!(names.get("c").is_none());
}

#[test]
fn files_are_filed_by_size() {
    let mut finder = DuplicateFinder::new();
    let mut scan = finder.start_scan();
    let l = listing(vec![file("a", 2000), file("b", 1500), file("c", 2000)]);
    assert_eq!(finder.check_files_size(&mut scan, &FilePath::from_text("/d"), &l), 3);
    let sizes = finder.get_files_sorted_by_size();
    assert_eq!(sizes.keys().copied().collect::<Vec<u64>>(), vec![1500, 2000]);
    assert_eq!(sizes[&2000][1].path.text, "/d/c");
}

#[test]
fn scan_in_parts_is_scan_at_once() {
    let mut once = DuplicateFinder::new();
    by_name(&mut once, listing(vec![file("a", 2000), file("b", 2000), file("a", 3000)]));
    let mut twice = DuplicateFinder::new();
    by_name(&mut twice, listing(vec![file("a", 2000), file("b", 2000)]));
    by_name(&mut twice, listing(vec![file("a", 3000)]));
    for name in ["a", "b"] {
        let x = once.get_files_sorted_by_names().get(name).unwrap();
        let y = twice.get_files_sorted_by_names().get(name).unwrap();
        assert_eq!(
            x.iter().map(|f| f.size).collect::<Vec<u64>>(),
            y.iter().map(|f| f.size).collect::<Vec<u64>>()
        );
    }
}

#[test]
fn small_files_are_left_out() {
    let mut finder = DuplicateFinder::new();
    assert_eq!(by_name(&mut finder, listing(vec![file("a", 1023), file("b", 1024)])), 2);
    assert_eq!(finder.get_files_sorted_by_names().len(), 1);
    assert_eq!(finder.get_files_sorted_by_names().key_at(0), "b");
}

#[test]
fn empty_files_are_left_out_in_any_case() {
    let mut finder = DuplicateFinder::new();
    finder.set_minimal_file_size(0);
    by_name(&mut finder, listing(vec![file("a", 0), file("b", 1)]));
    assert_eq!(finder.get_files_sorted_by_names().len(), 1);
    assert_eq!(finder.get_files_sorted_by_names().key_at(0), "b");
}

#[test]
fn extensions_are_compared_in_lower_case() {
    let mut finder = DuplicateFinder::new();
    finder.set_allowed_extensions(vec!["TXT".to_string(), "\u{c4}h".to_string()], Messages::new());
    by_name(
        &mut finder,
        listing(vec![
            file("a.Txt", 2000),
            file("b.pdf", 2000),
            file("ctxt", 2000),
            file("d.\u{e4}H", 2000),
        ]),
    );
    let names = finder.get_files_sorted_by_names();
    assert_eq!(names.len(), 2);
    assert_eq!(names.key_at(0), "a.Txt");
    assert_eq!(names.key_at(1), "d.\u{e4}H");
}

#[test]
fn folders_are_followed_last_first() {
    let mut finder = DuplicateFinder::new();
    finder.set_included_directory(vec![FilePath::from_text("/d")], true, Messages::new());
    let mut scan = finder.start_scan();
    let d = scan.next_folder().unwrap();
    assert_eq!(d.text, "/d");
    let mut out = entry(EntryKind::Directory, "out", 0);
    out.in_excluded_directory = true;
    let mut item = entry(EntryKind::Directory, "item", 0);
    item.is_excluded_item = true;
    let l = listing(vec![
        ListedEntry::Read(entry(EntryKind::Directory, "x", 0)),
        ListedEntry::Read(out),
        ListedEntry::Read(item),
        ListedEntry::Read(entry(EntryKind::Other, "o", 5000)),
        ListedEntry::Read(entry(EntryKind::Directory, "y", 0)),
    ]);
    assert_eq!(finder.check_files_name(&mut scan, &d, &l), 0);
    assert_eq!(scan.next_folder().unwrap().text, "/d/y");
    assert_eq!(scan.next_folder().unwrap().text, "/d/x");
    assert!(scan.next_folder().is_none());
    assert_eq!(finder.get_files_sorted_by_names().len(), 0);
}

#[test]
fn folders_are_not_followed_without_recursion() {
    let mut finder = DuplicateFinder::new();
    finder.set_recursive_search(false);
    let mut scan = finder.start_scan();
    let l = listing(vec![ListedEntry::Read(entry(EntryKind::Directory, "x", 0))]);
    finder.check_files_size(&mut scan, &FilePath::from_text("/d"), &l);
    assert!(scan.next_folder().is_none());
}

#[test]
fn excluded_and_unnamed_files_are_left_out() {
    let mut finder = DuplicateFinder::new();
    let mut item = entry(EntryKind::File, "a", 2000);
    item.is_excluded_item = true;
    let mut unnamed = entry(EntryKind::File, "b", 2000);
    unnamed.name = None;
    let n = by_name(&mut finder, listing(vec![ListedEntry::Read(item), ListedEntry::Read(unnamed)]));
    assert_eq!(n, 2);
    assert_eq!(finder.get_files_sorted_by_names().len(), 0);
    assert!(finder.get_text_messages().warnings.is_empty());
}

#[test]
fn warnings_of_a_scan() {
    let mut finder = DuplicateFinder::new();
    let mut early = entry(EntryKind::File, "early", 2000);
    early.modified = ModifiedTime::BeforeEpoch;
    let mut undated = entry(EntryKind::File, "undated", 2000);
    undated.modified = ModifiedTime::Unavailable;
    by_name(&mut finder, FolderListing::CannotOpen);
    by_name(
        &mut finder,
        listing(vec![
            ListedEntry::Unreadable,
            ListedEntry::NoMetadata,
            ListedEntry::Read(early),
            ListedEntry::Read(undated),
        ]),
    );
    assert_eq!(
        finder.get_text_messages().warnings,
        vec![
            "Cannot open dir /d",
            "Cannot read entry in dir /d",
            "Cannot read metadata in dir /d",
            "File /d/early seems to be modified before Unix Epoch.",
            "Unable to get modification date from file /d/undated",
        ]
    );
    assert_eq!(finder.get_files_sorted_by_names().len(), 1);
    assert_eq!(finder.get_files_sorted_by_names().get("early").unwrap()[0].modified_date, 0);
}

#[test]
fn names_are_pruned_and_counted() {
    let mut finder = DuplicateFinder::new();
    by_name(
        &mut finder,
        listing(vec![file("a", 2000), file("b", 2000), file("a", 3000), file("a", 4000)]),
    );
    finder.keep_identical_names();
    assert!(finder.can_count_names());
    finder.count_names();
    assert_eq!(finder.get_files_sorted_by_names().len(), 1);
    assert_eq!(finder.get_files_sorted_by_names().get("a").unwrap().len(), 3);
    assert_eq!(finder.get_information().number_of_groups_by_name, 1);
    assert_eq!(finder.get_information().number_of_duplicated_files_by_name, 2);
}

#[test]
fn sizes_are_pruned_and_counted() {
    let mut finder = DuplicateFinder::new();
    let mut scan = finder.start_scan();
    let l = listing(vec![
        file("a", 2000),
        file("b", 3000),
        file("c", 2000),
        file("d", 2000),
        file("e", 5000),
        file("f", 5000),
    ]);
    finder.check_files_size(&mut scan, &FilePath::from_text("/d"), &l);
    finder.keep_identical_sizes();
    assert!(finder.can_count_sizes());
    finder.count_sizes();
    let info = finder.get_information();
    assert_eq!(info.number_of_groups_by_size, 2);
    assert_eq!(info.number_of_duplicated_files_by_size, 3);
    assert_eq!(info.lost_space_by_size, 2 * 2000 + 5000);
    assert!(!finder.get_files_sorted_by_size().contains_key(&3000));
}

#[test]
fn too_large_counts_are_refused() {
    let mut finder = DuplicateFinder::new();
    by_name(&mut finder, listing(vec![file("a", 2000), file("a", 3000)]));
    finder.information.number_of_groups_by_name = usize::MAX;
    assert!(!finder.can_count_names());
    let mut finder = DuplicateFinder::new();
    let mut scan = finder.start_scan();
    let l = listing(vec![file("a", u64::MAX), file("b", u64::MAX), file("c", u64::MAX)]);
    finder.check_files_size(&mut scan, &FilePath::from_text("/d"), &l);
    assert!(!finder.can_count_sizes());
}
