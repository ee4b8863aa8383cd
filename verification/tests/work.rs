use czkawka_core::counting;
use czkawka_core::digest::{FileDigest, HashStage};
use czkawka_core::finder::DuplicateFinder;
use czkawka_core::hashing::{hash_group, GroupHashes, ReadOutcome};
use czkawka_core::model::{CheckingMethod, FileEntry, FilePath, Messages};
use czkawka_core::scan::{EntryData, EntryKind, FolderListing, ListedEntry, ModifiedTime};
use czkawka_core::text;
use czkawka_core::work::{Ending, HashWork};
use std::collections::BTreeMap;

fn entry(kind: EntryKind, path: &str, size: u64) -> ListedEntry {
    ListedEntry::Read(EntryData {
        kind,
        path: FilePath::from_text(path),
        name: Some(path.rsplit('/').next().unwrap().to_string()),
        size,
        modified: ModifiedTime::Seconds(1),
        in_excluded_directory: false,
        is_excluded_item: false,
    })
}

fn folder(path: &str) -> FolderListing {
    let file = |path: &str, size: u64| entry(EntryKind::File, path, size);
    let dir = |path: &str| entry(EntryKind::Directory, path, 0);
    FolderListing::Entries(match path {
        "/r" => vec![file("/r/a", 2000), dir("/r/x"), dir("/r/y"), file("/r/b", 2000)],
        "/r/x" => vec![file("/r/x/c", 2000), file("/r/x/a", 3000)],
        "/r/y" => vec![dir("/r/y/z"), file("/r/y/d", 2000)],
        "/r/y/z" => vec![file("/r/y/z/e", 3000), file("/r/y/z/f", 4000)],
        _ => unreachable!(),
    })
}

fn scanned(method: CheckingMethod) -> (DuplicateFinder, Vec<String>) {
    let mut f = DuplicateFinder::new();
    f.set_check_method(method);
    f.set_included_directory(vec![FilePath::from_text("/r")], true, Messages::new());
    let mut scan = f.start_scan();
    let mut visited = vec![];
    while let Some(path) = scan.next_folder() {
        visited.push(path.text.clone());
        f.check_files_size(&mut scan, &path, &folder(&path.text));
    }
    (f, visited)
}

#[test]
fn a_whole_walk() {
    let (f, visited) = scanned(CheckingMethod::Size);
    assert_eq!(visited, vec!["/r", "/r/y", "/r/y/z", "/r/x"]);
    let sizes = f.get_files_sorted_by_size();
    let paths = |k: u64| sizes[&k].iter().map(|e| e.path.text.clone()).collect::<Vec<String>>();
    assert_eq!(paths(2000), vec!["/r/a", "/r/b", "/r/y/d", "/r/x/c"]);
    assert_eq!(paths(3000), vec!["/r/y/z/e", "/r/x/a"]);
    assert_eq!(paths(4000), vec!["/r/y/z/f"]);
}

fn read(files: &BTreeMap<u64, Vec<FileEntry>>, stage: HashStage) -> Vec<GroupHashes> {
    // The files a, b, c and e, f hold the same; d shares no more than its beginning.
    let hash = |path: &str| match (path, stage) {
        ("/r/y/d", HashStage::Prehash) => "begin",
        ("/r/y/d", _) => "other",
        ("/r/x/a", _) => "alone",
        (_, HashStage::Prehash) => "begin",
        _ => "same",
    };
    files
        .iter()
        .map(|(size, files)| {
            let outcomes = files
                .iter()
                .map(|f| ReadOutcome::Hashed { hash: hash(&f.path.text).to_string(), bytes: 1 })
                .collect();
            hash_group(*size, stage, files, &outcomes)
        })
        .collect()
}

fn record(path: &str, hash: &str) -> FileEntry {
    FileEntry {
        path: FilePath::from_text(path),
        size: 2000,
        modified_date: 1,
        hash: hash.to_string(),
    }
}

#[test]
fn known_and_computed_hashes_are_compared_within_sizes() {
    let (mut f, _) = scanned(CheckingMethod::Hash);
    assert!(f.finish_files_size());
    let mut work = HashWork::new();
    let first = read(f.get_files_sorted_by_size(), HashStage::Prehash);
    assert!(f.can_note_results(&first));
    work.take_beginnings(&mut f, &first);
    assert_eq!(work.files_left().len(), 1);
    assert_eq!(work.files_left()[&2000].len(), 4);
    assert!(work.can_plan());
    let mut loaded = BTreeMap::new();
    loaded.insert(2000, vec![record("/r/b", "same")]);
    let plan = work.plan(Some(loaded));
    assert_eq!(plan.cached[&2000].len(), 1);
    assert_eq!(plan.to_hash[&2000].len(), 3);
    work.take_hashes(read(&plan.to_hash, HashStage::Full), &plan);
    let records = work.records();
    assert_eq!(records.len(), 4);
    assert_eq!(records.get("/r/y/d").unwrap().hash, "other");
    assert_eq!(work.finish(&mut f), Ending::Counted);
    assert!(f.is_well_formed());
    assert!(f.get_files_sorted_by_size().is_empty());
    let groups = &f.get_files_sorted_by_hash()[&2000];
    assert_eq!(groups.len(), 1);
    let paths: Vec<&str> = groups[0].iter().map(|e| e.path.text.as_str()).collect();
    assert_eq!(paths, vec!["/r/a", "/r/x/c", "/r/b"]);
    let info = f.get_information();
    assert_eq!(info.number_of_duplicated_files_by_size, 4);
    assert_eq!(info.number_of_duplicated_files_by_hash, 2);
    assert_eq!(info.lost_space_by_size, 9000);
    assert_eq!(info.lost_space_by_hash, 4000);
    let (mut by_size, _) = scanned(CheckingMethod::Size);
    by_size.keep_identical_sizes();
    by_size.count_sizes();
    assert_eq!(
        by_size.get_information().number_of_groups_by_size,
        info.number_of_groups_by_size
    );
    assert_eq!(by_size.get_information().lost_space_by_size, info.lost_space_by_size);
}

#[test]
fn nothing_is_known_where_nothing_was_loaded() {
    let (mut f, _) = scanned(CheckingMethod::HashMB);
    f.keep_identical_sizes();
    let mut work = HashWork::new();
    let first = read(f.get_files_sorted_by_size(), HashStage::Prehash);
    work.take_beginnings(&mut f, &first);
    let plan = work.plan(None);
    assert!(plan.cached.is_empty());
    assert_eq!(plan.to_hash[&2000].len(), 4);
    work.take_computed(read(work.files_left(), HashStage::FirstMegabyte));
    work.give_groups(&mut f);
    assert_eq!(f.get_files_sorted_by_hash()[&2000][0].len(), 3);
    assert_eq!(f.get_information().bytes_read_when_hashing, 10);
}

#[test]
fn what_is_filed_wrongly_is_seen() {
    let mut f = DuplicateFinder::new();
    assert!(f.is_well_formed());
    f.files_with_identical_size.insert(5, vec![record("/a", "")]);
    assert!(!f.is_well_formed());
    assert!(!counting::is_filed_by_size(f.get_files_sorted_by_size()));
    f.files_with_identical_size.clear();
    f.files_with_identical_hashes.insert(2000, vec![vec![record("/a", "")]]);
    assert!(!f.is_well_formed());
    f.files_with_identical_hashes.insert(2000, vec![vec![record("/a", ""), record("/b", "")]]);
    assert!(f.is_well_formed());
}

#[test]
fn order_of_texts() {
    assert!(text::comes_before("", "a"));
    assert!(text::comes_before("a", "ab"));
    assert!(text::comes_before("ab", "b"));
    assert!(!text::comes_before("b", "ab"));
    assert!(!text::comes_before("a", "a"));
    assert!(text::comes_before("z", "\u{e4}"));
}

#[test]
fn endings_of_a_search_by_hash() {
    let groups = || vec![record("/a", ""), record("/b", "")];
    let results = || {
        let outcomes = groups()
            .iter()
            .map(|_| ReadOutcome::Hashed { hash: "x".to_string(), bytes: 5 })
            .collect();
        vec![hash_group(2000, HashStage::FirstMegabyte, &groups(), &outcomes)]
    };
    let mut work = HashWork::new();
    work.take_computed(results());
    let mut f = DuplicateFinder::new();
    f.information.bytes_read_when_hashing = u64::MAX - 9;
    assert_eq!(work.finish(&mut f), Ending::TooManyBytes);
    assert!(f.get_files_sorted_by_hash().is_empty());
    let mut f = DuplicateFinder::new();
    f.files_with_identical_size.insert(5, groups());
    assert_eq!(work.finish(&mut f), Ending::Misfiled);
    assert_eq!(f.get_information().bytes_read_when_hashing, 10);
    assert_eq!(f.get_information().number_of_groups_by_hash, 0);
    let mut f = DuplicateFinder::new();
    f.information.number_of_groups_by_hash = usize::MAX;
    assert_eq!(work.finish(&mut f), Ending::TooManyFiles);
    assert_eq!(f.get_files_sorted_by_hash()[&2000].len(), 1);
    let mut f = DuplicateFinder::new();
    assert_eq!(work.finish(&mut f), Ending::Counted);
    assert_eq!(f.get_information().number_of_groups_by_hash, 1);
    assert_eq!(f.get_information().lost_space_by_hash, 2000);
}

#[test]
fn endings_of_scans() {
    let (mut f, _) = scanned(CheckingMethod::Size);
    f.information.number_of_groups_by_size = usize::MAX;
    assert!(!f.finish_files_size());
    assert_eq!(f.get_files_sorted_by_size().len(), 2);
    assert_eq!(f.get_information().number_of_groups_by_size, usize::MAX);
    let mut f = DuplicateFinder::new();
    let mut scan = f.start_scan();
    f.check_files_name(&mut scan, &FilePath::from_text("/r"), &folder("/r"));
    f.check_files_name(&mut scan, &FilePath::from_text("/r/x"), &folder("/r/x"));
    assert!(f.finish_files_name());
    assert_eq!(f.get_files_sorted_by_names().len(), 1);
    assert_eq!(f.get_information().number_of_groups_by_name, 1);
    f.information.number_of_groups_by_name = usize::MAX;
    assert!(!f.finish_files_name());
}

/// Reads a content in pieces that fill the buffer.
fn digest_of(content: &[u8], stage: HashStage) -> FileDigest {
    let mut digest = FileDigest::new(stage);
    let mut left = content;
    loop {
        let n = left.len().min(stage.buffer_len());
        let more = digest.take_chunk(&left[..n]);
        left = &left[n..];
        if !more {
            return digest;
        }
    }
}

#[test]
fn what_is_hashed_of_a_content() {
    let content: Vec<u8> = (0..1_500_000u32).map(|i| (i % 253) as u8).collect();
    for (stage, n) in [
        (HashStage::Prehash, 2048),
        (HashStage::FirstMegabyte, 1024 * 1024),
        (HashStage::Full, content.len()),
    ] {
        match digest_of(&content, stage).outcome() {
            ReadOutcome::Hashed { hash, bytes } => {
                assert_eq!(bytes, n as u64);
                assert_eq!(hash, blake3::hash(&content[..n]).to_hex().to_string());
            }
            _ => unreachable!(),
        }
    }
    match digest_of(b"abc", HashStage::Full).broken_outcome() {
        ReadOutcome::CannotRead { bytes } => assert_eq!(bytes, 3),
        _ => unreachable!(),
    }
}

#[test]
fn equal_contents_are_found_and_no_others() {
    let mut end = vec![1u8; 1024 * 1024];
    end.push(2);
    let mut other_end = vec![1u8; 1024 * 1024];
    other_end.push(3);
    let contents = [("/a", end.clone()), ("/b", other_end), ("/c", end)];
    let size = 1024 * 1024 + 1;
    let search = |stage: HashStage| {
        let outcome = |path: &str, stage: HashStage| {
            let content = &contents.iter().find(|(p, _)| *p == path).unwrap().1;
            digest_of(content, stage).outcome()
        };
        let files: Vec<FileEntry> = contents
            .iter()
            .map(|(path, _)| FileEntry {
                path: FilePath::from_text(path),
                size,
                modified_date: 1,
                hash: String::new(),
            })
            .collect();
        let begin = files.iter().map(|f| outcome(&f.path.text, HashStage::Prehash)).collect();
        let mut finder = DuplicateFinder::new();
        let mut work = HashWork::new();
        let first = vec![hash_group(size, HashStage::Prehash, &files, &begin)];
        work.take_beginnings(&mut finder, &first);
        let left = &work.files_left()[&size];
        let outcomes = left.iter().map(|f| outcome(&f.path.text, stage)).collect();
        let results = vec![hash_group(size, stage, left, &outcomes)];
        work.take_computed(results);
        assert_eq!(work.finish(&mut finder), Ending::Counted);
        let groups = &finder.get_files_sorted_by_hash()[&size];
        assert_eq!(groups.len(), 1);
        groups[0].iter().map(|f| f.path.text.clone()).collect::<Vec<String>>()
    };
    assert_eq!(search(HashStage::Full), vec!["/a", "/c"]);
    assert_eq!(search(HashStage::FirstMegabyte), vec!["/a", "/b", "/c"]);
}

#[test]
fn no_path_comes_twice_among_groups_by_hash() {
    let files: Vec<FileEntry> = ["/a", "/b", "/c", "/d", "/e"]
        .iter()
        .map(|path| record(path, ""))
        .collect();
    let outcomes = ["x", "y", "x", "y", "z"]
        .iter()
        .map(|hash| ReadOutcome::Hashed { hash: hash.to_string(), bytes: 1 })
        .collect();
    let mut work = HashWork::new();
    work.take_computed(vec![hash_group(2000, HashStage::FirstMegabyte, &files, &outcomes)]);
    let mut f = DuplicateFinder::new();
    assert_eq!(work.finish(&mut f), Ending::Counted);
    let mut paths: Vec<String> = f.get_files_sorted_by_hash()[&2000]
        .iter()
        .flatten()
        .map(|file| file.path.text.clone())
        .collect();
    paths.sort();
    assert_eq!(paths, vec!["/a", "/b", "/c", "/d"]);
    assert_eq!(f.get_information().number_of_groups_by_hash, 2);
    assert_eq!(f.get_information().number_of_duplicated_files_by_hash, 2);
}
