use czkawka_core::digest::HashStage;
use czkawka_core::finder::DuplicateFinder;
use czkawka_core::hashing;
use czkawka_core::hashing::{GroupHashes, ReadOutcome};
use czkawka_core::model::{FileEntry, FilePath, ForeignPath};
use czkawka_core::reuse;
use std::collections::BTreeMap;

fn file(path: &str, size: u64, date: u64) -> FileEntry {
    FileEntry { path: FilePath::from_text(path), size, modified_date: date, hash: String::new() }
}

fn record(path: &str, size: u64, date: u64, hash: &str) -> FileEntry {
    let mut f = file(path, size, date);
    f.hash = hash.to_string();
    f
}

fn hashed(hash: &str, bytes: u64) -> ReadOutcome {
    ReadOutcome::Hashed { hash: hash.to_string(), bytes }
}

fn paths(files: &[FileEntry]) -> Vec<&str> {
    files.iter().map(|f| f.path.text.as_str()).collect()
}

fn sample(stage: HashStage) -> GroupHashes {
    let files = vec![file("/a", 10, 1), file("/b", 10, 1), file("/c", 10, 1), file("/d", 10, 1)];
    let outcomes =
        vec![hashed("x", 10), ReadOutcome::CannotOpen, hashed("x", 10), ReadOutcome::CannotRead { bytes: 3 }];
    hashing::hash_group(10, stage, &files, &outcomes)
}

#[test]
fn a_group_by_hash() {
    let g = sample(HashStage::Full);
    assert_eq!(g.size, 10);
    assert_eq!(g.bytes_read, 23);
    assert_eq!(
        g.errors,
        vec!["Unable to check hash of file /b", "Error happened when checking hash of file /d"]
    );
    assert_eq!(g.by_hash.len(), 1);
    let x = g.by_hash.get("x").unwrap();
    assert_eq!(paths(x), vec!["/a", "/c"]);
    assert_eq!(x[0].hash, "x");
}

#[test]
fn only_a_full_hash_is_noted() {
    for stage in [HashStage::Prehash, HashStage::FirstMegabyte] {
        let g = sample(stage);
        assert_eq!(g.by_hash.get("x").unwrap()[1].hash, "");
    }
}

#[test]
fn shared_beginnings_go_on() {
    let mut finder = DuplicateFinder::new();
    let one = sample(HashStage::Prehash);
    let two = hashing::hash_group(
        20,
        HashStage::Prehash,
        &vec![file("/e", 20, 1), file("/f", 20, 1)],
        &vec![hashed("y", 1), hashed("z", 1)],
    );
    let rest = finder.collect_prehash(&vec![one, two]);
    assert_eq!(rest.len(), 1);
    assert_eq!(paths(&rest[&10]), vec!["/a", "/c"]);
    assert_eq!(finder.get_information().bytes_read_when_hashing, 25);
    assert_eq!(
        finder.get_text_messages().warnings,
        vec!["Unable to check hash of file /b", "Error happened when checking hash of file /d"]
    );
}

#[test]
fn equal_hashes_are_grouped() {
    let mut finder = DuplicateFinder::new();
    let files = vec![file("/a", 10, 1), file("/b", 10, 1), file("/c", 10, 1), file("/d", 10, 1), file("/e", 10, 1)];
    let outcomes = vec![hashed("y", 1), hashed("x", 1), hashed("y", 1), hashed("x", 1), hashed("z", 1)];
    let g = hashing::hash_group(10, HashStage::Full, &files, &outcomes);
    finder.file_hash_groups(&vec![g]);
    assert!(finder.can_count_hashes());
    finder.finish_files_hash();
    let groups = &finder.get_files_sorted_by_hash()[&10];
    assert_eq!(groups.len(), 2);
    assert_eq!(paths(&groups[0]), vec!["/b", "/d"]);
    assert_eq!(paths(&groups[1]), vec!["/a", "/c"]);
    let info = finder.get_information();
    assert_eq!(info.number_of_groups_by_hash, 2);
    assert_eq!(info.number_of_duplicated_files_by_hash, 2);
    assert_eq!(info.lost_space_by_hash, 20);
    assert_eq!(info.bytes_read_when_hashing, 5);
    assert!(finder.get_files_sorted_by_size().is_empty());
}

fn files_by_size(files: Vec<FileEntry>) -> BTreeMap<u64, Vec<FileEntry>> {
    let mut m: BTreeMap<u64, Vec<FileEntry>> = BTreeMap::new();
    for f in files {
        m.entry(f.size).or_default().push(f);
    }
    m
}

#[test]
fn each_file_is_known_or_hashed() {
    let files = files_by_size(vec![
        file("/a", 10, 1),
        file("/b", 10, 2),
        file("/c", 10, 3),
        file("/d", 20, 1),
        file("/e", 30, 1),
    ]);
    let loaded = files_by_size(vec![
        record("/a", 10, 1, "x"),
        record("/b", 10, 9, "old"),
        record("/a", 10, 1, "later"),
        record("/e", 30, 1, "w"),
    ]);
    let plan = reuse::plan_hashing(&files, &loaded);
    assert_eq!(plan.cached.len(), 2);
    assert_eq!(plan.cached[&10].len(), 1);
    assert_eq!(plan.cached[&10][0].hash, "x");
    assert_eq!(plan.cached[&30][0].hash, "w");
    assert_eq!(plan.to_hash.len(), 2);
    assert_eq!(paths(&plan.to_hash[&10]), vec!["/b", "/c"]);
    assert_eq!(paths(&plan.to_hash[&20]), vec!["/d"]);
}

#[test]
fn paths_are_compared_as_paths() {
    let files = files_by_size(vec![file("/a/b", 10, 1)]);
    let loaded = files_by_size(vec![record("/a/./b/", 10, 1, "x")]);
    let plan = reuse::plan_hashing(&files, &loaded);
    assert_eq!(plan.cached.len(), 1);
    let loaded = files_by_size(vec![record("/a/B", 10, 1, "x")]);
    let plan = reuse::plan_hashing(&files, &loaded);
    assert_eq!(plan.cached.len(), 0);
}

#[test]
fn foreign_paths_are_compared_by_number() {
    let foreign = |id: u64| FilePath {
        text: "/\u{fffd}".to_string(),
        foreign: Some(ForeignPath { id, debug: "\"/\\xFF\"".to_string() }),
    };
    assert!(foreign(1).same_as(&foreign(1)));
    assert!(!foreign(1).same_as(&foreign(2)));
    assert!(!foreign(1).same_as(&FilePath::from_text("/\u{fffd}")));
}

#[test]
fn known_hashes_join_results() {
    let computed = hashing::hash_group(
        10,
        HashStage::Full,
        &vec![file("/a", 10, 1)],
        &vec![hashed("x", 10)],
    );
    let mut results = vec![computed];
    let cached = files_by_size(vec![
        record("/b", 10, 1, "x"),
        record("/c", 10, 1, "y"),
        record("/d", 20, 1, "z"),
    ]);
    reuse::merge_cached(&mut results, &cached);
    assert_eq!(results.len(), 2);
    assert_eq!(paths(results[0].by_hash.get("x").unwrap()), vec!["/a", "/b"]);
    assert_eq!(paths(results[0].by_hash.get("y").unwrap()), vec!["/c"]);
    assert_eq!(results[1].size, 20);
    assert_eq!(results[1].bytes_read, 0);
    assert_eq!(paths(results[1].by_hash.get("z").unwrap()), vec!["/d"]);
}

#[test]
fn every_path_is_remembered() {
    let loaded = files_by_size(vec![record("/a", 10, 1, "old"), record("/b", 10, 1, "b")]);
    let computed = hashing::hash_group(
        10,
        HashStage::Full,
        &vec![file("/a", 10, 2), file("/c", 10, 2)],
        &vec![hashed("new", 10), ReadOutcome::CannotOpen],
    );
    let m = reuse::collect_records(&loaded, &vec![computed]);
    assert_eq!(m.len(), 2);
    assert_eq!(m.get("/a").unwrap().hash, "new");
    assert_eq!(m.get("/a").unwrap().modified_date, 2);
    assert_eq!(m.get("/b").unwrap().hash, "b");
}

#[test]
fn too_many_bytes_are_refused() {
    assert!(hashing::can_count_bytes(&vec![hashed("x", u64::MAX), ReadOutcome::CannotOpen]));
    assert!(!hashing::can_count_bytes(&vec![hashed("x", u64::MAX), ReadOutcome::CannotRead { bytes: 1 }]));
    let mut finder = DuplicateFinder::new();
    finder.information.bytes_read_when_hashing = u64::MAX - 23;
    assert!(finder.can_note_results(&vec![sample(HashStage::Full)]));
    assert!(!finder.can_note_results(&vec![sample(HashStage::Full), sample(HashStage::Full)]));
}

#[test]
fn equal_files_are_found() {
    let mut finder = DuplicateFinder::new();
    let files = vec![file("/a", 10, 1), file("/b", 10, 1), file("/c", 10, 1), file("/d", 10, 1)];
    let beginnings = vec![hashed("p", 2), hashed("p", 2), hashed("p", 2), hashed("q", 2)];
    let first = hashing::hash_group(10, HashStage::Prehash, &files, &beginnings);
    let rest = finder.collect_prehash(&vec![first]);
    assert_eq!(paths(&rest[&10]), vec!["/a", "/b", "/c"]);
    let outcomes = vec![hashed("x", 10), hashed("y", 10), hashed("x", 10)];
    let full = hashing::hash_group(10, HashStage::Full, &rest[&10], &outcomes);
    finder.file_hash_groups(&vec![full]);
    let groups = &finder.get_files_sorted_by_hash()[&10];
    assert_eq!(groups.len(), 1);
    assert_eq!(paths(&groups[0]), vec!["/a", "/c"]);
    assert_eq!(groups[0][0].hash, "x");
    assert_eq!(groups[0][1].hash, "x");
}
