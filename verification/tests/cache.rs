use czkawka_core::cache;
use czkawka_core::cache::{CacheLine, CacheSource, SaveEvent, SaveStep};
use czkawka_core::model::{FileEntry, FilePath, HashType, Messages};
use czkawka_core::textmap::TextMap;

const LARGE: u64 = 5 * 1024 * 1024 + 1;

fn file(path: &str, size: u64, date: u64, hash: &str) -> FileEntry {
    FileEntry {
        path: FilePath::from_text(path),
        size,
        modified_date: date,
        hash: hash.to_string(),
    }
}

fn text(line: &str) -> CacheLine {
    CacheLine::Text { line: line.to_string(), exists: true }
}

fn load(lines: Vec<CacheLine>, m: &mut Messages) -> Option<std::collections::BTreeMap<u64, Vec<FileEntry>>> {
    cache::load_hashes_from_file(&CacheSource::Opened { cache_file: "/c/f".to_string(), lines }, m)
}

#[test]
fn name_of_the_file() {
    assert_eq!(cache::cache_file_name(&HashType::Blake3), "cache_duplicates_Blake3.txt");
}

#[test]
fn a_line() {
    assert_eq!(cache::cache_line(&file("/a/b", 1200, 0, "ff")), "/a/b//1200//0//ff");
    assert_eq!(
        cache::cache_line(&file("/a", u64::MAX, 10, "")),
        "/a//18446744073709551615//10//"
    );
}

#[test]
fn large_files_are_written_in_order() {
    let mut m: TextMap<FileEntry> = TextMap::new();
    m.insert("/b".to_string(), file("/b", LARGE, 1, "bb"));
    m.insert("/a".to_string(), file("/a", LARGE, 2, "aa"));
    m.insert("/c".to_string(), file("/c", LARGE - 1, 3, "cc"));
    assert_eq!(
        cache::cache_lines(&m),
        vec!["/a//5242881//2//aa".to_string(), "/b//5242881//1//bb".to_string()]
    );
}

#[test]
fn saved_hashes_are_loaded() {
    let mut m: TextMap<FileEntry> = TextMap::new();
    m.insert("/b c".to_string(), file("/b c", LARGE, 1, "bb"));
    m.insert("/a".to_string(), file("/a", LARGE, 2, "aa"));
    m.insert("/d".to_string(), file("/d", LARGE + 1, 2, "dd"));
    let lines = cache::cache_lines(&m).iter().map(|l| text(l)).collect();
    let mut said = Messages::new();
    let loaded = load(lines, &mut said).unwrap();
    assert!(said.warnings.is_empty() && said.messages.is_empty());
    assert_eq!(loaded.len(), 2);
    let same = &loaded[&LARGE];
    assert_eq!(same.len(), 2);
    assert_eq!(same[0].path.text, "/a");
    assert!(same[0].path.foreign.is_none());
    assert_eq!((same[0].size, same[0].modified_date), (LARGE, 2));
    assert_eq!(same[0].hash, "aa");
    assert_eq!(same[1].path.text, "/b c");
    assert_eq!(loaded[&(LARGE + 1)][0].hash, "dd");
}

#[test]
fn a_path_with_a_double_slash_is_not_read_back() {
    let mut said = Messages::new();
    let line = cache::cache_line(&file("/a//b", LARGE, 1, "cc"));
    let loaded = load(vec![text(&line)], &mut said).unwrap();
    assert!(loaded.is_empty());
    assert_eq!(
        said.warnings,
        vec!["Found invalid data(too much or too low amount of data) in line 1 - (/a//b//5242881//1//cc) in cache file /c/f"]
    );
}

#[test]
fn warnings_of_loading() {
    let mut said = Messages::new();
    let loaded = load(
        vec![
            text("/a//x//1//h"),
            text("/a//1//y//h"),
            text("/a//1//2"),
            text("/a//+7//2//h"),
            CacheLine::Text { line: "/gone//x//1//h".to_string(), exists: false },
            text("/a//18446744073709551616//2//h"),
        ],
        &mut said,
    )
    .unwrap();
    assert_eq!(
        said.warnings,
        vec![
            "Found invalid size value in line 1 - (/a//x//1//h) in cache file /c/f",
            "Found invalid modified date value in line 2 - (/a//1//y//h) in cache file /c/f",
            "Found invalid data(too much or too low amount of data) in line 3 - (/a//1//2) in cache file /c/f",
            "Found invalid size value in line 6 - (/a//18446744073709551616//2//h) in cache file /c/f",
        ]
    );
    assert_eq!(loaded.len(), 1);
    assert_eq!(loaded[&7][0].hash, "h");
}

#[test]
fn an_unreadable_line_ends_the_loading() {
    let mut said = Messages::new();
    let r = load(vec![text("/a//1//2//h"), CacheLine::Unreadable, text("bad")], &mut said);
    assert!(r.is_none());
    assert_eq!(said.warnings, vec!["Failed to load line number 2 from cache file /c/f"]);
}

#[test]
fn no_file_to_load() {
    let mut said = Messages::new();
    assert!(cache::load_hashes_from_file(&CacheSource::CannotOpen, &mut said).is_none());
    assert!(said.messages.is_empty() && said.warnings.is_empty());
    assert!(cache::load_hashes_from_file(&CacheSource::NoDirectory, &mut said).is_none());
    assert_eq!(
        said.messages,
        vec!["Cannot find or open system config dir to save cache file"]
    );
}

#[test]
fn path_of_a_line() {
    assert_eq!(cache::cached_path("/a/b//1//2//h"), Some("/a/b".to_string()));
    assert_eq!(cache::cached_path("/a/b//1//2"), None);
    assert_eq!(cache::cached_path("a///1//2//h"), Some("a".to_string()));
}

fn step(s: SaveStep, e: SaveEvent, lines: usize) -> (SaveStep, Vec<String>) {
    let mut said = Messages::new();
    let r = cache::save_hashes_to_file(s, e, lines, "/c", "/c/f", &mut said);
    assert!(said.warnings.is_empty() && said.errors.is_empty());
    (r, said.messages)
}

#[test]
fn every_line_is_saved() {
    let mut s = SaveStep::CheckDirectory;
    let mut all = vec![];
    while s != SaveStep::Finished {
        all.push(s);
        let (next, said) = step(s, SaveEvent::Succeeded, 2);
        assert!(said.is_empty());
        s = next;
    }
    assert_eq!(
        all,
        vec![
            SaveStep::CheckDirectory,
            SaveStep::OpenFile,
            SaveStep::WriteLine(0),
            SaveStep::WriteLine(1)
        ]
    );
    assert_eq!(step(SaveStep::OpenFile, SaveEvent::Succeeded, 0).0, SaveStep::Finished);
}

#[test]
fn messages_of_saving() {
    let done = SaveStep::Finished;
    assert_eq!(
        step(SaveStep::CheckDirectory, SaveEvent::Failed, 1),
        (done, vec!["Config dir /c is a file!".to_string()])
    );
    assert_eq!(
        step(SaveStep::CheckDirectory, SaveEvent::Missing, 1),
        (SaveStep::CreateDirectory, vec![])
    );
    assert_eq!(
        step(SaveStep::CreateDirectory, SaveEvent::Failed, 1),
        (done, vec!["Cannot create config dir /c".to_string()])
    );
    assert_eq!(
        step(SaveStep::CreateDirectory, SaveEvent::Succeeded, 1),
        (SaveStep::OpenFile, vec![])
    );
    assert_eq!(
        step(SaveStep::OpenFile, SaveEvent::Failed, 1),
        (done, vec!["Cannot create or open cache file /c/f".to_string()])
    );
    assert_eq!(
        step(SaveStep::WriteLine(0), SaveEvent::Failed, 1),
        (done, vec!["Failed to save some data to cache file /c/f".to_string()])
    );
}
