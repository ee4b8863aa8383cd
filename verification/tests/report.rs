use czkawka_core::finder::DuplicateFinder;
use czkawka_core::model::{CheckingMethod, FileEntry, FilePath, ForeignPath, Messages};
use czkawka_core::report;
use czkawka_core::report::SaveOutcome;

fn file(path: &str, size: u64) -> FileEntry {
    FileEntry { path: FilePath::from_text(path), size, modified_date: 1, hash: String::new() }
}

fn finder(method: CheckingMethod) -> DuplicateFinder {
    let mut f = DuplicateFinder::new();
    f.set_check_method(method);
    f.set_included_directory(vec![FilePath::from_text("/in"), FilePath::from_text("/q\"")], true, Messages::new());
    f.set_excluded_items(vec!["*/.git*".to_string()], Messages::new());
    f
}

#[test]
fn name_of_the_results_file() {
    assert_eq!(report::results_file_name(""), "results.txt");
    assert_eq!(report::results_file_name("x"), "x");
}

#[test]
fn heading_of_the_results() {
    let mut f = finder(CheckingMethod::Name);
    assert_eq!(
        f.results_heading(),
        "Results of searching [\"/in\", \"/q\\\"\"] with excluded directories [] and excluded items [\"*/.git*\"]\n"
    );
    let foreign = FilePath {
        text: "/\u{fffd}".to_string(),
        foreign: Some(ForeignPath { id: 1, debug: "\"/\\xFF\"".to_string() }),
    };
    f.set_excluded_directory(vec![foreign], Messages::new());
    assert!(f.results_heading().contains("with excluded directories [\"/\\xFF\"] and"));
}

#[test]
fn results_by_size() {
    let mut f = finder(CheckingMethod::Size);
    assert_eq!(f.results_body(), "Not found any duplicates.");
    f.files_with_identical_size.insert(1536, vec![file("/a", 1536), file("/b", 1536)]);
    f.files_with_identical_size.insert(2048, vec![file("/c", 2048), file("/d", 2048)]);
    f.count_sizes();
    assert_eq!(
        f.results_body(),
        "-------------------------------------------------Files with same size-------------------------------------------------\n\
         Found 2 duplicated files which in 2 groups which takes 3.50 KiB.\n\
         \n---- Size 2 KiB (2048) - 2 files \n/c\n/d\n\
         \n---- Size 1.50 KiB (1536) - 2 files \n/a\n/b\n"
    );
    assert_eq!(
        f.print_results(),
        vec![
            "Found 4 files in 2 groups with same size(may have different content) which took 3.50 KiB:",
            "Size - 1.50 KiB (1536) - 2 files ",
            "/a",
            "/b",
            "",
            "Size - 2 KiB (2048) - 2 files ",
            "/c",
            "/d",
            "",
        ]
    );
}

#[test]
fn results_by_hash() {
    for method in [CheckingMethod::Hash, CheckingMethod::HashMB] {
        let mut f = finder(method);
        assert_eq!(f.results_body(), "Not found any duplicates.");
        f.files_with_identical_hashes.insert(
            5,
            vec![vec![file("/a", 5), file("/b", 5)], vec![file("/c", 5), file("/d", 5), file("/e", 5)]],
        );
        f.files_with_identical_hashes.insert(7, vec![vec![file("/f", 7), file("/g", 7)]]);
        f.information.lost_space_by_size = 100;
        f.finish_files_hash();
        assert_eq!(
            f.results_body(),
            "-------------------------------------------------Files with same hashes-------------------------------------------------\n\
             Found 4 duplicated files which in 3 groups which takes 22 B.\n\
             \n---- Size 7 B (7) - 2 files\n/f\n/g\n\
             \n---- Size 5 B (5) - 2 files\n/a\n/b\n\
             \n---- Size 5 B (5) - 3 files\n/c\n/d\n/e\n"
        );
        assert_eq!(f.count_files_found(), Some(7));
        assert_eq!(
            f.print_results(),
            vec![
                "Found 7 duplicated files in 3 groups with same content which took 100 B:",
                "Size - 7 B (7) - 2 files ",
                "/f",
                "/g",
                "----",
                "",
                "Size - 5 B (5) - 2 files ",
                "/a",
                "/b",
                "----",
                "Size - 5 B (5) - 3 files ",
                "/c",
                "/d",
                "/e",
                "----",
                "",
            ]
        );
    }
}

#[test]
fn results_by_name() {
    let mut f = finder(CheckingMethod::Name);
    assert_eq!(f.results_body(), "Not found any files with same names.");
    f.files_with_identical_names.insert("n".to_string(), vec![file("/x/n", 1), file("/y/n", 2)]);
    f.files_with_identical_names.insert("m".to_string(), vec![file("/x/m", 1), file("/y/m", 2), file("/z/m", 3)]);
    f.count_names();
    assert_eq!(f.results_body(), "Not found any files with same names.");
    assert_eq!(
        f.print_results(),
        vec![
            "Found 5 files in 2 groups with same name(may have different content)",
            "Name - m - 3 files ",
            "/x/m",
            "/y/m",
            "/z/m",
            "",
            "Name - n - 2 files ",
            "/x/n",
            "/y/n",
            "",
        ]
    );
    f.files_with_identical_size.insert(1, vec![file("/x/n", 1)]);
    assert_eq!(
        f.results_body(),
        "-------------------------------------------------Files with same names-------------------------------------------------\n\
         Found 3 files in 2 groups with same name(may have different content)\n\
         Name - n - 2 files \n/x/n\n/y/n\n\n\
         Name - m - 3 files \n/x/m\n/y/m\n/z/m\n\n"
    );
}

#[test]
fn counts_match_groups() {
    let mut f = finder(CheckingMethod::Size);
    f.files_with_identical_size.insert(10, vec![file("/a", 10), file("/b", 10), file("/c", 10)]);
    f.files_with_identical_size.insert(20, vec![file("/d", 20), file("/e", 20)]);
    f.count_sizes();
    let info = f.get_information();
    assert_eq!(
        Some((info.number_of_duplicated_files_by_size + info.number_of_groups_by_size) as u64),
        f.count_files_found()
    );
}

#[test]
fn outcome_of_saving() {
    let mut f = finder(CheckingMethod::Size);
    assert!(f.save_results_to_file("", SaveOutcome::Saved));
    assert!(f.get_text_messages().errors.is_empty());
    assert!(!f.save_results_to_file("", SaveOutcome::CannotCreate));
    assert!(!f.save_results_to_file("out", SaveOutcome::CannotWrite));
    assert_eq!(
        f.get_text_messages().errors,
        vec!["Failed to create file results.txt", "Failed to save results to file out"]
    );
}

#[test]
fn lines_for_debugging() {
    let mut f = finder(CheckingMethod::HashMB);
    f.set_allowed_extensions(vec!["txt".to_string(), "o\\d".to_string()], Messages::new());
    f.text_messages.warnings.push("w".to_string());
    f.files_with_identical_size.insert(10, vec![file("/a", 10), file("/b", 10)]);
    f.information.number_of_duplicated_files_by_size = 4;
    f.information.number_of_groups_by_size = 3;
    f.information.gained_space = 1024 * 1024;
    assert_eq!(
        f.debug_print(),
        vec![
            "---------------DEBUG PRINT---------------",
            "### Information's",
            "Errors size - 0",
            "Warnings size - 1",
            "Messages size - 0",
            "Number of duplicated files by size(in groups) - 4 (3)",
            "Number of duplicated files by hash(in groups) - 0 (0)",
            "Number of duplicated files by name(in groups) - 0 (0)",
            "Lost space by size - 0 B (0 bytes)",
            "Lost space by hash - 0 B (0 bytes)",
            "Gained space by removing duplicated entries - 1 MiB (1048576 bytes)",
            "Bytes read when hashing - 0 B (0 bytes)",
            "Number of removed files - 0",
            "Number of failed to remove files - 0",
            "### Other",
            "Files list size - 1",
            "Hashed Files list size - 0",
            "Allowed extensions - [\"txt\", \"o\\\\d\"]",
            "Excluded items - [\"*/.git*\"]",
            "Included directories - [\"/in\", \"/q\\\"\"]",
            "Excluded directories - []",
            "Recursive search - true",
            "Minimum file size - 1024",
            "Checking Method - HashMB",
            "Delete Method - None",
            "-----------------------------------------",
        ]
    );
}
