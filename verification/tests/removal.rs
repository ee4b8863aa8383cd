use czkawka_core::finder::DuplicateFinder;
use czkawka_core::model::{CheckingMethod, DeleteMethod, FileEntry, FilePath};
use czkawka_core::removal;

fn file(path: &str, size: u64, date: u64) -> FileEntry {
    FileEntry { path: FilePath::from_text(path), size, modified_date: date, hash: String::new() }
}

fn group() -> Vec<FileEntry> {
    vec![file("/a", 10, 5), file("/b", 20, 3), file("/c", 40, 9), file("/d", 80, 3)]
}

fn places(files: &Vec<FileEntry>, method: DeleteMethod) -> (Vec<usize>, Option<usize>) {
    let plan = removal::plan_removal(files, &method);
    (plan.places, plan.link_to)
}

#[test]
fn plans() {
    let g = group();
    assert_eq!(places(&g, DeleteMethod::DoNothing), (vec![], None));
    assert_eq!(places(&g, DeleteMethod::OneOldest), (vec![1], None));
    assert_eq!(places(&g, DeleteMethod::OneNewest), (vec![2], None));
    assert_eq!(places(&g, DeleteMethod::AllExceptOldest), (vec![0, 2, 3], None));
    assert_eq!(places(&g, DeleteMethod::AllExceptNewest), (vec![0, 1, 3], None));
    assert_eq!(places(&g, DeleteMethod::HardLink), (vec![0, 2, 3], Some(1)));
}

#[test]
fn a_date_of_zero_is_the_oldest() {
    let g = vec![file("/a", 1, 5), file("/b", 1, 0), file("/c", 1, 7)];
    assert_eq!(places(&g, DeleteMethod::OneOldest), (vec![1], None));
    assert_eq!(places(&g, DeleteMethod::OneNewest), (vec![2], None));
    assert_eq!(places(&g, DeleteMethod::HardLink), (vec![0, 2], Some(1)));
    let g = vec![file("/a", 1, 0), file("/b", 2, 5)];
    assert_eq!(places(&g, DeleteMethod::OneOldest), (vec![0], None));
    assert_eq!(places(&g, DeleteMethod::AllExceptOldest), (vec![1], None));
    let mut warnings = vec![];
    let r = removal::delete_files(&g, &DeleteMethod::OneOldest, &vec![true], &mut warnings);
    assert_eq!(r, (1, 1, 0));
    assert!(warnings.is_empty());
}

#[test]
fn equal_dates() {
    let g = vec![file("/a", 1, 4), file("/b", 1, 4)];
    assert_eq!(places(&g, DeleteMethod::OneOldest), (vec![0], None));
    assert_eq!(places(&g, DeleteMethod::OneNewest), (vec![0], None));
    let g = vec![file("/a", 1, 0), file("/b", 1, 0)];
    assert_eq!(places(&g, DeleteMethod::OneOldest), (vec![1], None));
    assert_eq!(places(&g, DeleteMethod::OneNewest), (vec![1], None));
    let g = vec![file("/a", 1, 0), file("/b", 1, 0), file("/c", 1, 5)];
    assert_eq!(places(&g, DeleteMethod::OneOldest), (vec![1], None));
    assert_eq!(places(&g, DeleteMethod::OneNewest), (vec![2], None));
}

#[test]
fn a_file_is_kept() {
    for method in [
        DeleteMethod::DoNothing,
        DeleteMethod::OneOldest,
        DeleteMethod::OneNewest,
        DeleteMethod::AllExceptOldest,
        DeleteMethod::AllExceptNewest,
        DeleteMethod::HardLink,
    ] {
        assert!(places(&group(), method).0.len() < group().len());
    }
}

#[test]
fn removals_of_a_group() {
    let mut warnings = vec!["first".to_string()];
    let r = removal::delete_files(
        &group(),
        &DeleteMethod::AllExceptOldest,
        &vec![true, false, true],
        &mut warnings,
    );
    assert_eq!(r, (90, 2, 1));
    assert_eq!(warnings, vec!["first", "Failed to delete /c"]);
}

#[test]
fn links_of_a_group() {
    let mut warnings = vec![];
    let r = removal::delete_files(
        &group(),
        &DeleteMethod::HardLink,
        &vec![false, true, true],
        &mut warnings,
    );
    assert_eq!(r, (120, 2, 1));
    assert_eq!(warnings, vec!["Failed to link /a -> /b"]);
}

#[test]
fn too_much_space() {
    let g = vec![file("/a", u64::MAX, 1), file("/b", u64::MAX, 2), file("/c", u64::MAX, 3)];
    assert_eq!(removal::space_gained(&g, &DeleteMethod::OneOldest, &vec![true]), Some(u64::MAX));
    assert_eq!(removal::space_gained(&g, &DeleteMethod::AllExceptOldest, &vec![true, true]), None);
}

#[test]
fn removals_of_a_search() {
    let mut f = DuplicateFinder::new();
    f.set_check_method(CheckingMethod::Size);
    f.set_delete_method(DeleteMethod::AllExceptNewest);
    f.files_with_identical_size.insert(10, vec![file("/a", 10, 1), file("/b", 10, 2)]);
    f.files_with_identical_size.insert(20, vec![file("/c", 20, 1), file("/d", 20, 2), file("/e", 20, 3)]);
    assert_eq!(f.list_found_groups().len(), 2);
    let removed = vec![vec![true], vec![false, true]];
    assert!(f.can_count_removals(&removed));
    f.delete_files(&removed);
    let info = f.get_information();
    assert_eq!(info.gained_space, 30);
    assert_eq!(info.number_of_removed_files, 2);
    assert_eq!(info.number_of_failed_to_remove_files, 1);
    assert_eq!(f.get_text_messages().warnings, vec!["Failed to delete /c"]);
    f.information.gained_space = u64::MAX;
    assert!(!f.can_count_removals(&removed));
}

#[test]
fn groups_by_name_and_hash() {
    let mut f = DuplicateFinder::new();
    f.files_with_identical_names.insert("n".to_string(), vec![file("/x/n", 10, 1), file("/y/n", 10, 2)]);
    f.files_with_identical_hashes.insert(
        5,
        vec![vec![file("/a", 5, 1), file("/b", 5, 2)], vec![file("/c", 5, 1), file("/d", 5, 2)]],
    );
    f.set_check_method(CheckingMethod::Name);
    assert_eq!(f.list_found_groups()[0][1].path.text, "/y/n");
    for method in [CheckingMethod::Hash, CheckingMethod::HashMB] {
        f.set_check_method(method);
        assert_eq!(f.list_found_groups().len(), 2);
        assert_eq!(f.list_found_groups()[1][0].path.text, "/c");
    }
    f.delete_files(&vec![]);
    assert_eq!(f.get_information().number_of_removed_files, 0);
}
