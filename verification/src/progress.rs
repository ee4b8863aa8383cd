//! What a search tells of how far it has come.
use crate::digest::HashStage;
use crate::grouping;
use crate::groups;
use crate::listing;
use crate::model::{CheckingMethod, FileEntry, ProgressData};
use std::collections::BTreeMap;
use vstd::prelude::*;

verus! {

/// How far a search by name has come.
pub fn names_progress(files_checked: usize) -> (r: ProgressData)
    ensures
        r == (ProgressData {
            checking_method: CheckingMethod::Name,
            current_stage: 0,
            max_stage: 0,
            files_checked,
            files_to_check: 0,
        }),
{
    ProgressData {
        checking_method: CheckingMethod::Name,
        current_stage: 0,
        max_stage: 0,
        files_checked,
        files_to_check: 0,
    }
}

/// The last stage of a search that begins with sizes.
pub open spec fn last_stage(method: CheckingMethod) -> u8 {
    match method {
        CheckingMethod::Size => 0,
        CheckingMethod::Hash | CheckingMethod::HashMB => 2,
        _ => 255,
    }
}

/// How far the files have been taken in by size.
pub fn sizes_progress(method: CheckingMethod, files_checked: usize) -> (r: ProgressData)
    ensures
        r == (ProgressData {
            checking_method: method,
            current_stage: 0,
            max_stage: last_stage(method),
            files_checked,
            files_to_check: 0,
        }),
{
    let max_stage: u8 = match method {
        CheckingMethod::Size => 0,
        CheckingMethod::Hash | CheckingMethod::HashMB => 2,
        _ => 255,
    };
    ProgressData {
        checking_method: method,
        current_stage: 0,
        max_stage,
        files_checked,
        files_to_check: 0,
    }
}

/// The number of a stage of hashing.
pub open spec fn stage_number(stage: HashStage) -> u8 {
    match stage {
        HashStage::Prehash => 1,
        _ => 2,
    }
}

/// How far the files have been hashed.
pub fn hashes_progress(
    method: CheckingMethod,
    stage: HashStage,
    files_checked: usize,
    files_to_check: usize,
) -> (r: ProgressData)
    ensures
        r == (ProgressData {
            checking_method: method,
            current_stage: stage_number(stage),
            max_stage: 2,
            files_checked,
            files_to_check,
        }),
{
    let current_stage: u8 = match stage {
        HashStage::Prehash => 1,
        _ => 2,
    };
    ProgressData {
        checking_method: method,
        current_stage,
        max_stage: 2,
        files_checked,
        files_to_check,
    }
}

/// How many files there are to hash, if the number fits.
pub fn count_files_to_check(m: &BTreeMap<u64, Vec<FileEntry>>) -> (r: Option<usize>)
    ensures
        match r {
            Some(n) => n == groups::total_files(groups::by_size(grouping::contents(m@))),
            None => groups::total_files(groups::by_size(grouping::contents(m@))) > usize::MAX,
        },
{
    let list: Vec<(u64, &Vec<FileEntry>)> = listing::list_by_size(m);
    match listing::count_sized(&list) {
        Some(n) => if n <= usize::MAX as u64 {
            Some(n as usize)
        } else {
            None
        },
        None => None,
    }
}

/// A search by size has one stage, one by hash three: the first is the scan, the second
/// the hashing of beginnings, the third that of more.
pub proof fn law_stages()
    ensures
        last_stage(CheckingMethod::Size) == 0,
        last_stage(CheckingMethod::Hash) == 2,
        last_stage(CheckingMethod::HashMB) == 2,
        last_stage(CheckingMethod::Name) == 255,
        last_stage(CheckingMethod::NotSet) == 255,
        stage_number(HashStage::Prehash) == 1,
        stage_number(HashStage::FirstMegabyte) == 2,
        stage_number(HashStage::Full) == 2,
{
}

} // verus!
