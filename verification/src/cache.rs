//! The file in which hashes are remembered from one search to the next.
//!
//! A line is about one file: its path, its size, its date and its hash, with
//! double slashes between them.
use crate::finder;
use crate::grouping;
use crate::model;
use crate::model::{FileEntry, FilePath, FileView, HashType, Messages};
use crate::reuse;
use crate::text;
use crate::textmap;
use crate::textmap::TextMap;
use std::collections::BTreeMap;
use vstd::prelude::*;
use vstd::string::*;

verus! {

/// Hashes are remembered of files that are larger than this.
pub const CACHED_ABOVE_BYTES: u64 = 5 * 1024 * 1024;

/// The name of the file for hashes of one type.
pub open spec fn file_name_for(hash_type: HashType) -> Seq<char> {
    match hash_type {
        HashType::Blake3 => "cache_duplicates"@ + "_Blake3"@ + ".txt"@,
    }
}

/// The name of the file for hashes of one type.
pub fn cache_file_name(hash_type: &HashType) -> (r: String)
    ensures
        r@ == file_name_for(*hash_type),
{
    let start: String = match hash_type {
        HashType::Blake3 => text::join("cache_duplicates", "_Blake3"),
    };
    text::join(start.as_str(), ".txt")
}

// ---------------------------------------------------------------------------
// Writing
// ---------------------------------------------------------------------------

/// The line about a file.
pub open spec fn line_of(file: FileView) -> Seq<char> {
    file.path.text + "//"@ + text::decimal(file.size as nat) + "//"@ + text::decimal(
        file.modified_date as nat,
    ) + "//"@ + file.hash
}

/// The line about a file.
pub fn cache_line(file: &FileEntry) -> (r: String)
    ensures
        r@ == line_of(file@),
{
    let mut r: String = text::join(file.path.text.as_str(), "//");
    text::append_number(&mut r, file.size);
    r.append("//");
    text::append_number(&mut r, file.modified_date);
    r.append("//");
    r.append(file.hash.as_str());
    r
}

/// The lines about the files under some keys that are large enough.
pub open spec fn lines_under(keys: Seq<Seq<char>>, m: Map<Seq<char>, FileView>) -> Seq<Seq<char>>
    decreases keys.len(),
{
    if keys.len() == 0 {
        Seq::empty()
    } else if m[keys.last()].size > CACHED_ABOVE_BYTES {
        lines_under(keys.drop_last(), m).push(line_of(m[keys.last()]))
    } else {
        lines_under(keys.drop_last(), m)
    }
}

/// The lines about the files that are large enough, in the order of their paths.
pub open spec fn lines_about(m: Map<Seq<char>, FileView>) -> Seq<Seq<char>> {
    lines_under(textmap::keys_of(m), m)
}

/// The lines about the files that are large enough, in the order of their paths.
pub fn cache_lines(records: &TextMap<FileEntry>) -> (r: Vec<String>)
    ensures
        r.deep_view() == lines_about(reuse::remembered(records@)),
{
    let ghost m = reuse::remembered(records@);
    let n: usize = records.len();
    let ghost keys = textmap::keys_of(records@);
    proof {
        assert forall|k: Seq<char>| #[trigger] keys.contains(k) <==> m.contains_key(k) by {
            assert(records@.contains_key(k) == keys.contains(k));
        }
        textmap::lemma_keys_are(keys, m);
    }
    let mut r: Vec<String> = Vec::new();
    let mut i: usize = 0;
    assert(r.deep_view() =~= Seq::empty());
    while i < n
        invariant
            i <= n,
            n == keys.len(),
            keys == textmap::keys_of(records@),
            m == reuse::remembered(records@),
            r.deep_view() == lines_under(keys.take(i as int), m),
        decreases n - i,
    {
        let file: &FileEntry = records.value_at(i);
        let ghost before = r.deep_view();
        if file.size > CACHED_ABOVE_BYTES {
            r.push(cache_line(file));
            assert(r.deep_view() =~= before.push(line_of(file@)));
        }
        i += 1;
        proof {
            assert(keys.take(i as int).drop_last() =~= keys.take(i - 1));
            assert(keys.take(i as int).last() == keys[i - 1]);
        }
    }
    assert(keys.take(n as int) =~= keys);
    r
}

/// What has to be done next to save the lines.
#[derive(PartialEq, Eq, Clone, Copy, Debug, Structural)]
pub enum SaveStep {
    /// Look at the directory for the file.
    CheckDirectory,
    CreateDirectory,
    /// Open the file, and empty it.
    OpenFile,
    /// Write one line.
    WriteLine(usize),
    Finished,
}

/// How a step went.
#[derive(PartialEq, Eq, Clone, Copy, Debug, Structural)]
pub enum SaveEvent {
    /// It was done; the directory is there.
    Succeeded,
    /// It could not be done; what is there is no directory.
    Failed,
    /// There is nothing where the directory should be.
    Missing,
}

/// The step that writes line `i` of `lines`, if there is one.
pub open spec fn line_step(i: nat, lines: usize) -> SaveStep {
    if i < lines {
        SaveStep::WriteLine(i as usize)
    } else {
        SaveStep::Finished
    }
}

/// The step that follows.
pub open spec fn step_after(step: SaveStep, event: SaveEvent, lines: usize) -> SaveStep {
    match (step, event) {
        (SaveStep::CheckDirectory, SaveEvent::Missing) => SaveStep::CreateDirectory,
        (SaveStep::CheckDirectory, SaveEvent::Succeeded) => SaveStep::OpenFile,
        (SaveStep::CreateDirectory, SaveEvent::Succeeded) => SaveStep::OpenFile,
        (SaveStep::OpenFile, SaveEvent::Succeeded) => line_step(0, lines),
        (SaveStep::WriteLine(i), SaveEvent::Succeeded) => line_step((i + 1) as nat, lines),
        _ => SaveStep::Finished,
    }
}

/// What is said of a step.
pub open spec fn said_of(
    step: SaveStep,
    event: SaveEvent,
    directory: Seq<char>,
    file: Seq<char>,
) -> Seq<Seq<char>> {
    match (step, event) {
        (_, SaveEvent::Succeeded) => Seq::empty(),
        (SaveStep::Finished, _) => Seq::empty(),
        (SaveStep::CheckDirectory, SaveEvent::Missing) => Seq::empty(),
        (SaveStep::CheckDirectory, _) => seq!["Config dir "@ + directory + " is a file!"@],
        (SaveStep::CreateDirectory, _) => seq!["Cannot create config dir "@ + directory],
        (SaveStep::OpenFile, _) => seq!["Cannot create or open cache file "@ + file],
        (SaveStep::WriteLine(_), _) => seq!["Failed to save some data to cache file "@ + file],
    }
}

/// Decides what follows on a step of saving the lines, and says what went wrong.
pub fn save_hashes_to_file(
    step: SaveStep,
    event: SaveEvent,
    lines: usize,
    cache_dir: &str,
    cache_file: &str,
    text_messages: &mut Messages,
) -> (r: SaveStep)
    ensures
        r == step_after(step, event, lines),
        final(text_messages).messages.deep_view() == old(text_messages).messages.deep_view()
            + said_of(step, event, cache_dir@, cache_file@),
        final(text_messages).warnings == old(text_messages).warnings,
        final(text_messages).errors == old(text_messages).errors,
{
    let ghost before = text_messages.messages.deep_view();
    assert(before + Seq::<Seq<char>>::empty() =~= before);
    if event == SaveEvent::Succeeded {
        return match step {
            SaveStep::CheckDirectory => SaveStep::OpenFile,
            SaveStep::CreateDirectory => SaveStep::OpenFile,
            SaveStep::OpenFile => if 0 < lines {
                SaveStep::WriteLine(0)
            } else {
                SaveStep::Finished
            },
            SaveStep::WriteLine(i) => if i < usize::MAX && i + 1 < lines {
                SaveStep::WriteLine(i + 1)
            } else {
                SaveStep::Finished
            },
            SaveStep::Finished => SaveStep::Finished,
        };
    }
    if event == SaveEvent::Missing && step == SaveStep::CheckDirectory {
        return SaveStep::CreateDirectory;
    }
    let message: String = match step {
        SaveStep::CheckDirectory => {
            let start: String = text::join("Config dir ", cache_dir);
            text::join(start.as_str(), " is a file!")
        },
        SaveStep::CreateDirectory => text::join("Cannot create config dir ", cache_dir),
        SaveStep::OpenFile => text::join("Cannot create or open cache file ", cache_file),
        SaveStep::WriteLine(_) => text::join("Failed to save some data to cache file ", cache_file),
        SaveStep::Finished => {
            return SaveStep::Finished;
        },
    };
    text_messages.messages.push(message);
    assert(text_messages.messages.deep_view() =~= before + said_of(
        step,
        event,
        cache_dir@,
        cache_file@,
    ));
    SaveStep::Finished
}

/// The step after `n` steps that succeeded, from the opening of the file on.
pub open spec fn after_successes(n: nat, lines: usize) -> SaveStep
    decreases n,
{
    if n == 0 {
        SaveStep::OpenFile
    } else {
        step_after(after_successes((n - 1) as nat, lines), SaveEvent::Succeeded, lines)
    }
}

/// While every step succeeds, each line is written once, in order, and then the
/// saving is finished.
pub proof fn law_every_line_is_saved(i: nat, lines: usize)
    requires
        i <= lines,
    ensures
        after_successes(i + 1, lines) == if i < lines {
            SaveStep::WriteLine(i as usize)
        } else {
            SaveStep::Finished
        },
    decreases i,
{
    if i > 0 {
        law_every_line_is_saved((i - 1) as nat, lines);
    } else {
        assert(after_successes(0, lines) == SaveStep::OpenFile);
    }
}

// ---------------------------------------------------------------------------
// Reading
// ---------------------------------------------------------------------------

/// The file that a line is about.
pub open spec fn file_in(line: Seq<char>) -> Option<FileView> {
    let f = text::fields(line);
    if f.len() != 4 {
        None
    } else {
        match (text::number_of(f[1]), text::number_of(f[2])) {
            (Some(size), Some(modified_date)) => Some(
                FileView { path: model::text_path(f[0]), size, modified_date, hash: f[3] },
            ),
            _ => None,
        }
    }
}

/// A line of the file; `exists` says whether there is a file with its path.
#[derive(Debug)]
pub enum CacheLine {
    Unreadable,
    Text { line: String, exists: bool },
}

/// What a line of the file is.
pub enum CacheLineView {
    Unreadable,
    Text(Seq<char>, bool),
}

impl DeepView for CacheLine {
    type V = CacheLineView;

    open spec fn deep_view(&self) -> CacheLineView {
        match self {
            CacheLine::Unreadable => CacheLineView::Unreadable,
            CacheLine::Text { line, exists } => CacheLineView::Text(line@, *exists),
        }
    }
}

/// Where the remembered hashes come from.
#[derive(Debug)]
pub enum CacheSource {
    /// The system has no directory for them.
    NoDirectory,
    CannotOpen,
    Opened { cache_file: String, lines: Vec<CacheLine> },
}

/// The records that some lines hold, each beside its size.
pub open spec fn records_in(lines: Seq<CacheLineView>) -> Seq<(u64, FileView)>
    decreases lines.len(),
{
    if lines.len() == 0 {
        Seq::empty()
    } else {
        let before = records_in(lines.drop_last());
        match lines.last() {
            CacheLineView::Text(line, exists) => match file_in(line) {
                Some(file) => if exists {
                    before.push((file.size, file))
                } else {
                    before
                },
                None => before,
            },
            CacheLineView::Unreadable => before,
        }
    }
}

/// A line number and a line, as they stand in a warning.
pub open spec fn place_text(
    what: Seq<char>,
    number: nat,
    line: Seq<char>,
    cache_file: Seq<char>,
) -> Seq<char> {
    what + text::decimal(number) + " - ("@ + line + ") in cache file "@ + cache_file
}

/// What is said of line `number` of the file.
pub open spec fn line_warnings(
    number: nat,
    line: CacheLineView,
    cache_file: Seq<char>,
) -> Seq<Seq<char>> {
    match line {
        CacheLineView::Unreadable => seq![
            "Failed to load line number "@ + text::decimal(number) + " from cache file "@
                + cache_file,
        ],
        CacheLineView::Text(line, exists) => {
            let f = text::fields(line);
            if f.len() != 4 {
                seq![
                    place_text(
                        "Found invalid data(too much or too low amount of data) in line "@,
                        number,
                        line,
                        cache_file,
                    ),
                ]
            } else if !exists {
                Seq::empty()
            } else if text::number_of(f[1]) is None {
                seq![place_text("Found invalid size value in line "@, number, line, cache_file)]
            } else if text::number_of(f[2]) is None {
                seq![
                    place_text(
                        "Found invalid modified date value in line "@,
                        number,
                        line,
                        cache_file,
                    ),
                ]
            } else {
                Seq::empty()
            }
        },
    }
}

/// What is said of some lines, up to the first that cannot be read.
pub open spec fn load_warnings(lines: Seq<CacheLineView>, cache_file: Seq<char>) -> Seq<Seq<char>>
    decreases lines.len(),
{
    if lines.len() == 0 {
        Seq::empty()
    } else if has_unreadable(lines.drop_last()) {
        load_warnings(lines.drop_last(), cache_file)
    } else {
        load_warnings(lines.drop_last(), cache_file) + line_warnings(
            lines.len(),
            lines.last(),
            cache_file,
        )
    }
}

/// Some line cannot be read.
pub open spec fn has_unreadable(lines: Seq<CacheLineView>) -> bool {
    exists|i: int| 0 <= i < lines.len() && #[trigger] lines[i] is Unreadable
}

/// The path in a line, if the line has the fields of one.
pub fn cached_path(line: &str) -> (r: Option<String>)
    ensures
        match r {
            Some(path) => text::fields(line@).len() == 4 && path@ == text::fields(line@)[0],
            None => text::fields(line@).len() != 4,
        },
{
    let f: Vec<String> = text::split_fields(line);
    if f.len() == 4 {
        assert(f.deep_view()[0] == f@[0]@);
        Some(f[0].clone())
    } else {
        None
    }
}

/// A warning about a line and its place in the file.
fn place_warning(what: &str, number: u64, line: &str, cache_file: &str) -> (r: String)
    ensures
        r@ == place_text(what@, number as nat, line@, cache_file@),
{
    let mut r: String = what.to_owned();
    text::append_number(&mut r, number);
    r.append(" - (");
    r.append(line);
    r.append(") in cache file ");
    r.append(cache_file);
    r
}

/// Reads the fields of a line about a file that exists.
fn read_record(f: &Vec<String>, number: u64, line: &str, cache_file: &str) -> (r: Result<
    FileEntry,
    String,
>)
    requires
        f.deep_view() == text::fields(line@),
        f.deep_view().len() == 4,
    ensures
        match r {
            Ok(file) => file_in(line@) == Some(file@) && line_warnings(
                number as nat,
                CacheLineView::Text(line@, true),
                cache_file@,
            ) == Seq::<Seq<char>>::empty(),
            Err(warning) => file_in(line@) is None && line_warnings(
                number as nat,
                CacheLineView::Text(line@, true),
                cache_file@,
            ) == seq![warning@],
        },
{
    let ghost fields = text::fields(line@);
    assert(fields[0] == f@[0]@ && fields[1] == f@[1]@);
    assert(fields[2] == f@[2]@ && fields[3] == f@[3]@);
    let size: u64 = match text::parse_number(f[1].as_str()) {
        Some(size) => size,
        None => {
            return Err(
                place_warning("Found invalid size value in line ", number, line, cache_file),
            );
        },
    };
    let modified_date: u64 = match text::parse_number(f[2].as_str()) {
        Some(date) => date,
        None => {
            return Err(
                place_warning(
                    "Found invalid modified date value in line ",
                    number,
                    line,
                    cache_file,
                ),
            );
        },
    };
    Ok(
        FileEntry {
            path: FilePath::from_text(f[0].as_str()),
            size,
            modified_date,
            hash: f[3].clone(),
        },
    )
}

/// Reads the lines of the file, up to the first that cannot be read.
fn load_lines(lines: &Vec<CacheLine>, cache_file: &str, warnings: &mut Vec<String>) -> (r: Option<
    BTreeMap<u64, Vec<FileEntry>>,
>)
    ensures
        final(warnings).deep_view() == old(warnings).deep_view() + load_warnings(
            lines.deep_view(),
            cache_file@,
        ),
        match r {
            Some(loaded) => !has_unreadable(lines.deep_view()) && grouping::contents(loaded@)
                == grouping::gathered(records_in(lines.deep_view())) && finder::filed_by_size(
                grouping::contents(loaded@),
            ),
            None => has_unreadable(lines.deep_view()),
        },
{
    let ghost all = lines.deep_view();
    let ghost first = warnings.deep_view();
    let mut loaded: BTreeMap<u64, Vec<FileEntry>> = BTreeMap::new();
    let mut i: usize = 0;
    proof {
        assert(all.take(0) =~= Seq::empty());
        assert(first + Seq::<Seq<char>>::empty() =~= first);
        grouping::lemma_extended_by_nothing(Map::<u64, Seq<FileView>>::empty());
        assert(grouping::contents(loaded@) =~= Map::empty());
    }
    while i < lines.len()
        invariant
            i <= lines.len(),
            all == lines.deep_view(),
            first == old(warnings).deep_view(),
            !has_unreadable(all.take(i as int)),
            warnings.deep_view() == first + load_warnings(all.take(i as int), cache_file@),
            grouping::contents(loaded@) == grouping::gathered(records_in(all.take(i as int))),
        decreases lines.len() - i,
    {
        let ghost done = all.take(i as int);
        let ghost next = all.take(i + 1);
        let ghost said = warnings.deep_view();
        let number: u64 = i as u64 + 1;
        proof {
            assert(next.drop_last() =~= done);
            assert(next.last() == all[i as int]);
            assert(all[i as int] == lines@[i as int].deep_view());
            assert(load_warnings(next, cache_file@) == load_warnings(done, cache_file@)
                + line_warnings(number as nat, all[i as int], cache_file@));
        }
        match &lines[i] {
            CacheLine::Unreadable => {
                let mut warning: String = "Failed to load line number ".to_owned();
                text::append_number(&mut warning, number);
                warning.append(" from cache file ");
                warning.append(cache_file);
                warnings.push(warning);
                proof {
                    assert(warnings.deep_view() =~= said.push(warning@));
                    assert(warnings.deep_view() =~= first + load_warnings(next, cache_file@));
                    assert(all[i as int] is Unreadable);
                    lemma_nothing_said_later(all, i + 1, cache_file@);
                }
                return None;
            },
            CacheLine::Text { line, exists } => {
                assert(!has_unreadable(next)) by {
                    assert forall|j: int| 0 <= j < next.len() implies !(
                    #[trigger] next[j] is Unreadable) by {
                        if j < i {
                            assert(done[j] == next[j]);
                        }
                    }
                }
                let f: Vec<String> = text::split_fields(line.as_str());
                assert(f.deep_view().len() == f.len());
                if f.len() != 4 {
                    let warning: String = place_warning(
                        "Found invalid data(too much or too low amount of data) in line ",
                        number,
                        line.as_str(),
                        cache_file,
                    );
                    warnings.push(warning);
                    assert(warnings.deep_view() =~= said.push(warning@));
                    assert(warnings.deep_view() =~= first + load_warnings(next, cache_file@));
                } else if *exists {
                    match read_record(&f, number, line.as_str(), cache_file) {
                        Ok(file) => {
                            proof {
                                grouping::lemma_extended_by_one(
                                    Map::<u64, Seq<FileView>>::empty(),
                                    records_in(done),
                                    (file.size, file@),
                                );
                            }
                            grouping::add_item(&mut loaded, file.size, file);
                            assert(warnings.deep_view() =~= first + load_warnings(
                                next,
                                cache_file@,
                            ));
                        },
                        Err(warning) => {
                            warnings.push(warning);
                            assert(warnings.deep_view() =~= said.push(warning@));
                            assert(warnings.deep_view() =~= first + load_warnings(
                                next,
                                cache_file@,
                            ));
                        },
                    }
                } else {
                    assert(warnings.deep_view() =~= first + load_warnings(next, cache_file@));
                }
            },
        }
        i += 1;
    }
    proof {
        assert(all.take(lines.len() as int) =~= all);
        lemma_records_beside_size(all);
        let p = |k: u64, f: FileView| f.size == k;
        grouping::lemma_extended_each(Map::empty(), records_in(all), p);
        let c = grouping::contents(loaded@);
        assert forall|k: u64, n: int| c.contains_key(k) && 0 <= n < c[k].len() implies (
        #[trigger] c[k][n]).size == k by {
            assert(p(k, grouping::gathered(records_in(all))[k][n]));
        }
    }
    Some(loaded)
}

proof fn lemma_records_beside_size(lines: Seq<CacheLineView>)
    ensures
        forall|j: int|
            0 <= j < records_in(lines).len() ==> (#[trigger] records_in(lines)[j]).1.size
                == records_in(lines)[j].0,
    decreases lines.len(),
{
    if lines.len() > 0 {
        lemma_records_beside_size(lines.drop_last());
    }
}

/// Nothing is said of the lines behind one that cannot be read.
proof fn lemma_nothing_said_later(lines: Seq<CacheLineView>, n: int, cache_file: Seq<char>)
    requires
        0 < n <= lines.len(),
        lines[n - 1] is Unreadable,
    ensures
        load_warnings(lines, cache_file) == load_warnings(lines.take(n), cache_file),
        has_unreadable(lines),
    decreases lines.len(),
{
    if n == lines.len() {
        assert(lines.take(n) =~= lines);
    } else {
        let init = lines.drop_last();
        assert(init[n - 1] is Unreadable);
        lemma_nothing_said_later(init, n, cache_file);
        assert(init.take(n) =~= lines.take(n));
    }
}

/// Loads the records of the hashes of files that still exist, each under its
/// size; nothing, if a line cannot be read.
pub fn load_hashes_from_file(source: &CacheSource, text_messages: &mut Messages) -> (r: Option<
    BTreeMap<u64, Vec<FileEntry>>,
>)
    ensures
        final(text_messages).errors == old(text_messages).errors,
        match source {
            CacheSource::NoDirectory => {
                &&& r is None
                &&& final(text_messages).warnings == old(text_messages).warnings
                &&& final(text_messages).messages.deep_view()
                    == old(text_messages).messages.deep_view().push(
                    "Cannot find or open system config dir to save cache file"@,
                )
            },
            CacheSource::CannotOpen => r is None && *final(text_messages) == *old(text_messages),
            CacheSource::Opened { cache_file, lines } => {
                &&& final(text_messages).messages == old(text_messages).messages
                &&& final(text_messages).warnings.deep_view()
                    == old(text_messages).warnings.deep_view() + load_warnings(
                    lines.deep_view(),
                    cache_file@,
                )
                &&& match r {
                    Some(loaded) => !has_unreadable(lines.deep_view()) && grouping::contents(
                        loaded@,
                    ) == grouping::gathered(records_in(lines.deep_view()))
                        && finder::filed_by_size(grouping::contents(loaded@)),
                    None => has_unreadable(lines.deep_view()),
                }
            },
        },
{
    match source {
        CacheSource::NoDirectory => {
            let ghost before = text_messages.messages.deep_view();
            let message: String =
                "Cannot find or open system config dir to save cache file".to_owned();
            text_messages.messages.push(message);
            assert(text_messages.messages.deep_view() =~= before.push(message@));
            None
        },
        CacheSource::CannotOpen => None,
        CacheSource::Opened { cache_file, lines } => {
            load_lines(lines, cache_file.as_str(), &mut text_messages.warnings)
        },
    }
}

// ---------------------------------------------------------------------------
// Writing and reading
// ---------------------------------------------------------------------------

/// A file that one line can be about: its path is Unicode, holds no double slash
/// and ends with no slash, its hash holds no double slash, and no line ends
/// within either.
pub open spec fn can_be_recorded(file: FileView) -> bool {
    &&& file.path.foreign is None
    &&& text::is_field(file.path.text)
    &&& forall|i: int| 0 <= i ==> !text::separator_at(file.hash, i)
    &&& !file.path.text.contains('\n')
    &&& !file.hash.contains('\n')
    &&& !file.hash.contains('\r')
}

/// The line about a file is read as that file.
pub proof fn law_line_reads_back(file: FileView)
    requires
        can_be_recorded(file),
    ensures
        file_in(line_of(file)) == Some(file),
{
    reveal_strlit("//");
    let sep = text::separator();
    assert("//"@ =~= sep);
    let path = file.path.text;
    let size = text::decimal(file.size as nat);
    let date = text::decimal(file.modified_date as nat);
    let hash = file.hash;
    text::lemma_number_reads_back(file.size);
    text::lemma_number_reads_back(file.modified_date);
    lemma_digits_are_field(size);
    lemma_digits_are_field(date);
    let last = date + sep + hash;
    let middle = size + sep + last;
    assert(line_of(file) =~= path + sep + middle);
    text::lemma_fields_split(path, middle);
    text::lemma_fields_split(size, last);
    text::lemma_fields_split(date, hash);
    text::lemma_fields_single(hash);
    let f = text::fields(line_of(file));
    assert(f =~= seq![path, size, date, hash]);
    assert(file.path == model::text_path(path));
}

proof fn lemma_digits_are_field(s: Seq<char>)
    requires
        s.len() > 0,
        forall|i: int| 0 <= i < s.len() ==> text::is_digit(#[trigger] s[i]),
    ensures
        text::is_field(s),
{
    assert(text::is_digit(s[s.len() - 1]));
    assert forall|i: int| 0 <= i implies !text::separator_at(s, i) by {
        if i < s.len() {
            assert(text::is_digit(s[i]));
        }
    }
}

/// The lines of a file that was written, as they are read while every file in
/// them still exists.
pub open spec fn read_lines(lines: Seq<Seq<char>>) -> Seq<CacheLineView> {
    lines.map_values(|line: Seq<char>| CacheLineView::Text(line, true))
}

/// The files under some keys that are large enough to be remembered, each beside
/// its size.
pub open spec fn large_records(keys: Seq<Seq<char>>, m: Map<Seq<char>, FileView>) -> Seq<
    (u64, FileView),
>
    decreases keys.len(),
{
    if keys.len() == 0 {
        Seq::empty()
    } else if m[keys.last()].size > CACHED_ABOVE_BYTES {
        large_records(keys.drop_last(), m).push((m[keys.last()].size, m[keys.last()]))
    } else {
        large_records(keys.drop_last(), m)
    }
}

proof fn lemma_lines_under_read_back(
    keys: Seq<Seq<char>>,
    m: Map<Seq<char>, FileView>,
    cache_file: Seq<char>,
)
    requires
        forall|i: int| 0 <= i < keys.len() ==> can_be_recorded(m[#[trigger] keys[i]]),
    ensures
        records_in(read_lines(lines_under(keys, m))) == large_records(keys, m),
        load_warnings(read_lines(lines_under(keys, m)), cache_file) == Seq::<Seq<char>>::empty(),
        !has_unreadable(read_lines(lines_under(keys, m))),
    decreases keys.len(),
{
    if keys.len() == 0 {
        assert(read_lines(lines_under(keys, m)) =~= Seq::empty());
    } else {
        let init = keys.drop_last();
        assert forall|i: int| 0 <= i < init.len() implies can_be_recorded(
            m[#[trigger] init[i]],
        ) by {
            assert(init[i] == keys[i]);
        }
        lemma_lines_under_read_back(init, m, cache_file);
        let file = m[keys.last()];
        assert(can_be_recorded(m[keys[keys.len() - 1]]));
        if file.size > CACHED_ABOVE_BYTES {
            law_line_reads_back(file);
            let lines = read_lines(lines_under(keys, m));
            assert(lines.drop_last() =~= read_lines(lines_under(init, m)));
            assert(lines.last() == CacheLineView::Text(line_of(file), true));
            let f = text::fields(line_of(file));
            assert(line_warnings(lines.len(), lines.last(), cache_file) =~= Seq::empty());
            assert(load_warnings(lines, cache_file) =~= Seq::empty());
        }
    }
}

/// What is loaded from a file that was just saved is, of what was to be saved,
/// every file that is large enough; nothing else is loaded and no warning is
/// given.
pub proof fn law_saved_hashes_are_loaded(m: Map<Seq<char>, FileView>, cache_file: Seq<char>)
    requires
        m.dom().finite(),
        forall|k: Seq<char>| #[trigger] m.contains_key(k) ==> can_be_recorded(m[k]),
    ensures
        records_in(read_lines(lines_about(m))) == large_records(textmap::keys_of(m), m),
        load_warnings(read_lines(lines_about(m)), cache_file) == Seq::<Seq<char>>::empty(),
        !has_unreadable(read_lines(lines_about(m))),
        forall|file: FileView|
            (exists|k: Seq<char>|
                m.contains_key(k) && #[trigger] m[k] == file && file.size > CACHED_ABOVE_BYTES)
                <==> records_in(read_lines(lines_about(m))).contains((file.size, file)),
{
    textmap::lemma_keys_exist(m);
    let keys = textmap::keys_of(m);
    assert forall|i: int| 0 <= i < keys.len() implies can_be_recorded(m[#[trigger] keys[i]]) by {
        assert(keys.contains(keys[i]));
    }
    lemma_lines_under_read_back(keys, m, cache_file);
    assert forall|file: FileView|
        (exists|k: Seq<char>|
            m.contains_key(k) && #[trigger] m[k] == file && file.size > CACHED_ABOVE_BYTES)
            <==> large_records(keys, m).contains((file.size, file)) by {
        lemma_large_records_hold(keys, m, file);
        if exists|k: Seq<char>|
            m.contains_key(k) && #[trigger] m[k] == file && file.size > CACHED_ABOVE_BYTES {
            let k = choose|k: Seq<char>|
                m.contains_key(k) && #[trigger] m[k] == file && file.size > CACHED_ABOVE_BYTES;
            assert(keys.contains(k));
        }
        if large_records(keys, m).contains((file.size, file)) {
            let i = choose|i: int|
                0 <= i < keys.len() && m[#[trigger] keys[i]] == file && file.size
                    > CACHED_ABOVE_BYTES;
            assert(keys.contains(keys[i]));
        }
    }
}

proof fn lemma_large_records_hold(
    keys: Seq<Seq<char>>,
    m: Map<Seq<char>, FileView>,
    file: FileView,
)
    ensures
        large_records(keys, m).contains((file.size, file)) <==> exists|i: int|
            0 <= i < keys.len() && m[#[trigger] keys[i]] == file && file.size > CACHED_ABOVE_BYTES,
    decreases keys.len(),
{
    let all = large_records(keys, m);
    if keys.len() > 0 {
        let init = keys.drop_last();
        let before = large_records(init, m);
        lemma_large_records_hold(init, m, file);
        let last = m[keys.last()];
        assert(keys[keys.len() - 1] == keys.last());
        if before.contains((file.size, file)) {
            let i = choose|i: int|
                0 <= i < init.len() && m[#[trigger] init[i]] == file && file.size
                    > CACHED_ABOVE_BYTES;
            assert(keys[i] == init[i]);
            let j = choose|j: int| 0 <= j < before.len() && before[j] == (file.size, file);
            assert(all[j] == before[j]);
        } else if last == file && file.size > CACHED_ABOVE_BYTES {
            assert(all[all.len() - 1] == (file.size, file));
        } else {
            assert forall|i: int| 0 <= i < keys.len() implies !(m[#[trigger] keys[i]] == file
                && file.size > CACHED_ABOVE_BYTES) by {
                if i < init.len() {
                    assert(init[i] == keys[i]);
                }
            }
            if all.contains((file.size, file)) {
                let j = choose|j: int| 0 <= j < all.len() && all[j] == (file.size, file);
                if j < before.len() {
                    assert(before[j] == all[j]);
                }
            }
        }
    }
}

// ---------------------------------------------------------------------------
// Laws on what is loaded and saved
// ---------------------------------------------------------------------------

/// What a line is leaves nothing out, nor does it add that a file exists.
pub proof fn law_line_is_seen_whole(line: String, exists: bool)
    ensures
        (CacheLine::Text { line, exists }).deep_view() == CacheLineView::Text(line@, exists),
        CacheLine::Unreadable.deep_view() == CacheLineView::Unreadable,
{
}

/// The records that are loaded are those of the lines about files that exist, in the
/// order of the lines.
pub proof fn law_existing_files_are_loaded(lines: Seq<CacheLineView>)
    ensures
        records_in(lines) == lines.filter_map(
            |line: CacheLineView|
                match line {
                    CacheLineView::Text(text, true) => match file_in(text) {
                        Some(file) => Some((file.size, file)),
                        None => None,
                    },
                    _ => None,
                },
        ),
    decreases lines.len(),
{
    reveal(Seq::filter_map);
    if lines.len() > 0 {
        law_existing_files_are_loaded(lines.drop_last());
    }
}

/// Every record that is loaded comes from a line about a file that exists, stands
/// beside its size, and each such line gives its record. A line about a file that
/// is gone gives none.
pub proof fn law_loaded_records_are_of_existing_files(lines: Seq<CacheLineView>)
    ensures
        forall|n: int|
            0 <= n < records_in(lines).len() ==> {
                let record = #[trigger] records_in(lines)[n];
                &&& record.0 == record.1.size
                &&& exists|i: int|
                    0 <= i < lines.len() && ((#[trigger] lines[i]) matches CacheLineView::Text(
                        line,
                        exists,
                    ) && exists && file_in(line) == Some(record.1))
            },
        forall|i: int|
            0 <= i < lines.len() && ((#[trigger] lines[i]) matches CacheLineView::Text(line, exists)
                && exists && file_in(line) is Some) ==> records_in(lines).contains(
                (
                    file_in(lines[i]->Text_0).unwrap().size,
                    file_in(lines[i]->Text_0).unwrap(),
                ),
            ),
        records_in(lines).len() == lines.filter(
            |line: CacheLineView|
                line matches CacheLineView::Text(text, exists) && exists && file_in(text) is Some,
        ).len(),
    decreases lines.len(),
{
    reveal(Seq::filter);
    if lines.len() > 0 {
        let init = lines.drop_last();
        let before = records_in(init);
        let all = records_in(lines);
        law_loaded_records_are_of_existing_files(init);
        assert forall|n: int| 0 <= n < all.len() implies {
            let record = #[trigger] all[n];
            &&& record.0 == record.1.size
            &&& exists|i: int|
                0 <= i < lines.len() && ((#[trigger] lines[i]) matches CacheLineView::Text(
                    line,
                    exists,
                ) && exists && file_in(line) == Some(record.1))
        } by {
            if n < before.len() {
                let record = before[n];
                let i = choose|i: int|
                    0 <= i < init.len() && ((#[trigger] init[i]) matches CacheLineView::Text(
                        line,
                        exists,
                    ) && exists && file_in(line) == Some(record.1));
                assert(lines[i] == init[i]);
            } else {
                assert(lines[lines.len() - 1] == lines.last());
            }
        }
        assert forall|i: int|
            0 <= i < lines.len() && ((#[trigger] lines[i]) matches CacheLineView::Text(line, exists)
                && exists && file_in(line) is Some) implies all.contains(
            (file_in(lines[i]->Text_0).unwrap().size, file_in(lines[i]->Text_0).unwrap()),
        ) by {
            let record = (
                file_in(lines[i]->Text_0).unwrap().size,
                file_in(lines[i]->Text_0).unwrap(),
            );
            if i < init.len() {
                assert(init[i] == lines[i]);
                let n = choose|n: int| 0 <= n < before.len() && before[n] == record;
                assert(all[n] == record);
            } else {
                assert(all[all.len() - 1] == record);
            }
        }
    }
}

/// What is loaded under a size: the files of that size that lines tell of and that
/// exist, in the order of the lines.
pub proof fn law_loaded_under_a_size(lines: Seq<CacheLineView>, k: u64)
    ensures
        ({
            let files = lines.filter_map(
                |line: CacheLineView|
                    match line {
                        CacheLineView::Text(text, true) => match file_in(text) {
                            Some(file) => if file.size == k {
                                Some(file)
                            } else {
                                None
                            },
                            None => None,
                        },
                        _ => None,
                    },
            );
            let loaded = grouping::gathered(records_in(lines));
            &&& loaded.contains_key(k) <==> files.len() > 0
            &&& loaded.contains_key(k) ==> loaded[k] == files
        }),
    decreases lines.len(),
{
    reveal(Seq::filter_map);
    grouping::lemma_extended_by_nothing(Map::<u64, Seq<FileView>>::empty());
    if lines.len() > 0 {
        let init = lines.drop_last();
        law_loaded_under_a_size(init, k);
        match lines.last() {
            CacheLineView::Text(text, true) => match file_in(text) {
                Some(file) => {
                    grouping::lemma_extended_by_one(
                        Map::<u64, Seq<FileView>>::empty(),
                        records_in(init),
                        (file.size, file),
                    );
                },
                None => {},
            },
            _ => {},
        }
    }
}

/// A line is about a file if it has four fields with numbers in the second and the
/// third: the path, the size, the date and the hash.
pub proof fn law_line_has_four_fields(line: Seq<char>)
    ensures
        ({
            let f = text::fields(line);
            match file_in(line) {
                Some(file) => {
                    &&& f.len() == 4
                    &&& file.path.text == f[0]
                    &&& file.path.foreign is None
                    &&& text::number_of(f[1]) == Some(file.size)
                    &&& text::number_of(f[2]) == Some(file.modified_date)
                    &&& file.hash == f[3]
                },
                None => {
                    ||| f.len() != 4
                    ||| text::number_of(f[1]) is None
                    ||| text::number_of(f[2]) is None
                },
            }
        }),
{
}

/// A line that is written has the path, the size, the date and the hash for its
/// fields.
pub proof fn law_written_fields(file: FileView)
    requires
        can_be_recorded(file),
    ensures
        text::fields(line_of(file)) == seq![
            file.path.text,
            text::decimal(file.size as nat),
            text::decimal(file.modified_date as nat),
            file.hash,
        ],
{
    reveal_strlit("//");
    let sep = text::separator();
    assert("//"@ =~= sep);
    let path = file.path.text;
    let size = text::decimal(file.size as nat);
    let date = text::decimal(file.modified_date as nat);
    let hash = file.hash;
    text::lemma_number_reads_back(file.size);
    text::lemma_number_reads_back(file.modified_date);
    lemma_digits_are_field(size);
    lemma_digits_are_field(date);
    let last = date + sep + hash;
    let middle = size + sep + last;
    assert(line_of(file) =~= path + sep + middle);
    text::lemma_fields_split(path, middle);
    text::lemma_fields_split(size, last);
    text::lemma_fields_split(date, hash);
    text::lemma_fields_single(hash);
    assert(text::fields(line_of(file)) =~= seq![path, size, date, hash]);
}

/// A line can be written about a file if its path is Unicode, neither the path nor
/// the hash holds a double slash or the end of a line, and the path ends with no slash.
pub proof fn law_what_can_be_recorded(file: FileView)
    requires
        file.path.foreign is None,
        forall|i: int|
            0 <= i && i + 1 < file.path.text.len() ==> !(#[trigger] file.path.text[i] == '/'
                && file.path.text[i + 1] == '/'),
        file.path.text.len() > 0 ==> file.path.text.last() != '/',
        forall|i: int|
            0 <= i && i + 1 < file.hash.len() ==> !(#[trigger] file.hash[i] == '/'
                && file.hash[i + 1] == '/'),
        !file.path.text.contains('\n'),
        !file.hash.contains('\n'),
        !file.hash.contains('\r'),
    ensures
        can_be_recorded(file),
        file_in(line_of(file)) == Some(file),
{
    law_line_reads_back(file);
}

/// A line is written about each file of more than five mebibytes, and about no
/// other, in the order of the paths.
pub proof fn law_large_files_are_saved(m: Map<Seq<char>, FileView>)
    ensures
        lines_about(m) == textmap::keys_of(m).filter(
            |k: Seq<char>| m[k].size > 5 * 1024 * 1024,
        ).map_values(|k: Seq<char>| line_of(m[k])),
{
    lemma_lines_are_filtered(textmap::keys_of(m), m);
}

proof fn lemma_lines_are_filtered(keys: Seq<Seq<char>>, m: Map<Seq<char>, FileView>)
    ensures
        lines_under(keys, m) == keys.filter(
            |k: Seq<char>| m[k].size > 5 * 1024 * 1024,
        ).map_values(|k: Seq<char>| line_of(m[k])),
    decreases keys.len(),
{
    reveal(Seq::filter);
    let p = |k: Seq<char>| m[k].size > 5 * 1024 * 1024;
    let f = |k: Seq<char>| line_of(m[k]);
    if keys.len() > 0 {
        lemma_lines_are_filtered(keys.drop_last(), m);
        let before = keys.drop_last().filter(p);
        if m[keys.last()].size > 5 * 1024 * 1024 {
            assert(before.push(keys.last()).map_values(f) =~= before.map_values(f).push(
                line_of(m[keys.last()]),
            ));
        }
    } else {
        assert(keys.filter(p).map_values(f) =~= Seq::empty());
    }
}

/// A file of more than five mebibytes is saved, whatever else is, and a smaller one
/// is not.
pub proof fn law_size_decides_what_is_saved(m: Map<Seq<char>, FileView>, k: Seq<char>)
    requires
        m.dom().finite(),
        m.contains_key(k),
        forall|l: Seq<char>| #[trigger] m.contains_key(l) ==> can_be_recorded(m[l]),
    ensures
        lines_about(m).contains(line_of(m[k])) <==> m[k].size > 5242880,
{
    textmap::lemma_keys_exist(m);
    let keys = textmap::keys_of(m);
    lemma_lines_are_filtered(keys, m);
    let p = |l: Seq<char>| m[l].size > 5 * 1024 * 1024;
    let lines = lines_about(m);
    if m[k].size > 5242880 {
        assert(keys.contains(k));
        let i = choose|i: int| 0 <= i < keys.len() && keys[i] == k;
        keys.lemma_filter_contains(p, i);
        let n = choose|n: int| 0 <= n < keys.filter(p).len() && keys.filter(p)[n] == k;
        assert(lines[n] == line_of(m[k]));
    }
    if lines.contains(line_of(m[k])) {
        let n = choose|n: int| 0 <= n < lines.len() && lines[n] == line_of(m[k]);
        let l = keys.filter(p)[n];
        keys.lemma_filter_pred(p, n);
        keys.lemma_filter_contains_rev(p, l);
        assert(keys.contains(l));
        law_line_reads_back(m[k]);
        law_line_reads_back(m[l]);
    }
}

/// Of a line there is something to say, and one thing, if it cannot be read, if it
/// has not four fields, or if it is about a file that exists and a number in it is
/// wrong.
pub proof fn law_bad_lines_are_told(number: nat, line: CacheLineView, cache_file: Seq<char>)
    ensures
        line_warnings(number, line, cache_file).len() == (match line {
            CacheLineView::Unreadable => 1nat,
            CacheLineView::Text(text, exists) => if text::fields(text).len() != 4 || (exists
                && file_in(text) is None) {
                1nat
            } else {
                0nat
            },
        }),
        forall|i: int|
            0 <= i < line_warnings(number, line, cache_file).len() ==> text::has_suffix(
                #[trigger] line_warnings(number, line, cache_file)[i],
                cache_file,
            ),
{
    let said = line_warnings(number, line, cache_file);
    assert forall|i: int| 0 <= i < said.len() implies text::has_suffix(
        #[trigger] said[i],
        cache_file,
    ) by {
        let n = said[i].len() - cache_file.len();
        assert(said[i].skip(n) =~= cache_file);
    }
}

/// What is said of some lines: of each in turn, with its number, up to and with the
/// first that cannot be read; of those behind it nothing.
pub proof fn law_lines_are_told_in_order(
    lines: Seq<CacheLineView>,
    line: CacheLineView,
    cache_file: Seq<char>,
)
    ensures
        load_warnings(Seq::empty(), cache_file) == Seq::<Seq<char>>::empty(),
        load_warnings(lines.push(line), cache_file) == load_warnings(lines, cache_file) + (if (
        exists|i: int| 0 <= i < lines.len() && #[trigger] lines[i] is Unreadable) {
            Seq::empty()
        } else {
            line_warnings(lines.len() + 1, line, cache_file)
        }),
{
    assert(lines.push(line).drop_last() =~= lines);
    assert(load_warnings(lines, cache_file) + Seq::<Seq<char>>::empty() =~= load_warnings(
        lines,
        cache_file,
    ));
}

/// Nothing is loaded if and only if a line cannot be read.
pub proof fn law_unreadable_line_stops(lines: Seq<CacheLineView>)
    ensures
        has_unreadable(lines) <==> exists|i: int|
            0 <= i < lines.len() && #[trigger] lines[i] == CacheLineView::Unreadable,
{
    if has_unreadable(lines) {
        let i = choose|i: int| 0 <= i < lines.len() && #[trigger] lines[i] is Unreadable;
        assert(lines[i] == CacheLineView::Unreadable);
    }
}

/// The course of saving: the directory is looked at, made if it is missing, the file
/// is opened, and every line is written in turn. The first step that fails ends it.
pub proof fn law_course_of_saving(lines: usize, i: usize, step: SaveStep)
    ensures
        step_after(SaveStep::CheckDirectory, SaveEvent::Missing, lines)
            == SaveStep::CreateDirectory,
        step_after(SaveStep::CheckDirectory, SaveEvent::Succeeded, lines) == SaveStep::OpenFile,
        step_after(SaveStep::CreateDirectory, SaveEvent::Succeeded, lines) == SaveStep::OpenFile,
        step_after(SaveStep::OpenFile, SaveEvent::Succeeded, lines) == (if lines > 0 {
            SaveStep::WriteLine(0)
        } else {
            SaveStep::Finished
        }),
        step_after(SaveStep::WriteLine(i), SaveEvent::Succeeded, lines) == (if i + 1 < lines {
            SaveStep::WriteLine((i + 1) as usize)
        } else {
            SaveStep::Finished
        }),
        step_after(step, SaveEvent::Failed, lines) == SaveStep::Finished,
        step != SaveStep::CheckDirectory ==> step_after(step, SaveEvent::Missing, lines)
            == SaveStep::Finished,
{
}

/// One thing is said of a step that failed, and nothing of one that succeeded; that
/// the directory is missing at first is no failure.
pub proof fn law_failed_saving_is_told(
    step: SaveStep,
    event: SaveEvent,
    directory: Seq<char>,
    file: Seq<char>,
)
    ensures
        said_of(step, event, directory, file).len() == (if event == SaveEvent::Succeeded || step
            == SaveStep::Finished || (step == SaveStep::CheckDirectory && event
            == SaveEvent::Missing) {
            0nat
        } else {
            1nat
        }),
{
}

/// The name of the file for hashes.
pub proof fn law_cache_file_name()
    ensures
        file_name_for(HashType::Blake3) == "cache_duplicates_Blake3.txt"@,
{
    reveal_strlit("cache_duplicates");
    reveal_strlit("_Blake3");
    reveal_strlit(".txt");
    reveal_strlit("cache_duplicates_Blake3.txt");
    assert(file_name_for(HashType::Blake3) =~= "cache_duplicates_Blake3.txt"@);
}

/// What is said of a step of saving that failed names the directory or the file.
pub proof fn law_failed_saving_names_the_place(directory: Seq<char>, file: Seq<char>, i: usize)
    ensures
        said_of(SaveStep::CheckDirectory, SaveEvent::Failed, directory, file) == seq![
            "Config dir "@ + directory + " is a file!"@,
        ],
        said_of(SaveStep::CreateDirectory, SaveEvent::Failed, directory, file) == seq![
            "Cannot create config dir "@ + directory,
        ],
        said_of(SaveStep::OpenFile, SaveEvent::Failed, directory, file) == seq![
            "Cannot create or open cache file "@ + file,
        ],
        said_of(SaveStep::WriteLine(i), SaveEvent::Failed, directory, file) == seq![
            "Failed to save some data to cache file "@ + file,
        ],
{
}

/// What is said of a line gives its number, the line where it could be read, and the file.
pub proof fn law_bad_line_is_named(
    number: nat,
    line: Seq<char>,
    exists: bool,
    cache_file: Seq<char>,
)
    ensures
        line_warnings(number, CacheLineView::Unreadable, cache_file) == seq![
            "Failed to load line number "@ + text::decimal(number) + " from cache file "@
                + cache_file,
        ],
        ({
            let said = line_warnings(number, CacheLineView::Text(line, exists), cache_file);
            let place = text::decimal(number) + " - ("@ + line + ") in cache file "@ + cache_file;
            let f = text::fields(line);
            &&& f.len() != 4 ==> said == seq![
                "Found invalid data(too much or too low amount of data) in line "@ + place,
            ]
            &&& f.len() == 4 && exists && text::number_of(f[1]) is None ==> said == seq![
                "Found invalid size value in line "@ + place,
            ]
            &&& f.len() == 4 && exists && text::number_of(f[1]) is Some && text::number_of(
                f[2],
            ) is None ==> said == seq!["Found invalid modified date value in line "@ + place]
        }),
{
    let place = text::decimal(number) + " - ("@ + line + ") in cache file "@ + cache_file;
    let data = "Found invalid data(too much or too low amount of data) in line "@;
    let size = "Found invalid size value in line "@;
    let date = "Found invalid modified date value in line "@;
    assert(place_text(data, number, line, cache_file) =~= data + place);
    assert(place_text(size, number, line, cache_file) =~= size + place);
    assert(place_text(date, number, line, cache_file) =~= date + place);
}

} // verus!
