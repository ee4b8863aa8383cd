//! The results of a search as text: for the screen, for a file, for debugging.
use crate::finder::DuplicateFinder;
use crate::grouping;
use crate::groups;
use crate::listing;
use crate::model::{CheckingMethod, DeleteMethod, FileEntry, FilePath, FileView, PathView};
use crate::text;
use crate::textmap;
use std::collections::BTreeMap;
use vstd::prelude::*;
use vstd::string::*;

verus! {

// ---------------------------------------------------------------------------
// Values as text
// ---------------------------------------------------------------------------

/// A number of bytes as people write it, in binary units.
pub uninterp spec fn human_size(size: u64) -> Seq<char>;

/// Calls `humansize::FileSize::file_size` on a `u64` with the options `BINARY`:
/// it always succeeds, and its text is named `human_size` of the number.
#[verifier::external_body]
fn file_size(size: u64) -> (r: Result<String, String>)
    ensures
        match r {
            Ok(t) => t@ == human_size(size),
            Err(_) => false,
        },
{
    humansize::FileSize::file_size(&size, humansize::file_size_opts::BINARY)
}

/// A text as it is formatted for debugging.
pub uninterp spec fn debug_text(s: Seq<char>) -> Seq<char>;

/// Formats a `str` with its impl of `std::fmt::Debug`, in quotes and with what
/// is special escaped; the result is named `debug_text` of the text.
#[verifier::external_body]
fn debug_of_text(s: &str) -> (r: String)
    ensures
        r@ == debug_text(s@),
{
    format!("{:?}", s)
}

/// A Unicode path as it is formatted for debugging.
pub uninterp spec fn debug_path(s: Seq<char>) -> Seq<char>;

/// Formats a `std::path::Path` with its impl of `std::fmt::Debug`; the result is
/// named `debug_path` of the path's text.
#[verifier::external_body]
fn debug_of_text_path(s: &str) -> (r: String)
    ensures
        r@ == debug_path(s@),
{
    format!("{:?}", std::path::Path::new(s))
}

/// A path as it is formatted for debugging.
pub open spec fn path_debug(path: PathView) -> Seq<char> {
    match path.foreign {
        Some(f) => f.1,
        None => debug_path(path.text),
    }
}

fn debug_of_path(path: &FilePath) -> (r: String)
    ensures
        r@ == path_debug(path@),
{
    match &path.foreign {
        Some(f) => f.debug.clone(),
        None => debug_of_text_path(path.text.as_str()),
    }
}

/// Some texts with commas between them.
pub open spec fn with_commas(parts: Seq<Seq<char>>) -> Seq<char>
    decreases parts.len(),
{
    if parts.len() == 0 {
        Seq::empty()
    } else if parts.len() == 1 {
        parts[0]
    } else {
        with_commas(parts.drop_last()) + ", "@ + parts.last()
    }
}

/// Some texts as a list in brackets.
pub open spec fn in_brackets(parts: Seq<Seq<char>>) -> Seq<char> {
    "["@ + with_commas(parts) + "]"@
}

/// Some texts as a list in brackets.
fn bracket_list(parts: &Vec<String>) -> (r: String)
    ensures
        r@ == in_brackets(parts.deep_view()),
{
    let ghost all = parts.deep_view();
    let mut r: String = "[".to_owned();
    let mut i: usize = 0;
    assert(all.take(0) =~= Seq::empty());
    assert(r@ =~= "["@ + Seq::<char>::empty());
    while i < parts.len()
        invariant
            i <= parts.len(),
            all == parts.deep_view(),
            r@ == "["@ + with_commas(all.take(i as int)),
        decreases parts.len() - i,
    {
        let ghost before = all.take(i as int);
        let ghost next = all.take(i + 1);
        if i > 0 {
            r.append(", ");
        }
        r.append(parts[i].as_str());
        proof {
            assert(next.drop_last() =~= before);
            assert(next.last() == parts@[i as int]@);
            if i == 0 {
                assert(with_commas(before) =~= Seq::empty());
                assert(r@ =~= "["@ + with_commas(next));
            } else {
                assert(r@ =~= "["@ + with_commas(next));
            }
        }
        i += 1;
    }
    assert(all.take(parts.len() as int) =~= all);
    r.append("]");
    r
}

/// A list of texts as it is formatted for debugging.
pub open spec fn debug_texts(s: Seq<Seq<char>>) -> Seq<char> {
    in_brackets(s.map_values(|t: Seq<char>| debug_text(t)))
}

fn debug_of_texts(list: &Vec<String>) -> (r: String)
    ensures
        r@ == debug_texts(list.deep_view()),
{
    let ghost all = list.deep_view().map_values(|t: Seq<char>| debug_text(t));
    let mut parts: Vec<String> = Vec::new();
    let mut i: usize = 0;
    assert(parts.deep_view() =~= all.take(0));
    while i < list.len()
        invariant
            i <= list.len(),
            all == list.deep_view().map_values(|t: Seq<char>| debug_text(t)),
            parts.deep_view() == all.take(i as int),
        decreases list.len() - i,
    {
        let part: String = debug_of_text(list[i].as_str());
        let ghost before = parts.deep_view();
        parts.push(part);
        i += 1;
        assert(parts.deep_view() =~= before.push(part@));
        assert(all.take(i as int) =~= before.push(part@));
    }
    assert(all.take(list.len() as int) =~= all);
    bracket_list(&parts)
}

/// A list of paths as it is formatted for debugging.
pub open spec fn debug_paths(s: Seq<PathView>) -> Seq<char> {
    in_brackets(s.map_values(|p: PathView| path_debug(p)))
}

fn debug_of_paths(list: &Vec<FilePath>) -> (r: String)
    ensures
        r@ == debug_paths(list.deep_view()),
{
    let ghost all = list.deep_view().map_values(|p: PathView| path_debug(p));
    let mut parts: Vec<String> = Vec::new();
    let mut i: usize = 0;
    assert(parts.deep_view() =~= all.take(0));
    while i < list.len()
        invariant
            i <= list.len(),
            all == list.deep_view().map_values(|p: PathView| path_debug(p)),
            parts.deep_view() == all.take(i as int),
        decreases list.len() - i,
    {
        let part: String = debug_of_path(&list[i]);
        let ghost before = parts.deep_view();
        parts.push(part);
        i += 1;
        assert(parts.deep_view() =~= before.push(part@));
        assert(all.take(i as int) =~= before.push(part@));
    }
    assert(all.take(list.len() as int) =~= all);
    bracket_list(&parts)
}

// ---------------------------------------------------------------------------
// Lines
// ---------------------------------------------------------------------------

/// Adds one line.
fn push_line(lines: &mut Vec<String>, line: String)
    ensures
        final(lines).deep_view() == old(lines).deep_view().push(line@),
{
    let ghost before = lines.deep_view();
    lines.push(line);
    assert(lines.deep_view() =~= before.push(line@));
}

/// The text of some lines, each of them ended.
pub open spec fn ended(lines: Seq<Seq<char>>) -> Seq<char>
    decreases lines.len(),
{
    if lines.len() == 0 {
        Seq::empty()
    } else {
        ended(lines.drop_last()) + lines.last() + "\n"@
    }
}

/// The text of some lines, each of them ended.
fn end_lines(lines: &Vec<String>) -> (r: String)
    ensures
        r@ == ended(lines.deep_view()),
{
    let ghost all = lines.deep_view();
    let mut r: String = String::new();
    let mut i: usize = 0;
    assert(all.take(0) =~= Seq::empty());
    while i < lines.len()
        invariant
            i <= lines.len(),
            all == lines.deep_view(),
            r@ == ended(all.take(i as int)),
        decreases lines.len() - i,
    {
        r.append(lines[i].as_str());
        r.append("\n");
        i += 1;
        proof {
            assert(all.take(i as int).drop_last() =~= all.take(i - 1));
            assert(all.take(i as int).last() == lines@[i - 1]@);
        }
    }
    assert(all.take(lines.len() as int) =~= all);
    r
}

/// The paths of some files, a line each.
pub open spec fn path_lines(files: Seq<FileView>) -> Seq<Seq<char>> {
    files.map_values(|f: FileView| f.path.text)
}

fn push_paths(lines: &mut Vec<String>, files: &Vec<FileEntry>)
    ensures
        final(lines).deep_view() == old(lines).deep_view() + path_lines(files.deep_view()),
{
    let ghost all = path_lines(files.deep_view());
    let ghost first = lines.deep_view();
    let mut i: usize = 0;
    assert(first + all.take(0) =~= first);
    while i < files.len()
        invariant
            i <= files.len(),
            first == old(lines).deep_view(),
            all == path_lines(files.deep_view()),
            lines.deep_view() == first + all.take(i as int),
        decreases files.len() - i,
    {
        push_line(lines, files[i].path.text.clone());
        i += 1;
        assert(lines.deep_view() =~= first + all.take(i as int));
    }
    assert(all.take(files.len() as int) =~= all);
}

/// The line above some files of one size.
pub open spec fn size_heading(start: Seq<char>, size: u64, files: nat, end: Seq<char>) -> Seq<
    char,
> {
    start + human_size(size) + " ("@ + text::decimal(size as nat) + ") - "@ + text::decimal(files)
        + end
}

fn size_heading_text(start: &str, size: u64, files: usize, end: &str) -> (r: String)
    ensures
        r@ == size_heading(start@, size, files as nat, end@),
{
    let mut r: String = start.to_owned();
    append_size(&mut r, size);
    r.append(" (");
    text::append_number(&mut r, size);
    r.append(") - ");
    text::append_number(&mut r, files as u64);
    r.append(end);
    r
}

fn append_size(out: &mut String, size: u64)
    ensures
        final(out)@ == old(out)@ + human_size(size),
{
    match file_size(size) {
        Ok(t) => out.append(t.as_str()),
        Err(_) => (),
    }
}

// ---------------------------------------------------------------------------
// Groups
// ---------------------------------------------------------------------------

/// Where a report goes.
#[derive(PartialEq, Eq, Clone, Copy, Debug, Structural)]
pub enum Target {
    Screen,
    File,
}

/// The parts one after the other.
pub open spec fn joined(parts: Seq<Seq<Seq<char>>>) -> Seq<Seq<char>>
    decreases parts.len(),
{
    if parts.len() == 0 {
        Seq::empty()
    } else {
        joined(parts.drop_last()) + parts.last()
    }
}

proof fn lemma_joined_next(parts: Seq<Seq<Seq<char>>>, i: int)
    requires
        0 <= i < parts.len(),
    ensures
        joined(parts.take(i + 1)) == joined(parts.take(i)) + parts[i],
{
    assert(parts.take(i + 1).drop_last() =~= parts.take(i));
    assert(parts.take(i + 1).last() == parts[i]);
}

/// An empty line.
pub open spec fn blank() -> Seq<char> {
    Seq::empty()
}

/// The lines about the files of one name.
pub open spec fn name_group(group: (Seq<char>, Seq<FileView>)) -> Seq<Seq<char>> {
    seq![
        "Name - "@ + group.0 + " - "@ + text::decimal(group.1.len()) + " files "@,
    ] + path_lines(group.1) + seq![blank()]
}

fn push_name_group(lines: &mut Vec<String>, name: &String, files: &Vec<FileEntry>)
    ensures
        final(lines).deep_view() == old(lines).deep_view() + name_group(
            (name@, files.deep_view()),
        ),
{
    let ghost first = lines.deep_view();
    let mut heading: String = "Name - ".to_owned();
    heading.append(name.as_str());
    heading.append(" - ");
    text::append_number(&mut heading, files.len() as u64);
    heading.append(" files ");
    push_line(lines, heading);
    push_paths(lines, files);
    push_line(lines, String::new());
    assert(lines.deep_view() =~= first + name_group((name@, files.deep_view())));
}

/// The groups in the order of a report: in a file the last comes first.
pub open spec fn ordered<T>(target: Target, groups: Seq<T>) -> Seq<T> {
    match target {
        Target::Screen => groups,
        Target::File => groups.reverse(),
    }
}

/// The place in a list of what stands at `i` of a report.
fn place_of(target: Target, i: usize, len: usize) -> (r: usize)
    requires
        i < len,
    ensures
        r < len,
        r == (match target {
            Target::Screen => i as int,
            Target::File => len - 1 - i,
        }),
{
    match target {
        Target::Screen => i,
        Target::File => len - 1 - i,
    }
}

/// The lines about each of some groups, in the order of a report.
pub open spec fn name_parts(target: Target, list: Seq<(Seq<char>, Seq<FileView>)>) -> Seq<
    Seq<Seq<char>>,
> {
    ordered(target, list).map_values(|g: (Seq<char>, Seq<FileView>)| name_group(g))
}

/// The lines about the files that share a name.
pub open spec fn name_lines(target: Target, m: Map<Seq<char>, Seq<FileView>>) -> Seq<Seq<char>> {
    joined(name_parts(target, groups::by_name(m)))
}

fn push_names(target: Target, lines: &mut Vec<String>, list: &Vec<(&String, &Vec<FileEntry>)>)
    ensures
        final(lines).deep_view() == old(lines).deep_view() + joined(
            name_parts(target, listing::named_list(list@)),
        ),
{
    let ghost all = listing::named_list(list@);
    let ghost parts = name_parts(target, all);
    let ghost first = lines.deep_view();
    let mut i: usize = 0;
    assert(parts.take(0) =~= Seq::empty());
    assert(first + Seq::<Seq<char>>::empty() =~= first);
    while i < list.len()
        invariant
            i <= list.len(),
            all == listing::named_list(list@),
            parts == name_parts(target, all),
            parts.len() == list.len(),
            lines.deep_view() == first + joined(parts.take(i as int)),
        decreases list.len() - i,
    {
        let place: usize = place_of(target, i, list.len());
        let group = list[place];
        proof {
            lemma_joined_next(parts, i as int);
            assert(all[place as int] == (group.0@, group.1.deep_view()));
            assert(parts[i as int] == name_group(all[place as int]));
        }
        let ghost before = lines.deep_view();
        push_name_group(lines, group.0, group.1);
        i += 1;
        assert(lines.deep_view() =~= first + joined(parts.take(i as int)));
    }
    assert(parts.take(list.len() as int) =~= parts);
}

/// The lines about the files of one size.
pub open spec fn size_group(target: Target, group: (u64, Seq<FileView>)) -> Seq<Seq<char>> {
    match target {
        Target::Screen => seq![
            size_heading("Size - "@, group.0, group.1.len(), " files "@),
        ] + path_lines(group.1) + seq![blank()],
        Target::File => seq![
            blank(),
            size_heading("---- Size "@, group.0, group.1.len(), " files "@),
        ] + path_lines(group.1),
    }
}

fn push_size_group(target: Target, lines: &mut Vec<String>, size: u64, files: &Vec<FileEntry>)
    ensures
        final(lines).deep_view() == old(lines).deep_view() + size_group(
            target,
            (size, files.deep_view()),
        ),
{
    let ghost first = lines.deep_view();
    match target {
        Target::Screen => {
            push_line(lines, size_heading_text("Size - ", size, files.len(), " files "));
            push_paths(lines, files);
            push_line(lines, String::new());
        },
        Target::File => {
            push_line(lines, String::new());
            push_line(lines, size_heading_text("---- Size ", size, files.len(), " files "));
            push_paths(lines, files);
        },
    }
    assert(lines.deep_view() =~= first + size_group(target, (size, files.deep_view())));
}

/// The lines about each of some groups, in the order of a report.
pub open spec fn size_parts(target: Target, list: Seq<(u64, Seq<FileView>)>) -> Seq<
    Seq<Seq<char>>,
> {
    ordered(target, list).map_values(|g: (u64, Seq<FileView>)| size_group(target, g))
}

/// The lines about the files that share a size.
pub open spec fn size_lines(target: Target, m: Map<u64, Seq<FileView>>) -> Seq<Seq<char>> {
    joined(size_parts(target, groups::by_size(m)))
}

fn push_sizes(target: Target, lines: &mut Vec<String>, list: &Vec<(u64, &Vec<FileEntry>)>)
    ensures
        final(lines).deep_view() == old(lines).deep_view() + joined(
            size_parts(target, listing::sized_list(list@)),
        ),
{
    let ghost all = listing::sized_list(list@);
    let ghost parts = size_parts(target, all);
    let ghost first = lines.deep_view();
    let mut i: usize = 0;
    assert(parts.take(0) =~= Seq::empty());
    assert(first + Seq::<Seq<char>>::empty() =~= first);
    while i < list.len()
        invariant
            i <= list.len(),
            all == listing::sized_list(list@),
            parts == size_parts(target, all),
            parts.len() == list.len(),
            lines.deep_view() == first + joined(parts.take(i as int)),
        decreases list.len() - i,
    {
        let place: usize = place_of(target, i, list.len());
        let group = list[place];
        proof {
            lemma_joined_next(parts, i as int);
            assert(all[place as int] == (group.0, group.1.deep_view()));
            assert(parts[i as int] == size_group(target, all[place as int]));
        }
        push_size_group(target, lines, group.0, group.1);
        i += 1;
        assert(lines.deep_view() =~= first + joined(parts.take(i as int)));
    }
    assert(parts.take(list.len() as int) =~= parts);
}

/// The lines about some files with one hash.
pub open spec fn hash_group(target: Target, size: u64, files: Seq<FileView>) -> Seq<Seq<char>> {
    match target {
        Target::Screen => seq![
            size_heading("Size - "@, size, files.len(), " files "@),
        ] + path_lines(files) + seq!["----"@],
        Target::File => seq![
            blank(),
            size_heading("---- Size "@, size, files.len(), " files"@),
        ] + path_lines(files),
    }
}

fn push_hash_group(target: Target, lines: &mut Vec<String>, size: u64, files: &Vec<FileEntry>)
    ensures
        final(lines).deep_view() == old(lines).deep_view() + hash_group(
            target,
            size,
            files.deep_view(),
        ),
{
    let ghost first = lines.deep_view();
    match target {
        Target::Screen => {
            push_line(lines, size_heading_text("Size - ", size, files.len(), " files "));
            push_paths(lines, files);
            push_line(lines, "----".to_owned());
        },
        Target::File => {
            push_line(lines, String::new());
            push_line(lines, size_heading_text("---- Size ", size, files.len(), " files"));
            push_paths(lines, files);
        },
    }
    assert(lines.deep_view() =~= first + hash_group(target, size, files.deep_view()));
}

/// The lines about the groups of one size.
pub open spec fn hash_groups(target: Target, size: u64, groups: Seq<Seq<FileView>>) -> Seq<
    Seq<char>,
> {
    joined(
        groups.map_values(|files: Seq<FileView>| hash_group(target, size, files)),
    ) + match target {
        Target::Screen => seq![blank()],
        Target::File => Seq::empty(),
    }
}

fn push_hash_groups(
    target: Target,
    lines: &mut Vec<String>,
    size: u64,
    groups: &Vec<Vec<FileEntry>>,
)
    ensures
        final(lines).deep_view() == old(lines).deep_view() + hash_groups(
            target,
            size,
            groups.deep_view(),
        ),
{
    let ghost parts = groups.deep_view().map_values(
        |files: Seq<FileView>| hash_group(target, size, files),
    );
    let ghost first = lines.deep_view();
    let mut i: usize = 0;
    assert(parts.take(0) =~= Seq::empty());
    assert(first + Seq::<Seq<char>>::empty() =~= first);
    while i < groups.len()
        invariant
            i <= groups.len(),
            parts == groups.deep_view().map_values(
                |files: Seq<FileView>| hash_group(target, size, files),
            ),
            parts.len() == groups.len(),
            lines.deep_view() == first + joined(parts.take(i as int)),
        decreases groups.len() - i,
    {
        proof {
            lemma_joined_next(parts, i as int);
            assert(parts[i as int] == hash_group(target, size, groups@[i as int].deep_view()));
        }
        push_hash_group(target, lines, size, &groups[i]);
        i += 1;
        assert(lines.deep_view() =~= first + joined(parts.take(i as int)));
    }
    assert(parts.take(groups.len() as int) =~= parts);
    if target == Target::Screen {
        push_line(lines, String::new());
    }
    assert(lines.deep_view() =~= first + hash_groups(target, size, groups.deep_view()));
}

/// The lines about the files that share a hash, the largest first.
pub open spec fn hash_lines(target: Target, m: Map<u64, Seq<Seq<FileView>>>) -> Seq<Seq<char>> {
    joined(
        grouping::keys_of(m).reverse().map_values(|size: u64| hash_groups(target, size, m[size])),
    )
}

fn push_hashes(target: Target, lines: &mut Vec<String>, m: &BTreeMap<u64, Vec<Vec<FileEntry>>>)
    ensures
        final(lines).deep_view() == old(lines).deep_view() + hash_lines(
            target,
            grouping::contents(m@),
        ),
{
    let ghost c = grouping::contents(m@);
    let keys: Vec<u64> = grouping::keys_in_order(m);
    proof {
        assert forall|k: u64| #[trigger] keys@.contains(k) <==> c.contains_key(k) by {
            assert(m@.contains_key(k) == keys@.contains(k));
        }
        grouping::lemma_keys_are(keys@, c);
    }
    let ghost parts = keys@.reverse().map_values(|size: u64| hash_groups(target, size, c[size]));
    let ghost first = lines.deep_view();
    let mut i: usize = 0;
    assert(parts.take(0) =~= Seq::empty());
    assert(first + Seq::<Seq<char>>::empty() =~= first);
    while i < keys.len()
        invariant
            i <= keys.len(),
            c == grouping::contents(m@),
            grouping::lists_keys(keys@, m@),
            parts == keys@.reverse().map_values(|size: u64| hash_groups(target, size, c[size])),
            parts.len() == keys.len(),
            lines.deep_view() == first + joined(parts.take(i as int)),
        decreases keys.len() - i,
    {
        let size: u64 = keys[keys.len() - 1 - i];
        proof {
            lemma_joined_next(parts, i as int);
            assert(keys@.contains(size));
            assert(parts[i as int] == hash_groups(target, size, c[size]));
        }
        if let Some(groups) = m.get(&size) {
            push_hash_groups(target, lines, size, groups);
        }
        i += 1;
        assert(lines.deep_view() =~= first + joined(parts.take(i as int)));
    }
    assert(parts.take(keys.len() as int) =~= parts);
}

// ---------------------------------------------------------------------------
// A report in a file
// ---------------------------------------------------------------------------

/// The name of the file for the results when none is given.
pub open spec fn results_name(file_name: Seq<char>) -> Seq<char> {
    if file_name.len() == 0 {
        "results.txt"@
    } else {
        file_name
    }
}

/// The name of the file for the results.
pub fn results_file_name(file_name: &str) -> (r: String)
    ensures
        r@ == results_name(file_name@),
{
    if file_name.unicode_len() == 0 {
        "results.txt".to_owned()
    } else {
        file_name.to_owned()
    }
}

/// How the saving of results went.
#[derive(PartialEq, Eq, Clone, Copy, Debug, Structural)]
pub enum SaveOutcome {
    CannotCreate,
    CannotWrite,
    Saved,
}

/// The numbers of files and groups found, with the words around them.
pub open spec fn summary(
    files: nat,
    between: Seq<char>,
    groups: nat,
    end: Seq<char>,
) -> Seq<char> {
    "Found "@ + text::decimal(files) + between + text::decimal(groups) + end
}

fn summary_text(files: u64, between: &str, groups: u64, end: &str) -> (r: String)
    ensures
        r@ == summary(files as nat, between@, groups as nat, end@),
{
    let mut r: String = "Found ".to_owned();
    text::append_number(&mut r, files);
    r.append(between);
    text::append_number(&mut r, groups);
    r.append(end);
    r
}

impl DuplicateFinder {
    /// The first line of a file with results.
    pub open spec fn saved_heading(&self) -> Seq<char> {
        "Results of searching "@ + debug_paths(self.directories.included_directories.deep_view())
            + " with excluded directories "@ + debug_paths(
            self.directories.excluded_directories.deep_view(),
        ) + " and excluded items "@ + debug_texts(self.excluded_items.items.deep_view()) + "\n"@
    }

    /// There are groups that a file with results tells of. Of groups by name it
    /// tells only where there are groups by size: after a search by name, which
    /// leaves none, it says that nothing was found.
    pub open spec fn has_saved_groups(&self) -> bool {
        match self.check_method {
            CheckingMethod::Name => !self.sizes().dom().is_empty(),
            CheckingMethod::Size => !self.sizes().dom().is_empty(),
            _ => !self.hashes().dom().is_empty(),
        }
    }

    /// The lines that tell of the groups in a file with results.
    pub open spec fn saved_lines(&self) -> Seq<Seq<char>> {
        match self.check_method {
            CheckingMethod::Name => seq![
                "-------------------------------------------------Files with same names-------------------------------------------------"@,
                summary(
                    self.information.number_of_duplicated_files_by_name as nat,
                    " files in "@,
                    self.information.number_of_groups_by_name as nat,
                    " groups with same name(may have different content)"@,
                ),
            ] + name_lines(Target::File, self.names()),
            CheckingMethod::Size => seq![
                "-------------------------------------------------Files with same size-------------------------------------------------"@,
                summary(
                    self.information.number_of_duplicated_files_by_size as nat,
                    " duplicated files which in "@,
                    self.information.number_of_groups_by_size as nat,
                    " groups which takes "@,
                ) + human_size(self.information.lost_space_by_size) + "."@,
            ] + size_lines(Target::File, self.sizes()),
            _ => seq![
                "-------------------------------------------------Files with same hashes-------------------------------------------------"@,
                summary(
                    self.information.number_of_duplicated_files_by_hash as nat,
                    " duplicated files which in "@,
                    self.information.number_of_groups_by_hash as nat,
                    " groups which takes "@,
                ) + human_size(self.information.lost_space_by_hash) + "."@,
            ] + hash_lines(Target::File, self.hashes()),
        }
    }

    /// What follows the first line of a file with results.
    pub open spec fn saved_body(&self) -> Seq<char> {
        if self.has_saved_groups() {
            ended(self.saved_lines())
        } else if self.check_method == CheckingMethod::Name {
            "Not found any files with same names."@
        } else {
            "Not found any duplicates."@
        }
    }

    /// The first line of a file with results.
    pub fn results_heading(&self) -> (r: String)
        ensures
            r@ == self.saved_heading(),
    {
        let mut r: String = "Results of searching ".to_owned();
        r.append(debug_of_paths(&self.directories.included_directories).as_str());
        r.append(" with excluded directories ");
        r.append(debug_of_paths(&self.directories.excluded_directories).as_str());
        r.append(" and excluded items ");
        r.append(debug_of_texts(&self.excluded_items.items).as_str());
        r.append("\n");
        r
    }

    /// What follows the first line of a file with results.
    pub fn results_body(&self) -> (r: String)
        requires
            self.check_method != CheckingMethod::NotSet,
        ensures
            r@ == self.saved_body(),
    {
        let mut lines: Vec<String> = Vec::new();
        assert(lines.deep_view() =~= Seq::empty());
        match self.check_method {
            CheckingMethod::Name => {
                assert(self.sizes().dom() =~= self.files_with_identical_size@.dom());
                if self.files_with_identical_size.is_empty() {
                    return "Not found any files with same names.".to_owned();
                }
                push_line(
                    &mut lines,
                    "-------------------------------------------------Files with same names-------------------------------------------------".to_owned(),
                );
                push_line(
                    &mut lines,
                    summary_text(
                        self.information.number_of_duplicated_files_by_name as u64,
                        " files in ",
                        self.information.number_of_groups_by_name as u64,
                        " groups with same name(may have different content)",
                    ),
                );
                let list = listing::list_by_name(&self.files_with_identical_names);
                push_names(Target::File, &mut lines, &list);
                assert(lines.deep_view() =~= self.saved_lines());
            },
            CheckingMethod::Size => {
                assert(self.sizes().dom() =~= self.files_with_identical_size@.dom());
                if self.files_with_identical_size.is_empty() {
                    return "Not found any duplicates.".to_owned();
                }
                push_line(
                    &mut lines,
                    "-------------------------------------------------Files with same size-------------------------------------------------".to_owned(),
                );
                let mut found: String = summary_text(
                    self.information.number_of_duplicated_files_by_size as u64,
                    " duplicated files which in ",
                    self.information.number_of_groups_by_size as u64,
                    " groups which takes ",
                );
                append_size(&mut found, self.information.lost_space_by_size);
                found.append(".");
                push_line(&mut lines, found);
                let list = listing::list_by_size(&self.files_with_identical_size);
                push_sizes(Target::File, &mut lines, &list);
                assert(lines.deep_view() =~= self.saved_lines());
            },
            _ => {
                assert(self.hashes().dom() =~= self.files_with_identical_hashes@.dom());
                if self.files_with_identical_hashes.is_empty() {
                    return "Not found any duplicates.".to_owned();
                }
                push_line(
                    &mut lines,
                    "-------------------------------------------------Files with same hashes-------------------------------------------------".to_owned(),
                );
                let mut found: String = summary_text(
                    self.information.number_of_duplicated_files_by_hash as u64,
                    " duplicated files which in ",
                    self.information.number_of_groups_by_hash as u64,
                    " groups which takes ",
                );
                append_size(&mut found, self.information.lost_space_by_hash);
                found.append(".");
                push_line(&mut lines, found);
                push_hashes(Target::File, &mut lines, &self.files_with_identical_hashes);
                assert(lines.deep_view() =~= self.saved_lines());
            },
        }
        end_lines(&lines)
    }

    /// Says whether the results were saved, and what went wrong if they were not.
    pub fn save_results_to_file(&mut self, file_name: &str, outcome: SaveOutcome) -> (r: bool)
        ensures
            r == (outcome == SaveOutcome::Saved),
            final(self).errors() == match outcome {
                SaveOutcome::CannotCreate => old(self).errors().push(
                    "Failed to create file "@ + results_name(file_name@),
                ),
                SaveOutcome::CannotWrite => old(self).errors().push(
                    "Failed to save results to file "@ + results_name(file_name@),
                ),
                SaveOutcome::Saved => old(self).errors(),
            },
            *final(self) == (DuplicateFinder {
                text_messages: (crate::model::Messages {
                    errors: final(self).text_messages.errors,
                    ..old(self).text_messages
                }),
                ..*old(self)
            }),
    {
        let name: String = results_file_name(file_name);
        match outcome {
            SaveOutcome::CannotCreate => {
                push_line(
                    &mut self.text_messages.errors,
                    text::join("Failed to create file ", name.as_str()),
                );
                false
            },
            SaveOutcome::CannotWrite => {
                push_line(
                    &mut self.text_messages.errors,
                    text::join("Failed to save results to file ", name.as_str()),
                );
                false
            },
            SaveOutcome::Saved => true,
        }
    }
}

// ---------------------------------------------------------------------------
// A report on the screen
// ---------------------------------------------------------------------------

impl DuplicateFinder {
    /// The number of files in the groups found.
    pub open spec fn files_found(&self) -> nat {
        match self.check_method {
            CheckingMethod::Name => groups::total_files(groups::by_name(self.names())),
            CheckingMethod::Size => groups::total_files(groups::by_size(self.sizes())),
            _ => groups::total_files(groups::by_hash(self.hashes())),
        }
    }

    /// The number of groups found.
    pub open spec fn groups_found(&self) -> nat {
        match self.check_method {
            CheckingMethod::Name => groups::by_name(self.names()).len(),
            CheckingMethod::Size => groups::by_size(self.sizes()).len(),
            _ => groups::by_hash(self.hashes()).len(),
        }
    }

    /// The lines of a report on the screen. The space that they name is the one lost
    /// by size, also after a search by hash.
    pub open spec fn printed_lines(&self) -> Seq<Seq<char>> {
        let files = self.files_found();
        let groups = self.groups_found();
        match self.check_method {
            CheckingMethod::Name => seq![
                summary(
                    files,
                    " files in "@,
                    groups,
                    " groups with same name(may have different content)"@,
                ),
            ] + name_lines(Target::Screen, self.names()),
            CheckingMethod::Size => seq![
                summary(
                    files,
                    " files in "@,
                    groups,
                    " groups with same size(may have different content) which took "@,
                ) + human_size(self.information.lost_space_by_size) + ":"@,
            ] + size_lines(Target::Screen, self.sizes()),
            _ => seq![
                summary(
                    files,
                    " duplicated files in "@,
                    groups,
                    " groups with same content which took "@,
                ) + human_size(self.information.lost_space_by_size) + ":"@,
            ] + hash_lines(Target::Screen, self.hashes()),
        }
    }

    /// The number of files in the groups found, if it fits.
    pub fn count_files_found(&self) -> (r: Option<u64>)
        ensures
            match r {
                Some(n) => n == self.files_found(),
                None => self.files_found() > u64::MAX,
            },
    {
        match self.check_method {
            CheckingMethod::Name => {
                let list = listing::list_by_name(&self.files_with_identical_names);
                listing::count_named(&list)
            },
            CheckingMethod::Size => {
                let list = listing::list_by_size(&self.files_with_identical_size);
                listing::count_sized(&list)
            },
            _ => {
                let list = listing::list_by_hash(&self.files_with_identical_hashes);
                listing::count_sized(&list)
            },
        }
    }

    /// The lines of a report on the screen.
    pub fn print_results(&self) -> (r: Vec<String>)
        requires
            self.check_method != CheckingMethod::NotSet,
            self.files_found() <= u64::MAX,
        ensures
            r.deep_view() == self.printed_lines(),
    {
        let mut lines: Vec<String> = Vec::new();
        assert(lines.deep_view() =~= Seq::empty());
        let files: u64 = match self.count_files_found() {
            Some(n) => n,
            None => 0,
        };
        match self.check_method {
            CheckingMethod::Name => {
                let list = listing::list_by_name(&self.files_with_identical_names);
                assert(listing::named_list(list@).len() == list@.len());
                push_line(
                    &mut lines,
                    summary_text(
                        files,
                        " files in ",
                        list.len() as u64,
                        " groups with same name(may have different content)",
                    ),
                );
                push_names(Target::Screen, &mut lines, &list);
                assert(lines.deep_view() =~= self.printed_lines());
            },
            CheckingMethod::Size => {
                let list = listing::list_by_size(&self.files_with_identical_size);
                assert(listing::sized_list(list@).len() == list@.len());
                let mut found: String = summary_text(
                    files,
                    " files in ",
                    list.len() as u64,
                    " groups with same size(may have different content) which took ",
                );
                append_size(&mut found, self.information.lost_space_by_size);
                found.append(":");
                push_line(&mut lines, found);
                push_sizes(Target::Screen, &mut lines, &list);
                assert(lines.deep_view() =~= self.printed_lines());
            },
            _ => {
                let list = listing::list_by_hash(&self.files_with_identical_hashes);
                assert(listing::sized_list(list@).len() == list@.len());
                let mut found: String = summary_text(
                    files,
                    " duplicated files in ",
                    list.len() as u64,
                    " groups with same content which took ",
                );
                append_size(&mut found, self.information.lost_space_by_size);
                found.append(":");
                push_line(&mut lines, found);
                push_hashes(Target::Screen, &mut lines, &self.files_with_identical_hashes);
                assert(lines.deep_view() =~= self.printed_lines());
            },
        }
        lines
    }
}

// ---------------------------------------------------------------------------
// A report for debugging
// ---------------------------------------------------------------------------

/// A checking method as it is formatted for debugging.
pub open spec fn method_name(method: CheckingMethod) -> Seq<char> {
    match method {
        CheckingMethod::NotSet => "None"@,
        CheckingMethod::Name => "Name"@,
        CheckingMethod::Size => "Size"@,
        CheckingMethod::Hash => "Hash"@,
        CheckingMethod::HashMB => "HashMB"@,
    }
}

fn method_text(method: &CheckingMethod) -> (r: &'static str)
    ensures
        r@ == method_name(*method),
{
    match method {
        CheckingMethod::NotSet => "None",
        CheckingMethod::Name => "Name",
        CheckingMethod::Size => "Size",
        CheckingMethod::Hash => "Hash",
        CheckingMethod::HashMB => "HashMB",
    }
}

/// A delete method as it is formatted for debugging.
pub open spec fn removal_name(method: DeleteMethod) -> Seq<char> {
    match method {
        DeleteMethod::DoNothing => "None"@,
        DeleteMethod::AllExceptNewest => "AllExceptNewest"@,
        DeleteMethod::AllExceptOldest => "AllExceptOldest"@,
        DeleteMethod::OneOldest => "OneOldest"@,
        DeleteMethod::OneNewest => "OneNewest"@,
        DeleteMethod::HardLink => "HardLink"@,
    }
}

fn removal_text(method: &DeleteMethod) -> (r: &'static str)
    ensures
        r@ == removal_name(*method),
{
    match method {
        DeleteMethod::DoNothing => "None",
        DeleteMethod::AllExceptNewest => "AllExceptNewest",
        DeleteMethod::AllExceptOldest => "AllExceptOldest",
        DeleteMethod::OneOldest => "OneOldest",
        DeleteMethod::OneNewest => "OneNewest",
        DeleteMethod::HardLink => "HardLink",
    }
}

/// A label and a number.
pub open spec fn number_line(label: Seq<char>, n: nat) -> Seq<char> {
    label + text::decimal(n)
}

fn push_number(lines: &mut Vec<String>, label: &str, n: u64)
    ensures
        final(lines).deep_view() == old(lines).deep_view().push(number_line(label@, n as nat)),
{
    let mut line: String = label.to_owned();
    text::append_number(&mut line, n);
    push_line(lines, line);
}

/// A label, a number of files and, in brackets, a number of groups.
pub open spec fn count_line(label: Seq<char>, files: nat, groups: nat) -> Seq<char> {
    label + text::decimal(files) + " ("@ + text::decimal(groups) + ")"@
}

fn push_count(lines: &mut Vec<String>, label: &str, files: usize, groups: usize)
    ensures
        final(lines).deep_view() == old(lines).deep_view().push(
            count_line(label@, files as nat, groups as nat),
        ),
{
    let mut line: String = label.to_owned();
    text::append_number(&mut line, files as u64);
    line.append(" (");
    text::append_number(&mut line, groups as u64);
    line.append(")");
    push_line(lines, line);
}

/// A label and a number of bytes, as people write it and as it is.
pub open spec fn space_line(label: Seq<char>, size: u64) -> Seq<char> {
    label + human_size(size) + " ("@ + text::decimal(size as nat) + " bytes)"@
}

fn push_space(lines: &mut Vec<String>, label: &str, size: u64)
    ensures
        final(lines).deep_view() == old(lines).deep_view().push(space_line(label@, size)),
{
    let mut line: String = label.to_owned();
    append_size(&mut line, size);
    line.append(" (");
    text::append_number(&mut line, size);
    line.append(" bytes)");
    push_line(lines, line);
}

/// "true" or "false".
pub open spec fn truth_name(b: bool) -> Seq<char> {
    if b {
        "true"@
    } else {
        "false"@
    }
}

impl DuplicateFinder {
    /// The numbers among the lines for debugging.
    pub open spec fn debug_numbers(&self) -> Seq<Seq<char>> {
        let i = self.information;
        seq![
            "---------------DEBUG PRINT---------------"@,
            "### Information's"@,
            number_line("Errors size - "@, self.errors().len()),
            number_line("Warnings size - "@, self.warnings().len()),
            number_line("Messages size - "@, self.messages().len()),
            count_line(
                "Number of duplicated files by size(in groups) - "@,
                i.number_of_duplicated_files_by_size as nat,
                i.number_of_groups_by_size as nat,
            ),
            count_line(
                "Number of duplicated files by hash(in groups) - "@,
                i.number_of_duplicated_files_by_hash as nat,
                i.number_of_groups_by_hash as nat,
            ),
            count_line(
                "Number of duplicated files by name(in groups) - "@,
                i.number_of_duplicated_files_by_name as nat,
                i.number_of_groups_by_name as nat,
            ),
            space_line("Lost space by size - "@, i.lost_space_by_size),
            space_line("Lost space by hash - "@, i.lost_space_by_hash),
            space_line("Gained space by removing duplicated entries - "@, i.gained_space),
            space_line("Bytes read when hashing - "@, i.bytes_read_when_hashing),
            number_line("Number of removed files - "@, i.number_of_removed_files as nat),
            number_line(
                "Number of failed to remove files - "@,
                i.number_of_failed_to_remove_files as nat,
            ),
        ]
    }

    /// The settings among the lines for debugging.
    pub open spec fn debug_settings(&self) -> Seq<Seq<char>> {
        seq![
            "### Other"@,
            number_line("Files list size - "@, self.sizes().dom().len()),
            number_line("Hashed Files list size - "@, self.hashes().dom().len()),
            "Allowed extensions - "@ + debug_texts(
                self.allowed_extensions.file_extensions.deep_view(),
            ),
            "Excluded items - "@ + debug_texts(self.excluded_items.items.deep_view()),
            "Included directories - "@ + debug_paths(
                self.directories.included_directories.deep_view(),
            ),
            "Excluded directories - "@ + debug_paths(
                self.directories.excluded_directories.deep_view(),
            ),
            "Recursive search - "@ + truth_name(self.recursive_search),
            number_line("Minimum file size - "@, self.minimal_file_size as nat),
            "Checking Method - "@ + method_name(self.check_method),
            "Delete Method - "@ + removal_name(self.delete_method),
            "-----------------------------------------"@,
        ]
    }

    fn push_debug_numbers(&self, lines: &mut Vec<String>)
        requires
            old(lines).deep_view() == Seq::<Seq<char>>::empty(),
        ensures
            final(lines).deep_view() == self.debug_numbers(),
    {
        let i = &self.information;
        push_line(lines, "---------------DEBUG PRINT---------------".to_owned());
        push_line(lines, "### Information's".to_owned());
        push_number(lines, "Errors size - ", self.text_messages.errors.len() as u64);
        push_number(lines, "Warnings size - ", self.text_messages.warnings.len() as u64);
        push_number(lines, "Messages size - ", self.text_messages.messages.len() as u64);
        push_count(
            lines,
            "Number of duplicated files by size(in groups) - ",
            i.number_of_duplicated_files_by_size,
            i.number_of_groups_by_size,
        );
        push_count(
            lines,
            "Number of duplicated files by hash(in groups) - ",
            i.number_of_duplicated_files_by_hash,
            i.number_of_groups_by_hash,
        );
        push_count(
            lines,
            "Number of duplicated files by name(in groups) - ",
            i.number_of_duplicated_files_by_name,
            i.number_of_groups_by_name,
        );
        push_space(lines, "Lost space by size - ", i.lost_space_by_size);
        push_space(lines, "Lost space by hash - ", i.lost_space_by_hash);
        push_space(lines, "Gained space by removing duplicated entries - ", i.gained_space);
        push_space(lines, "Bytes read when hashing - ", i.bytes_read_when_hashing);
        push_number(lines, "Number of removed files - ", i.number_of_removed_files as u64);
        push_number(
            lines,
            "Number of failed to remove files - ",
            i.number_of_failed_to_remove_files as u64,
        );
    }

    fn push_debug_settings(&self, lines: &mut Vec<String>)
        ensures
            final(lines).deep_view() == old(lines).deep_view() + self.debug_settings(),
    {
        let ghost first = lines.deep_view();
        push_line(lines, "### Other".to_owned());
        assert(self.sizes().dom() =~= self.files_with_identical_size@.dom());
        assert(self.hashes().dom() =~= self.files_with_identical_hashes@.dom());
        push_number(lines, "Files list size - ", self.files_with_identical_size.len() as u64);
        push_number(
            lines,
            "Hashed Files list size - ",
            self.files_with_identical_hashes.len() as u64,
        );
        push_line(
            lines,
            text::join(
                "Allowed extensions - ",
                debug_of_texts(&self.allowed_extensions.file_extensions).as_str(),
            ),
        );
        push_line(
            lines,
            text::join("Excluded items - ", debug_of_texts(&self.excluded_items.items).as_str()),
        );
        push_line(
            lines,
            text::join(
                "Included directories - ",
                debug_of_paths(&self.directories.included_directories).as_str(),
            ),
        );
        push_line(
            lines,
            text::join(
                "Excluded directories - ",
                debug_of_paths(&self.directories.excluded_directories).as_str(),
            ),
        );
        push_line(
            lines,
            text::join("Recursive search - ", if self.recursive_search { "true" } else { "false" }),
        );
        push_number(lines, "Minimum file size - ", self.minimal_file_size);
        push_line(lines, text::join("Checking Method - ", method_text(&self.check_method)));
        push_line(lines, text::join("Delete Method - ", removal_text(&self.delete_method)));
        push_line(lines, "-----------------------------------------".to_owned());
        assert(lines.deep_view() =~= first + self.debug_settings());
    }

    /// The lines of a report for debugging.
    pub fn debug_print(&self) -> (r: Vec<String>)
        ensures
            r.deep_view() == self.debug_numbers() + self.debug_settings(),
    {
        let mut lines: Vec<String> = Vec::new();
        assert(lines.deep_view() =~= Seq::empty());
        self.push_debug_numbers(&mut lines);
        self.push_debug_settings(&mut lines);
        lines
    }
}

// ---------------------------------------------------------------------------
// Laws
// ---------------------------------------------------------------------------

/// There is one line for each file, in order, and it is the path of the file.
pub proof fn law_every_file_has_a_line(files: Seq<FileView>)
    ensures
        path_lines(files).len() == files.len(),
        forall|i: int|
            0 <= i < files.len() ==> #[trigger] path_lines(files)[i] == files[i].path.text,
{
}

/// The lines about the files of one name: their name and number, then the path of each
/// of them, then an empty line.
pub proof fn law_lines_about_a_name(name: Seq<char>, files: Seq<FileView>)
    ensures
        name_group((name, files)) == seq![
            "Name - "@ + name + " - "@ + text::decimal(files.len()) + " files "@,
        ] + files.map_values(|f: FileView| f.path.text) + seq![Seq::<char>::empty()],
        name_group((name, files)).len() == files.len() + 2,
        forall|i: int|
            0 <= i < files.len() ==> name_group((name, files))[i + 1] == (
            #[trigger] files[i]).path.text,
{
}

/// The lines about the files of one size: their size and number, then the path of each
/// of them, with an empty line behind on the screen and before in a file.
pub proof fn law_lines_about_a_size(size: u64, files: Seq<FileView>)
    ensures
        size_group(Target::Screen, (size, files)) == seq![
            "Size - "@ + human_size(size) + " ("@ + text::decimal(size as nat) + ") - "@
                + text::decimal(files.len()) + " files "@,
        ] + files.map_values(|f: FileView| f.path.text) + seq![Seq::<char>::empty()],
        size_group(Target::File, (size, files)) == seq![
            Seq::<char>::empty(),
            "---- Size "@ + human_size(size) + " ("@ + text::decimal(size as nat) + ") - "@
                + text::decimal(files.len()) + " files "@,
        ] + files.map_values(|f: FileView| f.path.text),
        forall|i: int|
            0 <= i < files.len() ==> {
                &&& size_group(Target::Screen, (size, files))[i + 1] == (
                #[trigger] files[i]).path.text
                &&& size_group(Target::File, (size, files))[i + 2] == files[i].path.text
            },
{
}

/// The lines about files with one hash: their size and number, then the path of each of
/// them, with dashes behind on the screen and an empty line before in a file.
pub proof fn law_lines_about_a_hash(size: u64, files: Seq<FileView>)
    ensures
        hash_group(Target::Screen, size, files) == seq![
            "Size - "@ + human_size(size) + " ("@ + text::decimal(size as nat) + ") - "@
                + text::decimal(files.len()) + " files "@,
        ] + files.map_values(|f: FileView| f.path.text) + seq!["----"@],
        hash_group(Target::File, size, files) == seq![
            Seq::<char>::empty(),
            "---- Size "@ + human_size(size) + " ("@ + text::decimal(size as nat) + ") - "@
                + text::decimal(files.len()) + " files"@,
        ] + files.map_values(|f: FileView| f.path.text),
        forall|i: int|
            0 <= i < files.len() ==> {
                &&& hash_group(Target::Screen, size, files)[i + 1] == (
                #[trigger] files[i]).path.text
                &&& hash_group(Target::File, size, files)[i + 2] == files[i].path.text
            },
{
}

proof fn lemma_joined_is_flat(parts: Seq<Seq<Seq<char>>>)
    ensures
        joined(parts) == parts.flatten(),
    decreases parts.len(),
{
    if parts.len() > 0 {
        lemma_joined_is_flat(parts.drop_last());
        parts.drop_last().lemma_flatten_push(parts.last());
        assert(parts.drop_last().push(parts.last()) =~= parts);
    }
}

/// A report tells of every name, of each once: on the screen in the order of the names,
/// in a file the other way round.
pub proof fn law_every_name_is_reported(m: Map<Seq<char>, Seq<FileView>>)
    ensures
        name_lines(Target::Screen, m) == textmap::keys_of(m).map_values(
            |k: Seq<char>| name_group((k, m[k])),
        ).flatten(),
        name_lines(Target::File, m) == textmap::keys_of(m).reverse().map_values(
            |k: Seq<char>| name_group((k, m[k])),
        ).flatten(),
{
    let keys = textmap::keys_of(m);
    let list = groups::by_name(m);
    lemma_joined_is_flat(name_parts(Target::Screen, list));
    lemma_joined_is_flat(name_parts(Target::File, list));
    assert(name_parts(Target::Screen, list) =~= keys.map_values(
        |k: Seq<char>| name_group((k, m[k])),
    ));
    assert(name_parts(Target::File, list) =~= keys.reverse().map_values(
        |k: Seq<char>| name_group((k, m[k])),
    ));
}

/// A report tells of every size, of each once: on the screen in ascending order, in a
/// file the largest first.
pub proof fn law_every_size_is_reported(m: Map<u64, Seq<FileView>>)
    ensures
        size_lines(Target::Screen, m) == grouping::keys_of(m).map_values(
            |k: u64| size_group(Target::Screen, (k, m[k])),
        ).flatten(),
        size_lines(Target::File, m) == grouping::keys_of(m).reverse().map_values(
            |k: u64| size_group(Target::File, (k, m[k])),
        ).flatten(),
{
    let keys = grouping::keys_of(m);
    let list = groups::by_size(m);
    lemma_joined_is_flat(size_parts(Target::Screen, list));
    lemma_joined_is_flat(size_parts(Target::File, list));
    assert(size_parts(Target::Screen, list) =~= keys.map_values(
        |k: u64| size_group(Target::Screen, (k, m[k])),
    ));
    assert(size_parts(Target::File, list) =~= keys.reverse().map_values(
        |k: u64| size_group(Target::File, (k, m[k])),
    ));
}

/// A report tells of every group of files with one hash, the largest first; on the
/// screen an empty line stands behind those of each size.
pub proof fn law_every_hash_is_reported(target: Target, m: Map<u64, Seq<Seq<FileView>>>)
    ensures
        hash_lines(target, m) == grouping::keys_of(m).reverse().map_values(
            |k: u64|
                m[k].map_values(|files: Seq<FileView>| hash_group(target, k, files)).flatten()
                    + match target {
                    Target::Screen => seq![Seq::<char>::empty()],
                    Target::File => Seq::empty(),
                },
        ).flatten(),
{
    let keys = grouping::keys_of(m).reverse();
    let parts = keys.map_values(|size: u64| hash_groups(target, size, m[size]));
    lemma_joined_is_flat(parts);
    let flat = keys.map_values(
        |k: u64|
            m[k].map_values(|files: Seq<FileView>| hash_group(target, k, files)).flatten()
                + match target {
                Target::Screen => seq![Seq::<char>::empty()],
                Target::File => Seq::empty(),
            },
    );
    assert forall|i: int| 0 <= i < keys.len() implies parts[i] == flat[i] by {
        let k = keys[i];
        lemma_joined_is_flat(
            m[k].map_values(|files: Seq<FileView>| hash_group(target, k, files)),
        );
    }
    assert(parts =~= flat);
}

proof fn lemma_joined_holds(parts: Seq<Seq<Seq<char>>>, j: int, line: Seq<char>)
    requires
        0 <= j < parts.len(),
        parts[j].contains(line),
    ensures
        joined(parts).contains(line),
    decreases parts.len(),
{
    let before = joined(parts.drop_last());
    if j < parts.len() - 1 {
        assert(parts.drop_last()[j] == parts[j]);
        lemma_joined_holds(parts.drop_last(), j, line);
        let n = choose|n: int| 0 <= n < before.len() && before[n] == line;
        assert(joined(parts)[n] == line);
    } else {
        let n = choose|n: int| 0 <= n < parts[j].len() && parts[j][n] == line;
        assert(joined(parts)[before.len() + n] == line);
    }
}

proof fn lemma_place_of_hash_group(keys: Seq<u64>, m: Map<u64, Seq<Seq<FileView>>>, g: int) -> (r: (
    int,
    int,
))
    requires
        0 <= g < groups::lists_under(keys, m).len(),
    ensures
        0 <= r.0 < keys.len(),
        0 <= r.1 < m[keys[r.0]].len(),
        groups::lists_under(keys, m)[g].1 == m[keys[r.0]][r.1],
    decreases keys.len(),
{
    if keys.len() == 0 {
        (0, 0)
    } else {
        let before = groups::lists_under(keys.drop_last(), m);
        if g < before.len() {
            let r = lemma_place_of_hash_group(keys.drop_last(), m, g);
            assert(keys.drop_last()[r.0] == keys[r.0]);
            r
        } else {
            (keys.len() - 1, g - before.len())
        }
    }
}

proof fn lemma_group_names_file(
    target: Target,
    k: u64,
    name: Seq<char>,
    files: Seq<FileView>,
    i: int,
)
    requires
        0 <= i < files.len(),
    ensures
        name_group((name, files)).contains(files[i].path.text),
        size_group(target, (k, files)).contains(files[i].path.text),
        hash_group(target, k, files).contains(files[i].path.text),
{
    law_lines_about_a_name(name, files);
    law_lines_about_a_size(k, files);
    law_lines_about_a_hash(k, files);
    let f = files[i];
    assert(name_group((name, files))[i + 1] == f.path.text);
    match target {
        Target::Screen => {
            assert(size_group(target, (k, files))[i + 1] == f.path.text);
            assert(hash_group(target, k, files)[i + 1] == f.path.text);
        },
        Target::File => {
            assert(size_group(target, (k, files))[i + 2] == f.path.text);
            assert(hash_group(target, k, files)[i + 2] == f.path.text);
        },
    }
}

proof fn lemma_hash_lines_name_file(
    target: Target,
    m: Map<u64, Seq<Seq<FileView>>>,
    j: int,
    n: int,
    i: int,
)
    requires
        0 <= j < grouping::keys_of(m).len(),
        0 <= n < m[grouping::keys_of(m)[j]].len(),
        0 <= i < m[grouping::keys_of(m)[j]][n].len(),
    ensures
        hash_lines(target, m).contains(m[grouping::keys_of(m)[j]][n][i].path.text),
{
    let keys = grouping::keys_of(m);
    let k = keys[j];
    let files = m[k][n];
    let line = files[i].path.text;
    lemma_group_names_file(target, k, blank(), files, i);
    let inner = m[k].map_values(|files: Seq<FileView>| hash_group(target, k, files));
    assert(inner[n] == hash_group(target, k, files));
    lemma_joined_holds(inner, n, line);
    let a = joined(inner);
    let q = choose|q: int| 0 <= q < a.len() && a[q] == line;
    assert(hash_groups(target, k, m[k])[q] == line);
    let parts = keys.reverse().map_values(|size: u64| hash_groups(target, size, m[size]));
    let place = keys.len() - 1 - j;
    assert(keys.reverse()[place] == k);
    assert(parts[place] == hash_groups(target, k, m[k]));
    lemma_joined_holds(parts, place, line);
}

/// A report names every file found: for each file of each group, the path of the file
/// is one of the lines, on the screen and in a file.
pub proof fn law_report_names_every_file(finder: DuplicateFinder, g: int, i: int)
    requires
        finder.check_method != CheckingMethod::NotSet,
        0 <= g < finder.found_groups().len(),
        0 <= i < finder.found_groups()[g].len(),
    ensures
        finder.printed_lines().contains(finder.found_groups()[g][i].path.text),
        finder.saved_lines().contains(finder.found_groups()[g][i].path.text),
{
    let files = finder.found_groups()[g];
    let line = files[i].path.text;
    let printed = finder.printed_lines();
    let saved = finder.saved_lines();
    match finder.check_method {
        CheckingMethod::Name => {
            let list = groups::by_name(finder.names());
            lemma_group_names_file(Target::Screen, 0, list[g].0, files, i);
            let on_screen = name_parts(Target::Screen, list);
            let in_file = name_parts(Target::File, list);
            assert(on_screen[g] == name_group(list[g]));
            assert(in_file[list.len() - 1 - g] == name_group(list[g]));
            lemma_joined_holds(on_screen, g, line);
            lemma_joined_holds(in_file, list.len() - 1 - g, line);
            let a = name_lines(Target::Screen, finder.names());
            let b = name_lines(Target::File, finder.names());
            let n = choose|n: int| 0 <= n < a.len() && a[n] == line;
            let q = choose|q: int| 0 <= q < b.len() && b[q] == line;
            assert(printed[n + 1] == line);
            assert(saved[q + 2] == line);
        },
        CheckingMethod::Size => {
            let list = groups::by_size(finder.sizes());
            lemma_group_names_file(Target::Screen, list[g].0, blank(), files, i);
            lemma_group_names_file(Target::File, list[g].0, blank(), files, i);
            let on_screen = size_parts(Target::Screen, list);
            let in_file = size_parts(Target::File, list);
            assert(on_screen[g] == size_group(Target::Screen, list[g]));
            assert(in_file[list.len() - 1 - g] == size_group(Target::File, list[g]));
            lemma_joined_holds(on_screen, g, line);
            lemma_joined_holds(in_file, list.len() - 1 - g, line);
            let a = size_lines(Target::Screen, finder.sizes());
            let b = size_lines(Target::File, finder.sizes());
            let n = choose|n: int| 0 <= n < a.len() && a[n] == line;
            let q = choose|q: int| 0 <= q < b.len() && b[q] == line;
            assert(printed[n + 1] == line);
            assert(saved[q + 2] == line);
        },
        _ => {
            let m = finder.hashes();
            let (j, n) = lemma_place_of_hash_group(grouping::keys_of(m), m, g);
            lemma_hash_lines_name_file(Target::Screen, m, j, n, i);
            lemma_hash_lines_name_file(Target::File, m, j, n, i);
            let a = hash_lines(Target::Screen, m);
            let b = hash_lines(Target::File, m);
            let p = choose|p: int| 0 <= p < a.len() && a[p] == line;
            let q = choose|q: int| 0 <= q < b.len() && b[q] == line;
            assert(printed[p + 1] == line);
            assert(saved[q + 2] == line);
        },
    }
}

/// The text of some lines is that of each, one after the other, with an end of line
/// behind it.
pub proof fn law_lines_are_ended(lines: Seq<Seq<char>>, line: Seq<char>)
    ensures
        ended(Seq::empty()).len() == 0,
        ended(lines.push(line)) == ended(lines) + line + seq!['\n'],
{
    reveal_strlit("\n");
    assert(lines.push(line).drop_last() =~= lines);
    assert("\n"@ =~= seq!['\n']);
}

/// The first line on the screen tells how many files were found and in how many groups,
/// and the space lost by size; the lines about the groups follow.
pub proof fn law_printed_report(finder: DuplicateFinder)
    ensures
        ({
            let first = "Found "@ + text::decimal(finder.files_found());
            let groups = text::decimal(finder.groups_found());
            let space = human_size(finder.information.lost_space_by_size);
            match finder.check_method {
                CheckingMethod::Name => finder.printed_lines() == seq![
                    first + " files in "@ + groups
                        + " groups with same name(may have different content)"@,
                ] + name_lines(Target::Screen, finder.names()),
                CheckingMethod::Size => finder.printed_lines() == seq![
                    first + " files in "@ + groups
                        + " groups with same size(may have different content) which took "@ + space
                        + ":"@,
                ] + size_lines(Target::Screen, finder.sizes()),
                _ => finder.printed_lines() == seq![
                    first + " duplicated files in "@ + groups
                        + " groups with same content which took "@ + space + ":"@,
                ] + hash_lines(Target::Screen, finder.hashes()),
            }
        }),
        finder.check_method != CheckingMethod::NotSet ==> finder.groups_found()
            == finder.found_groups().len(),
{
}

/// The number of files found is the number of those in all groups.
pub proof fn law_files_found_are_those_in_groups(finder: DuplicateFinder)
    requires
        finder.check_method != CheckingMethod::NotSet,
    ensures
        finder.files_found() == finder.found_groups().flatten().len(),
{
    match finder.check_method {
        CheckingMethod::Name => lemma_total_is_flat(groups::by_name(finder.names())),
        CheckingMethod::Size => lemma_total_is_flat(groups::by_size(finder.sizes())),
        _ => lemma_total_is_flat(groups::by_hash(finder.hashes())),
    }
}

proof fn lemma_total_is_flat<K>(list: Seq<(K, Seq<FileView>)>)
    ensures
        groups::total_files(list) == list.map_values(
            |g: (K, Seq<FileView>)| g.1,
        ).flatten().len(),
    decreases list.len(),
{
    let second = |g: (K, Seq<FileView>)| g.1;
    let parts = list.map_values(second);
    if list.len() > 0 {
        lemma_total_is_flat(list.drop_last());
        assert(parts.drop_last() =~= list.drop_last().map_values(second));
        parts.drop_last().lemma_flatten_push(parts.last());
        assert(parts.drop_last().push(parts.last()) =~= parts);
    } else {
        assert(parts =~= Seq::empty());
    }
}

/// A file with results says that nothing was found, or tells of all groups, under a
/// line with what was searched for and one with the statistics of the search. By name
/// it goes by whether there are groups by size.
pub proof fn law_saved_report(finder: DuplicateFinder)
    ensures
        ({
            let i = finder.information;
            match finder.check_method {
                CheckingMethod::Name => finder.saved_body() == (if exists|k: u64|
                    finder.sizes().contains_key(k) {
                    ended(
                        seq![
                            "-------------------------------------------------Files with same names-------------------------------------------------"@,
                            "Found "@ + text::decimal(i.number_of_duplicated_files_by_name as nat)
                                + " files in "@ + text::decimal(i.number_of_groups_by_name as nat)
                                + " groups with same name(may have different content)"@,
                        ] + name_lines(Target::File, finder.names()),
                    )
                } else {
                    "Not found any files with same names."@
                }),
                CheckingMethod::Size => finder.saved_body() == (if exists|k: u64|
                    finder.sizes().contains_key(k) {
                    ended(
                        seq![
                            "-------------------------------------------------Files with same size-------------------------------------------------"@,
                            "Found "@ + text::decimal(i.number_of_duplicated_files_by_size as nat)
                                + " duplicated files which in "@ + text::decimal(
                                i.number_of_groups_by_size as nat,
                            ) + " groups which takes "@ + human_size(i.lost_space_by_size) + "."@,
                        ] + size_lines(Target::File, finder.sizes()),
                    )
                } else {
                    "Not found any duplicates."@
                }),
                _ => finder.saved_body() == (if exists|k: u64| finder.hashes().contains_key(k) {
                    ended(
                        seq![
                            "-------------------------------------------------Files with same hashes-------------------------------------------------"@,
                            "Found "@ + text::decimal(i.number_of_duplicated_files_by_hash as nat)
                                + " duplicated files which in "@ + text::decimal(
                                i.number_of_groups_by_hash as nat,
                            ) + " groups which takes "@ + human_size(i.lost_space_by_hash) + "."@,
                        ] + hash_lines(Target::File, finder.hashes()),
                    )
                } else {
                    "Not found any duplicates."@
                }),
            }
        }),
{
    assert(finder.sizes().dom().is_empty() <==> !exists|k: u64| finder.sizes().contains_key(k));
    assert(finder.hashes().dom().is_empty() <==> !exists|k: u64| finder.hashes().contains_key(k));
}

/// The first line of a file with results names the directories that were searched, those
/// that were left out, and the items that were.
pub proof fn law_saved_heading(finder: DuplicateFinder)
    ensures
        finder.saved_heading() == "Results of searching "@ + debug_paths(
            finder.directories.included_directories.deep_view(),
        ) + " with excluded directories "@ + debug_paths(
            finder.directories.excluded_directories.deep_view(),
        ) + " and excluded items "@ + debug_texts(finder.excluded_items.items.deep_view()) + "\n"@,
{
}

/// A list stands in brackets, with commas between its items.
pub proof fn law_lists_stand_in_brackets(parts: Seq<Seq<char>>, part: Seq<char>)
    ensures
        in_brackets(Seq::empty()) == "["@ + "]"@,
        in_brackets(seq![part]) == "["@ + part + "]"@,
        in_brackets(parts) == "["@ + with_commas(parts) + "]"@,
        with_commas(seq![part]) == part,
        parts.len() > 0 ==> with_commas(parts.push(part)) == with_commas(parts) + ", "@ + part,
{
    assert("["@ + Seq::<char>::empty() =~= "["@);
    assert(parts.push(part).drop_last() =~= parts);
}

/// Lists of texts and of paths are formatted item by item; a path that is not Unicode
/// looks as its owner said.
pub proof fn law_debug_lists(texts: Seq<Seq<char>>, paths: Seq<PathView>)
    ensures
        debug_texts(texts) == in_brackets(
            Seq::new(texts.len(), |i: int| debug_text(texts[i])),
        ),
        debug_paths(paths) == in_brackets(
            Seq::new(
                paths.len(),
                |i: int|
                    match paths[i].foreign {
                        Some(f) => f.1,
                        None => debug_path(paths[i].text),
                    },
            ),
        ),
{
    assert(texts.map_values(|t: Seq<char>| debug_text(t)) =~= Seq::new(
        texts.len(),
        |i: int| debug_text(texts[i]),
    ));
    assert(paths.map_values(|p: PathView| path_debug(p)) =~= Seq::new(
        paths.len(),
        |i: int|
            match paths[i].foreign {
                Some(f) => f.1,
                None => debug_path(paths[i].text),
            },
    ));
}

/// Results go to the file that is named, or to `results.txt` if none is.
pub proof fn law_results_have_a_file(file_name: Seq<char>)
    ensures
        file_name.len() > 0 ==> results_name(file_name) == file_name,
        file_name.len() == 0 ==> results_name(file_name) == "results.txt"@,
{
}

/// What is printed for debugging: every number of the statistics.
pub proof fn law_debug_numbers(finder: DuplicateFinder)
    ensures
        ({
            let i = finder.information;
            finder.debug_numbers() == seq![
                "---------------DEBUG PRINT---------------"@,
                "### Information's"@,
                "Errors size - "@ + text::decimal(finder.errors().len()),
                "Warnings size - "@ + text::decimal(finder.warnings().len()),
                "Messages size - "@ + text::decimal(finder.messages().len()),
                "Number of duplicated files by size(in groups) - "@ + text::decimal(
                    i.number_of_duplicated_files_by_size as nat,
                ) + " ("@ + text::decimal(i.number_of_groups_by_size as nat) + ")"@,
                "Number of duplicated files by hash(in groups) - "@ + text::decimal(
                    i.number_of_duplicated_files_by_hash as nat,
                ) + " ("@ + text::decimal(i.number_of_groups_by_hash as nat) + ")"@,
                "Number of duplicated files by name(in groups) - "@ + text::decimal(
                    i.number_of_duplicated_files_by_name as nat,
                ) + " ("@ + text::decimal(i.number_of_groups_by_name as nat) + ")"@,
                "Lost space by size - "@ + human_size(i.lost_space_by_size) + " ("@
                    + text::decimal(i.lost_space_by_size as nat) + " bytes)"@,
                "Lost space by hash - "@ + human_size(i.lost_space_by_hash) + " ("@
                    + text::decimal(i.lost_space_by_hash as nat) + " bytes)"@,
                "Gained space by removing duplicated entries - "@ + human_size(i.gained_space)
                    + " ("@ + text::decimal(i.gained_space as nat) + " bytes)"@,
                "Bytes read when hashing - "@ + human_size(i.bytes_read_when_hashing) + " ("@
                    + text::decimal(i.bytes_read_when_hashing as nat) + " bytes)"@,
                "Number of removed files - "@ + text::decimal(i.number_of_removed_files as nat),
                "Number of failed to remove files - "@ + text::decimal(
                    i.number_of_failed_to_remove_files as nat,
                ),
            ]
        }),
{
}

/// What is printed for debugging: every setting.
pub proof fn law_debug_settings(finder: DuplicateFinder)
    ensures
        finder.debug_settings() == seq![
            "### Other"@,
            "Files list size - "@ + text::decimal(finder.sizes().dom().len()),
            "Hashed Files list size - "@ + text::decimal(finder.hashes().dom().len()),
            "Allowed extensions - "@ + debug_texts(
                finder.allowed_extensions.file_extensions.deep_view(),
            ),
            "Excluded items - "@ + debug_texts(finder.excluded_items.items.deep_view()),
            "Included directories - "@ + debug_paths(
                finder.directories.included_directories.deep_view(),
            ),
            "Excluded directories - "@ + debug_paths(
                finder.directories.excluded_directories.deep_view(),
            ),
            "Recursive search - "@ + (if finder.recursive_search {
                "true"@
            } else {
                "false"@
            }),
            "Minimum file size - "@ + text::decimal(finder.minimal_file_size as nat),
            "Checking Method - "@ + (match finder.check_method {
                CheckingMethod::NotSet => "None"@,
                CheckingMethod::Name => "Name"@,
                CheckingMethod::Size => "Size"@,
                CheckingMethod::Hash => "Hash"@,
                CheckingMethod::HashMB => "HashMB"@,
            }),
            "Delete Method - "@ + (match finder.delete_method {
                DeleteMethod::DoNothing => "None"@,
                DeleteMethod::AllExceptNewest => "AllExceptNewest"@,
                DeleteMethod::AllExceptOldest => "AllExceptOldest"@,
                DeleteMethod::OneOldest => "OneOldest"@,
                DeleteMethod::OneNewest => "OneNewest"@,
                DeleteMethod::HardLink => "HardLink"@,
            }),
            "-----------------------------------------"@,
        ],
{
}

} // verus!
