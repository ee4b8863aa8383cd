//! What the contents of files have to do with the groups by hash.
use crate::digest;
use crate::digest::HashStage;
use crate::groups;
use crate::grouping;
use crate::hashing;
use crate::hashing::{GroupView, OutcomeView};
use crate::laws;
use crate::model::FileView;
use crate::narrowing;
use crate::reuse;
use vstd::prelude::*;

verus! {

// ---------------------------------------------------------------------------
// What is read of a file
// ---------------------------------------------------------------------------

/// The part of a content that a stage hashes.
pub open spec fn part_hashed(stage: HashStage, content: Seq<u8>) -> Seq<u8> {
    match stage {
        HashStage::Prehash => beginning(content, stage.buffer_size() as int),
        HashStage::FirstMegabyte => beginning(content, digest::HASH_MB_LIMIT_BYTES as int),
        HashStage::Full => content,
    }
}

/// The first `n` bytes, or all if there are fewer.
pub open spec fn beginning(content: Seq<u8>, n: int) -> Seq<u8> {
    if content.len() <= n {
        content
    } else {
        content.take(n)
    }
}

/// What the reads gave are pieces of the content, one behind the other from its
/// beginning, and a read gave nothing only at its end.
pub open spec fn are_pieces_of(chunks: Seq<Seq<u8>>, content: Seq<u8>) -> bool {
    &&& digest::joined(chunks).len() <= content.len()
    &&& digest::joined(chunks) == content.take(digest::joined(chunks).len() as int)
    &&& forall|n: int|
        0 <= n < chunks.len() && (#[trigger] chunks[n]).len() == 0 ==> digest::joined(
            chunks.take(n),
        ).len() == content.len()
}

/// Each read gave as much as the buffer holds, or all that was left.
pub open spec fn fill_buffers(
    stage: HashStage,
    chunks: Seq<Seq<u8>>,
    content: Seq<u8>,
) -> bool {
    forall|n: int|
        0 <= n < chunks.len() ==> (#[trigger] chunks[n]).len() == if content.len()
            - digest::joined(chunks.take(n)).len() < stage.buffer_size() {
            content.len() - digest::joined(chunks.take(n)).len()
        } else {
            stage.buffer_size() as int
        }
}

/// A full hash is that of the whole content, however it was cut into chunks.
pub proof fn law_whole_content_is_hashed(chunks: Seq<Seq<u8>>, content: Seq<u8>)
    requires
        digest::is_reading(HashStage::Full, chunks),
        are_pieces_of(chunks, content),
    ensures
        digest::joined(chunks) == content,
{
    digest::law_whole_file_is_read(chunks);
    let last = chunks.len() - 1;
    assert(chunks[last].len() == 0);
    assert(chunks.take(last) =~= chunks.drop_last());
    assert(content.take(content.len() as int) =~= content);
}

proof fn lemma_read_so_far(
    stage: HashStage,
    chunks: Seq<Seq<u8>>,
    content: Seq<u8>,
    n: int,
)
    requires
        fill_buffers(stage, chunks, content),
        0 <= n <= chunks.len(),
    ensures
        digest::joined(chunks.take(n)).len() == if content.len() < n * stage.buffer_size() {
            content.len() as int
        } else {
            n * stage.buffer_size()
        },
    decreases n,
{
    if n > 0 {
        lemma_read_so_far(stage, chunks, content, n - 1);
        assert(chunks.take(n).drop_last() =~= chunks.take(n - 1));
        assert(chunks.take(n).last() == chunks[n - 1]);
        let b = stage.buffer_size() as int;
        assert(n * b == (n - 1) * b + b) by (nonlinear_arith);
    } else {
        assert(chunks.take(0) =~= Seq::empty());
    }
}

/// Where each read fills the buffer, what is hashed is the whole content, or its
/// first megabyte, or its beginning, as the stage asks.
pub proof fn law_part_of_content_is_hashed(
    stage: HashStage,
    chunks: Seq<Seq<u8>>,
    content: Seq<u8>,
)
    requires
        digest::is_reading(stage, chunks),
        are_pieces_of(chunks, content),
        fill_buffers(stage, chunks, content),
    ensures
        digest::joined(chunks) == part_hashed(stage, content),
{
    let n = chunks.len() as int;
    assert(chunks.take(n) =~= chunks);
    assert(content.take(content.len() as int) =~= content);
    lemma_read_so_far(stage, chunks, content, n);
    match stage {
        HashStage::Prehash => {
            digest::law_prehash_reads_once(chunks);
        },
        HashStage::FirstMegabyte => {
            digest::law_megabyte_is_covered(chunks);
            lemma_read_so_far(stage, chunks, content, n - 1);
            assert(chunks.take(n - 1) =~= chunks.drop_last());
            if chunks.last().len() == 0 {
                assert(chunks[n - 1].len() == 0);
            }
        },
        HashStage::Full => {
            law_whole_content_is_hashed(chunks, content);
        },
    }
}

// ---------------------------------------------------------------------------
// Contents and groups
// ---------------------------------------------------------------------------

/// The hash of the part of a content that a stage hashes.
pub open spec fn content_hash(stage: HashStage, content: Seq<u8>) -> Seq<char> {
    digest::blake3_hex(part_hashed(stage, content))
}

/// If the file was read to the end, the outcome holds the hash of its content.
pub open spec fn tells_of(stage: HashStage, content: Seq<u8>, outcome: OutcomeView) -> bool {
    match outcome {
        OutcomeView::Hashed(hash, _) => hash == content_hash(stage, content),
        _ => true,
    }
}

/// The outcomes tell of the contents of the files.
pub open spec fn tell_of_contents(
    stage: HashStage,
    content: spec_fn(FileView) -> Seq<u8>,
    files: Map<u64, Seq<FileView>>,
    outcomes: Map<u64, Seq<OutcomeView>>,
) -> bool {
    forall|k: u64, n: int|
        files.contains_key(k) && 0 <= n < files[k].len() ==> tells_of(
            stage,
            content(#[trigger] files[k][n]),
            outcomes[k][n],
        )
}

/// The records that are used tell of the contents of the files.
pub open spec fn records_tell_of_contents(
    stage: HashStage,
    content: spec_fn(FileView) -> Seq<u8>,
    files: Map<u64, Seq<FileView>>,
    loaded: Map<u64, Seq<FileView>>,
) -> bool {
    forall|k: u64, n: int|
        files.contains_key(k) && 0 <= n < files[k].len() ==> match laws::record_about(
            loaded,
            k,
            #[trigger] files[k][n],
        ) {
            Some(record) => record.hash == content_hash(stage, content(files[k][n])),
            None => true,
        }
}

/// All that was read or known in a search tells of the contents of the files.
pub open spec fn search_tells_of_contents(
    content: spec_fn(FileView) -> Seq<u8>,
    sizes: Map<u64, Seq<FileView>>,
    beginnings: Map<u64, Seq<OutcomeView>>,
    first: Seq<GroupView>,
    loaded: Map<u64, Seq<FileView>>,
    stage: HashStage,
    outcomes: Map<u64, Seq<OutcomeView>>,
) -> bool {
    let rest = narrowing::files_left(first);
    &&& tell_of_contents(HashStage::Prehash, content, sizes, beginnings)
    &&& tell_of_contents(stage, content, reuse::unknown_part(rest, loaded), outcomes)
    &&& records_tell_of_contents(stage, content, rest, loaded)
}

/// The outcome that a finished reading gives tells of the content.
pub proof fn law_outcome_tells_of_content(
    stage: HashStage,
    chunks: Seq<Seq<u8>>,
    content: Seq<u8>,
)
    requires
        digest::is_reading(stage, chunks),
        are_pieces_of(chunks, content),
        stage == HashStage::Full || fill_buffers(stage, chunks, content),
    ensures
        tells_of(stage, content, hashing::outcome_of(digest::joined(chunks))),
{
    if stage == HashStage::Full {
        law_whole_content_is_hashed(chunks, content);
    } else {
        law_part_of_content_is_hashed(stage, chunks, content);
    }
}

/// The file was read to the end wherever it stands.
pub open spec fn was_read(
    files: Map<u64, Seq<FileView>>,
    outcomes: Map<u64, Seq<OutcomeView>>,
    k: u64,
    file: FileView,
) -> bool {
    files.contains_key(k) ==> forall|n: int|
        0 <= n < files[k].len() && #[trigger] files[k][n] == file ==> outcomes[k][n] is Hashed
}

/// Two files of one size that hold the same are found in one group by hash, if
/// both could be read.
pub proof fn law_equal_contents_are_found(
    content: spec_fn(FileView) -> Seq<u8>,
    sizes: Map<u64, Seq<FileView>>,
    beginnings: Map<u64, Seq<OutcomeView>>,
    first: Seq<GroupView>,
    loaded: Map<u64, Seq<FileView>>,
    stage: HashStage,
    outcomes: Map<u64, Seq<OutcomeView>>,
    second: Seq<GroupView>,
    k: u64,
    i: int,
    j: int,
)
    requires
        narrowing::is_search_by_hash(sizes, beginnings, first, loaded, stage, outcomes, second),
        search_tells_of_contents(content, sizes, beginnings, first, loaded, stage, outcomes),
        sizes.contains_key(k),
        0 <= i < sizes[k].len(),
        0 <= j < sizes[k].len(),
        content(sizes[k][i]) == content(sizes[k][j]),
        was_read(sizes, beginnings, k, sizes[k][i]),
        was_read(sizes, beginnings, k, sizes[k][j]),
        ({
            let read = reuse::unknown_part(narrowing::files_left(first), loaded);
            was_read(read, outcomes, k, sizes[k][i]) && was_read(read, outcomes, k, sizes[k][j])
        }),
        sizes[k][i] != sizes[k][j],
        ({
            let hash = content_hash(stage, content(sizes[k][i]));
            laws::kept_about(loaded, stage, k, sizes[k][i], hash) != laws::kept_about(
                loaded,
                stage,
                k,
                sizes[k][j],
                hash,
            )
        }),
    ensures
        ({
            let found = narrowing::groups_by_hash(first, loaded, second);
            let hash = content_hash(stage, content(sizes[k][i]));
            &&& found.contains_key(k)
            &&& exists|g: int|
                0 <= g < found[k].len() && (#[trigger] found[k][g]).contains(
                    laws::kept_about(loaded, stage, k, sizes[k][i], hash),
                ) && found[k][g].contains(
                    laws::kept_about(loaded, stage, k, sizes[k][j], hash),
                )
        }),
{
    let a = sizes[k][i];
    let b = sizes[k][j];
    let pre = HashStage::Prehash;
    let begin = content_hash(pre, content(a));
    let hash = content_hash(stage, content(a));
    let rest = narrowing::files_left(first);
    assert(tells_of(pre, content(sizes[k][i]), beginnings[k][i]));
    assert(tells_of(pre, content(sizes[k][j]), beginnings[k][j]));
    assert(hashing::has_hash(beginnings[k][i], begin));
    assert(hashing::has_hash(beginnings[k][j], begin));
    assert(hashing::has_result(first, k));
    let r = choose|r: int| 0 <= r < first.len() && (#[trigger] first[r]).size == k;
    assert(hashing::is_reading_of(first[r], pre, sizes, beginnings));
    if i < j {
        laws::law_equal_hashes_stand_together(k, pre, sizes[k], beginnings[k], begin, i, j);
    } else {
        laws::law_equal_hashes_stand_together(k, pre, sizes[k], beginnings[k], begin, j, i);
    }
    laws::law_shared_beginnings_go_on(first, r, begin, a);
    laws::law_shared_beginnings_go_on(first, r, begin, b);
    let x = choose|x: int| 0 <= x < rest[k].len() && rest[k][x] == a;
    let y = choose|y: int| 0 <= y < rest[k].len() && rest[k][y] == b;
    grouping::lemma_extended_finite(
        Map::<u64, Seq<FileView>>::empty(),
        hashing::all_files(hashing::all_groups(first)),
    );
    lemma_left_has_hash(content, rest, loaded, stage, outcomes, k, x);
    lemma_left_has_hash(content, rest, loaded, stage, outcomes, k, y);
    laws::law_known_and_computed_hashes_are_compared(
        Map::empty(),
        rest,
        loaded,
        stage,
        outcomes,
        second,
        k,
        x,
        y,
        hash,
    );
    let found = narrowing::groups_by_hash(first, loaded, second);
    let after = reuse::with_all_records(
        second,
        groups::by_size(reuse::known_part(rest, loaded)),
    );
    let group = after[reuse::result_for(after, k, 0)].hashes[hash];
    let g = choose|g: int| 0 <= g < found[k].len() && found[k][g] == group;
    assert(found[k][g].contains(laws::kept_about(loaded, stage, k, a, hash)));
}

proof fn lemma_left_has_hash(
    content: spec_fn(FileView) -> Seq<u8>,
    rest: Map<u64, Seq<FileView>>,
    loaded: Map<u64, Seq<FileView>>,
    stage: HashStage,
    outcomes: Map<u64, Seq<OutcomeView>>,
    k: u64,
    x: int,
)
    requires
        rest.contains_key(k),
        0 <= x < rest[k].len(),
        tell_of_contents(stage, content, reuse::unknown_part(rest, loaded), outcomes),
        records_tell_of_contents(stage, content, rest, loaded),
        was_read(reuse::unknown_part(rest, loaded), outcomes, k, rest[k][x]),
    ensures
        laws::has_known_or_read_hash(
            rest,
            loaded,
            outcomes,
            k,
            x,
            content_hash(stage, content(rest[k][x])),
        ),
{
    let file = rest[k][x];
    let hash = content_hash(stage, content(file));
    let read = reuse::unknown_part(rest, loaded);
    match laws::record_about(loaded, k, rest[k][x]) {
        Some(record) => {
            assert(record.hash == hash);
        },
        None => {
            if loaded.contains_key(k) {
                reuse::law_each_file_is_known_or_hashed(rest[k], loaded[k]);
                assert(reuse::record_of(rest[k][x], loaded[k]) is None);
                assert(reuse::unrecorded(rest[k], loaded[k]).contains(file));
            } else {
                assert(rest[k].contains(file));
            }
            assert(read.contains_key(k));
            assert(read[k].contains(file));
            let n = choose|n: int| 0 <= n < read[k].len() && read[k][n] == file;
            assert(tells_of(stage, content(read[k][n]), outcomes[k][n]));
            assert(hashing::has_hash(outcomes[k][n], hash));
        },
    }
}

/// The file has the path of one of the files, whose content has this hash.
pub open spec fn has_content_hash(
    content: spec_fn(FileView) -> Seq<u8>,
    stage: HashStage,
    files: Seq<FileView>,
    hash: Seq<char>,
    found: FileView,
) -> bool {
    exists|j: int|
        0 <= j < files.len() && narrowing::is_at_path_of(found, #[trigger] files[j])
            && content_hash(stage, content(files[j])) == hash
}

/// Every file of the group has the path of one of the files, whose content has this
/// hash.
pub open spec fn group_has_content_hash(
    content: spec_fn(FileView) -> Seq<u8>,
    stage: HashStage,
    files: Seq<FileView>,
    hash: Seq<char>,
    group: Seq<FileView>,
) -> bool {
    forall|n: int|
        0 <= n < group.len() ==> has_content_hash(content, stage, files, hash, #[trigger] group[n])
}

/// The files of a group by hash are files of that size whose contents, or first
/// megabytes where no more was hashed, have one hash.
pub proof fn law_group_has_one_content_hash(
    content: spec_fn(FileView) -> Seq<u8>,
    sizes: Map<u64, Seq<FileView>>,
    beginnings: Map<u64, Seq<OutcomeView>>,
    first: Seq<GroupView>,
    loaded: Map<u64, Seq<FileView>>,
    stage: HashStage,
    outcomes: Map<u64, Seq<OutcomeView>>,
    second: Seq<GroupView>,
    k: u64,
    g: int,
)
    requires
        narrowing::is_search_by_hash(sizes, beginnings, first, loaded, stage, outcomes, second),
        search_tells_of_contents(content, sizes, beginnings, first, loaded, stage, outcomes),
        narrowing::groups_by_hash(first, loaded, second).contains_key(k),
        0 <= g < narrowing::groups_by_hash(first, loaded, second)[k].len(),
    ensures
        sizes.contains_key(k),
        exists|h: Seq<char>|
            group_has_content_hash(
                content,
                stage,
                sizes[k],
                h,
                narrowing::groups_by_hash(first, loaded, second)[k][g],
            ),
{
    let rest = narrowing::files_left(first);
    let read = reuse::unknown_part(rest, loaded);
    let group = narrowing::groups_by_hash(first, loaded, second)[k][g];
    narrowing::law_group_has_one_hash(
        sizes,
        beginnings,
        first,
        loaded,
        stage,
        outcomes,
        second,
        k,
        g,
    );
    narrowing::law_files_left_are_among_all(sizes, beginnings, first, k);
    let h = choose|h: Seq<char>|
        narrowing::has_one_hash(rest, loaded, stage, outcomes, k, h, group);
    assert forall|n: int| 0 <= n < group.len() implies has_content_hash(
        content,
        stage,
        sizes[k],
        h,
        #[trigger] group[n],
    ) by {
        assert(narrowing::is_kept_from(rest, loaded, stage, outcomes, k, h, group[n]));
        let j = choose|j: int|
            0 <= j < rest[k].len() && #[trigger] laws::has_known_or_read_hash(
                rest,
                loaded,
                outcomes,
                k,
                j,
                h,
            ) && group[n] == laws::kept_about(loaded, stage, k, rest[k][j], h);
        let file = rest[k][j];
        narrowing::lemma_kept_at_path(loaded, stage, k, file, h);
        match laws::record_about(loaded, k, rest[k][j]) {
            Some(record) => {
                assert(record.hash == content_hash(stage, content(file)));
            },
            None => {
                let m = choose|m: int|
                    0 <= m < read[k].len() && read[k][m] == file && #[trigger] hashing::has_hash(
                        outcomes[k][m],
                        h,
                    );
                if loaded.contains_key(k) {
                    reuse::law_each_file_is_known_or_hashed(rest[k], loaded[k]);
                    assert(reuse::record_of(rest[k][j], loaded[k]) is None);
                    assert(reuse::unrecorded(rest[k], loaded[k]).contains(file));
                }
                assert(tells_of(stage, content(read[k][m]), outcomes[k][m]));
            },
        }
        assert(sizes[k].contains(rest[k][j]));
        let i = choose|i: int| 0 <= i < sizes[k].len() && sizes[k][i] == file;
        assert(narrowing::is_at_path_of(group[n], sizes[k][i]));
    }
    assert(group_has_content_hash(content, stage, sizes[k], h, group));
}

} // verus!
