//! The hash of what is read of a file.
use vstd::prelude::*;

verus! {

/// A BLAKE3 hasher.
#[verifier::external_type_specification]
#[verifier::external_body]
pub struct ExHasher(blake3::Hasher);

/// The bytes that a hasher has taken in.
pub uninterp spec fn hasher_input(h: blake3::Hasher) -> Seq<u8>;

/// A hasher computes the plain hash, neither a keyed one nor a derived key.
pub uninterp spec fn hasher_is_plain(h: blake3::Hasher) -> bool;

/// The hash of some bytes in hexadecimal.
pub uninterp spec fn blake3_hex(input: Seq<u8>) -> Seq<char>;

/// `c` is a digit or one of the letters `a` to `f`.
pub open spec fn is_hex_digit(c: char) -> bool {
    '0' <= c <= '9' || 'a' <= c <= 'f'
}

/// Calls `blake3::Hasher::new`: a hasher for the plain hash that has taken in nothing.
#[verifier::external_body]
fn new_hasher() -> (r: blake3::Hasher)
    ensures
        hasher_is_plain(r),
        hasher_input(r) == Seq::<u8>::empty(),
{
    blake3::Hasher::new()
}

/// Calls `blake3::Hasher::update`: the bytes are taken in behind those that came
/// before, and the kind of hash stays. The hasher has room for less than two to
/// the power of 64 bytes.
#[verifier::external_body]
fn update_hasher(hasher: &mut blake3::Hasher, bytes: &[u8])
    requires
        hasher_input(*old(hasher)).len() + bytes@.len() <= u64::MAX,
    ensures
        hasher_input(*final(hasher)) == hasher_input(*old(hasher)) + bytes@,
        hasher_is_plain(*final(hasher)) == hasher_is_plain(*old(hasher)),
{
    hasher.update(bytes);
}

/// Calls `blake3::Hasher::finalize` and `blake3::Hash::to_hex`: the plain hash of
/// the bytes taken in, named `blake3_hex`, which is 64 lower case hexadecimal digits.
#[verifier::external_body]
fn finish_hasher(hasher: &blake3::Hasher) -> (r: String)
    requires
        hasher_is_plain(*hasher),
    ensures
        r@ == blake3_hex(hasher_input(*hasher)),
        r@.len() == 64,
        forall|i: int| 0 <= i < r@.len() ==> is_hex_digit(#[trigger] r@[i]),
{
    hasher.finalize().to_hex().to_string()
}

/// How much of a file is hashed when no more than its beginning is.
pub const HASH_MB_LIMIT_BYTES: u64 = 1024 * 1024;

/// How much of a file is hashed.
#[derive(PartialEq, Eq, Clone, Copy, Debug, Structural)]
pub enum HashStage {
    /// What one read into a small buffer gives.
    Prehash,
    /// What is read until a megabyte is reached.
    FirstMegabyte,
    /// All of it.
    Full,
}

impl HashStage {
    /// The size of the buffer that a file is read into.
    pub open spec fn buffer_size(self) -> usize {
        match self {
            HashStage::Prehash => 2048,
            _ => 131072,
        }
    }

    /// The size of the buffer that a file is read into.
    pub fn buffer_len(&self) -> (r: usize)
        ensures
            r == self.buffer_size(),
    {
        match self {
            HashStage::Prehash => 2048,
            _ => 131072,
        }
    }
}

/// After a read that gave `chunk` bytes, of `total` in all, the file is read further.
pub open spec fn reads_on(stage: HashStage, chunk: nat, total: nat) -> bool {
    match stage {
        HashStage::Prehash => false,
        HashStage::FirstMegabyte => chunk > 0 && total < HASH_MB_LIMIT_BYTES,
        HashStage::Full => chunk > 0,
    }
}

/// The hash of a file that is being read.
pub struct FileDigest {
    hasher: blake3::Hasher,
    bytes: u64,
    stage: HashStage,
}

impl FileDigest {
    pub closed spec fn wf(&self) -> bool {
        hasher_is_plain(self.hasher) && self.bytes == hasher_input(self.hasher).len()
    }

    /// The bytes read so far.
    pub closed spec fn input(&self) -> Seq<u8> {
        hasher_input(self.hasher)
    }

    /// How much is hashed.
    pub closed spec fn stage(&self) -> HashStage {
        self.stage
    }

    /// The hash of a file of which nothing has been read.
    pub fn new(stage: HashStage) -> (r: Self)
        ensures
            r.wf(),
            r.stage() == stage,
            r.input() == Seq::<u8>::empty(),
    {
        FileDigest { hasher: new_hasher(), bytes: 0, stage }
    }

    /// Takes in what one read gave. Returns whether to read on.
    pub fn take_chunk(&mut self, chunk: &[u8]) -> (r: bool)
        requires
            old(self).wf(),
            old(self).input().len() + chunk@.len() <= u64::MAX,
        ensures
            final(self).wf(),
            final(self).stage() == old(self).stage(),
            final(self).input() == old(self).input() + chunk@,
            r == reads_on(old(self).stage(), chunk@.len(), final(self).input().len()),
    {
        update_hasher(&mut self.hasher, chunk);
        self.bytes = self.bytes + chunk.len() as u64;
        match self.stage {
            HashStage::Prehash => false,
            HashStage::FirstMegabyte => chunk.len() > 0 && self.bytes < HASH_MB_LIMIT_BYTES,
            HashStage::Full => chunk.len() > 0,
        }
    }

    /// How many bytes were read.
    pub fn bytes_read(&self) -> (r: u64)
        requires
            self.wf(),
        ensures
            r == self.input().len(),
    {
        self.bytes
    }

    /// The hash of the bytes read, in hexadecimal.
    pub fn finish(&self) -> (r: String)
        requires
            self.wf(),
        ensures
            r@ == blake3_hex(self.input()),
            r@.len() == 64,
            forall|i: int| 0 <= i < r@.len() ==> is_hex_digit(#[trigger] r@[i]),
    {
        finish_hasher(&self.hasher)
    }
}

/// What some reads gave, joined.
pub open spec fn joined(chunks: Seq<Seq<u8>>) -> Seq<u8>
    decreases chunks.len(),
{
    if chunks.len() == 0 {
        Seq::empty()
    } else {
        joined(chunks.drop_last()) + chunks.last()
    }
}

/// `chunks` is what a file was read as: each read but the last was followed by
/// another, and the last was not.
pub open spec fn is_reading(stage: HashStage, chunks: Seq<Seq<u8>>) -> bool {
    &&& chunks.len() > 0
    &&& forall|n: int|
        0 < n <= chunks.len() ==> (#[trigger] reads_on(
            stage,
            chunks[n - 1].len(),
            joined(chunks.take(n)).len(),
        ) <==> n < chunks.len())
}

/// A file is hashed whole, however it was cut into chunks: its reading ends at
/// the first read that gives nothing.
pub proof fn law_whole_file_is_read(chunks: Seq<Seq<u8>>)
    requires
        is_reading(HashStage::Full, chunks),
    ensures
        chunks.last().len() == 0,
        forall|n: int| 0 <= n < chunks.len() - 1 ==> (#[trigger] chunks[n]).len() > 0,
{
    let n = chunks.len() as int;
    assert(!reads_on(HashStage::Full, chunks[n - 1].len(), joined(chunks.take(n)).len()));
    assert forall|k: int| 0 <= k < chunks.len() - 1 implies (#[trigger] chunks[k]).len() > 0 by {
        assert(reads_on(
            HashStage::Full,
            chunks[k + 1 - 1].len(),
            joined(chunks.take(k + 1)).len(),
        ));
    }
}

/// Hashing the beginning of a file covers a megabyte, or else all of the file:
/// the reading ended at a read that gave nothing.
pub proof fn law_megabyte_is_covered(chunks: Seq<Seq<u8>>)
    requires
        is_reading(HashStage::FirstMegabyte, chunks),
    ensures
        joined(chunks).len() >= HASH_MB_LIMIT_BYTES || chunks.last().len() == 0,
        joined(chunks.drop_last()).len() < HASH_MB_LIMIT_BYTES,
{
    let n = chunks.len() as int;
    assert(chunks.take(n) =~= chunks);
    assert(!reads_on(HashStage::FirstMegabyte, chunks[n - 1].len(), joined(chunks.take(n)).len()));
    assert(chunks.take(n - 1) =~= chunks.drop_last());
    if n > 1 {
        assert(reads_on(
            HashStage::FirstMegabyte,
            chunks[n - 1 - 1].len(),
            joined(chunks.take(n - 1)).len(),
        ));
    }
}

/// A file is prehashed by one read.
pub proof fn law_prehash_reads_once(chunks: Seq<Seq<u8>>)
    requires
        is_reading(HashStage::Prehash, chunks),
    ensures
        chunks.len() == 1,
{
    if chunks.len() > 1 {
        assert(reads_on(HashStage::Prehash, chunks[1 - 1].len(), joined(chunks.take(1)).len()));
    }
}

/// How much is read: in one go up to two kibibytes of the beginning, until a mebibyte is
/// reached or the file ends, or until the file ends.
pub proof fn law_how_much_is_read(chunk: nat, total: nat)
    ensures
        !reads_on(HashStage::Prehash, chunk, total),
        reads_on(HashStage::FirstMegabyte, chunk, total) <==> chunk > 0 && total < 1048576,
        reads_on(HashStage::Full, chunk, total) <==> chunk > 0,
        HashStage::Prehash.buffer_size() == 2048,
        HashStage::FirstMegabyte.buffer_size() == 131072,
        HashStage::Full.buffer_size() == 131072,
{
}

/// What was read in several goes is read one after the other.
pub proof fn law_chunks_are_joined(chunks: Seq<Seq<u8>>, chunk: Seq<u8>)
    ensures
        joined(Seq::empty()).len() == 0,
        joined(chunks.push(chunk)) == joined(chunks) + chunk,
{
    assert(chunks.push(chunk).drop_last() =~= chunks);
}

} // verus!
