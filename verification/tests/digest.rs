use czkawka_core::digest::{FileDigest, HashStage, HASH_MB_LIMIT_BYTES};

#[test]
fn hash_of_nothing() {
    let mut d = FileDigest::new(HashStage::Full);
    assert!(!d.take_chunk(b""));
    assert_eq!(d.finish(), "af1349b9f5f9a1a6a0404dea36dcc9499bcb25c9adc112b7cc9a93cae41f3262");
    assert_eq!(d.bytes_read(), 0);
}

#[test]
fn hash_of_abc_in_chunks() {
    let mut d = FileDigest::new(HashStage::Full);
    assert!(d.take_chunk(b"a"));
    assert!(d.take_chunk(b"bc"));
    assert!(!d.take_chunk(b""));
    assert_eq!(d.finish(), "6437b3ac38465133ffb63b75273a8db548c558465d79db03fd359c6cd5bd9d85");
    assert_eq!(d.bytes_read(), 3);
}

#[test]
fn hash_is_that_of_the_crate() {
    let bytes: Vec<u8> = (0..5000u32).map(|i| (i % 251) as u8).collect();
    let mut d = FileDigest::new(HashStage::Full);
    for chunk in bytes.chunks(777) {
        assert!(d.take_chunk(chunk));
    }
    assert_eq!(d.finish(), blake3::hash(&bytes).to_hex().to_string());
}

#[test]
fn prehash_is_one_read() {
    let mut d = FileDigest::new(HashStage::Prehash);
    assert!(!d.take_chunk(b"abc"));
    assert_eq!(d.finish(), "6437b3ac38465133ffb63b75273a8db548c558465d79db03fd359c6cd5bd9d85");
}

#[test]
fn first_megabyte_stops_at_the_limit() {
    let mut d = FileDigest::new(HashStage::FirstMegabyte);
    let chunk = vec![7u8; HashStage::FirstMegabyte.buffer_len()];
    let mut reads = 1;
    while d.take_chunk(&chunk) {
        reads += 1;
    }
    assert_eq!(reads, 8);
    assert_eq!(d.bytes_read(), HASH_MB_LIMIT_BYTES);
}

#[test]
fn first_megabyte_stops_at_the_end() {
    let mut d = FileDigest::new(HashStage::FirstMegabyte);
    assert!(d.take_chunk(b"ab"));
    assert!(!d.take_chunk(b""));
    assert_eq!(d.bytes_read(), 2);
}

#[test]
fn buffers() {
    assert_eq!(HashStage::Prehash.buffer_len(), 2048);
    assert_eq!(HashStage::FirstMegabyte.buffer_len(), 131072);
    assert_eq!(HashStage::Full.buffer_len(), 131072);
}
