use std::collections::HashSet;

use mid::fetch::{cache_dir_name, default_index_path, index_path, required_chunks, ChunkId};

fn chunk(b: u8) -> ChunkId {
    ChunkId { bytes: vec![b; 32] }
}

#[test]
fn shared_chunks_are_fetched_once() {
    // 3 + 4 references, 2 of them shared
    let v1 = vec![chunk(1), chunk(2), chunk(3)];
    let v2 = vec![chunk(2), chunk(4), chunk(3), chunk(5)];
    let r = required_chunks(&vec![v1, v2]);
    assert_eq!(r.len(), 3 + 4 - 2);
    let got: Vec<u8> = r.iter().map(|c| c.bytes[0]).collect();
    assert_eq!(got, vec![1, 2, 3, 4, 5]);
    let distinct: HashSet<Vec<u8>> = r.into_iter().map(|c| c.bytes).collect();
    assert_eq!(distinct.len(), 5);
}

#[test]
fn repeated_chunk_within_a_version() {
    let r = required_chunks(&vec![vec![chunk(7), chunk(7), chunk(7)]]);
    assert_eq!(r.len(), 1);
}

#[test]
fn no_versions_need_no_chunks() {
    assert!(required_chunks(&Vec::new()).is_empty());
    assert!(required_chunks(&vec![Vec::new(), Vec::new()]).is_empty());
}

#[test]
fn index_paths() {
    assert_eq!(index_path("repacked", "bash", "4.3-1"), "data/repacked/b/bash/4.3-1.caidx");
    assert_eq!(index_path("debdir", "libbadger", "1.0"), "data/debdir/libb/libbadger/1.0.caidx");
    assert_eq!(default_index_path("debdir"), "data/debdir/default.castr");
    assert_eq!(cache_dir_name("repacked"), "repacked.castr");
}
