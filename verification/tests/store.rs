use skein::store::{ChunkEntry, GenericChunkIndex, MemoryChunkIndex, MemoryTreeAdapter, TreeStorage};
use skein::error::StoreError;
use std::collections::BTreeMap;

fn entry(tag: u8, keyframe: bool, offset_ms: u64) -> ChunkEntry {
    ChunkEntry::new([tag; 32], 1000, "h264".to_string(), tag as u64 * 10, keyframe, offset_ms, 4096)
}

fn custom_message(e: StoreError) -> String {
    match e {
        StoreError::Custom(m) => m,
        other => panic!("unexpected error {other:?}"),
    }
}

#[test]
fn seekable_means_keyframe_or_zero_offset() {
    assert!(entry(1, true, 5).is_seekable());
    assert!(entry(1, false, 0).is_seekable());
    assert!(!entry(1, false, 5).is_seekable());
}

#[test]
fn a_new_index_has_one_empty_root() {
    let idx = MemoryChunkIndex::memory();
    assert_eq!(idx.current_root(), 0);
    assert!(idx.all(0).unwrap().is_empty());
    assert_eq!(idx.branched_from(0), None);
}

#[test]
fn insert_creates_a_new_root_and_keeps_the_old_one() {
    let mut idx = MemoryChunkIndex::memory();
    let r1 = idx.insert(0, 100, entry(1, true, 0)).unwrap();
    assert_eq!(r1, 1);
    assert_eq!(idx.get(r1, 100).unwrap(), entry(1, true, 0));
    assert!(idx.all(0).unwrap().is_empty());
    assert_eq!(idx.branched_from(r1), Some(0));
    let r2 = idx.insert(r1, 50, entry(2, false, 3)).unwrap();
    assert_eq!(idx.all(r2).unwrap(), vec![(50, entry(2, false, 3)), (100, entry(1, true, 0))]);
    assert_eq!(idx.all(r1).unwrap(), vec![(100, entry(1, true, 0))]);
}

#[test]
fn overwriting_a_position_replaces_its_entry() {
    let mut idx = MemoryChunkIndex::memory();
    let r1 = idx.insert(0, 100, entry(1, true, 0)).unwrap();
    let r2 = idx.insert(r1, 100, entry(2, true, 0)).unwrap();
    assert_eq!(idx.get(r2, 100).unwrap(), entry(2, true, 0));
    assert_eq!(idx.get(r1, 100).unwrap(), entry(1, true, 0));
}

#[test]
fn delete_removes_the_position_in_a_new_root() {
    let mut idx = MemoryChunkIndex::memory();
    let r1 = idx.insert(0, 100, entry(1, true, 0)).unwrap();
    let r2 = idx.delete(r1, 100).unwrap();
    assert_eq!(custom_message(idx.get(r2, 100).unwrap_err()), "Key not found");
    assert_eq!(idx.get(r1, 100).unwrap(), entry(1, true, 0));
    assert_eq!(idx.branched_from(r2), Some(r1));
}

#[test]
fn missing_roots_are_reported() {
    let mut idx = MemoryChunkIndex::memory();
    assert_eq!(custom_message(idx.get(7, 0).unwrap_err()), "Invalid root");
    assert_eq!(custom_message(idx.all(7).unwrap_err()), "Invalid root");
    assert_eq!(custom_message(idx.root_hash(7).unwrap_err()), "Invalid root");
    assert_eq!(custom_message(idx.range(7, 0..10).unwrap_err()), "Invalid root");
    assert_eq!(custom_message(idx.find_nearest_keyframe(7, 0).unwrap_err()), "Invalid root");
    // Writing to a missing root starts from an empty tree.
    let r = idx.insert(7, 1, entry(1, true, 0)).unwrap();
    assert_eq!(idx.all(r).unwrap(), vec![(1, entry(1, true, 0))]);
    assert_eq!(idx.branched_from(r), Some(7));
}

#[test]
fn branch_copies_the_tree_and_records_its_origin() {
    let mut idx = MemoryChunkIndex::memory();
    let r1 = idx.insert(0, 100, entry(1, true, 0)).unwrap();
    let b = idx.branch(r1).unwrap();
    assert_eq!(b.branched_from, r1);
    assert_eq!(idx.all(b.root).unwrap(), idx.all(r1).unwrap());
    assert_eq!(idx.root_hash(b.root).unwrap(), idx.root_hash(r1).unwrap());
    assert_eq!(idx.branched_from(b.root), Some(r1));
}

#[test]
fn root_hash_is_blake3_of_the_postcard_encoding() {
    let mut idx = MemoryChunkIndex::memory();
    let r1 = idx.insert(0, 100, entry(1, true, 0)).unwrap();
    let mut plain: BTreeMap<u64, ([u8; 32], u64, String, u64, bool, u64, u64)> = BTreeMap::new();
    plain.insert(100, ([1; 32], 1000, "h264".to_string(), 10, true, 0, 4096));
    let bytes = postcard::to_allocvec(&plain).unwrap();
    assert_eq!(idx.root_hash(r1).unwrap(), *blake3::hash(&bytes).as_bytes());
    assert_ne!(idx.root_hash(r1).unwrap(), idx.root_hash(0).unwrap());
    let empty: BTreeMap<u64, ([u8; 32], u64, String, u64, bool, u64, u64)> = BTreeMap::new();
    assert_eq!(idx.root_hash(0).unwrap(), *blake3::hash(&postcard::to_allocvec(&empty).unwrap()).as_bytes());
}

#[test]
fn range_keeps_positions_in_the_half_open_span() {
    let mut idx = MemoryChunkIndex::memory();
    let mut r = 0;
    for (i, p) in [0u64, 10, 20, 30].iter().enumerate() {
        r = idx.insert(r, *p, entry(i as u8, true, 0)).unwrap();
    }
    let got: Vec<u64> = idx.range(r, 10..30).unwrap().into_iter().map(|(p, _)| p).collect();
    assert_eq!(got, vec![10, 20]);
    assert!(idx.range(r, 40..50).unwrap().is_empty());
    assert!(idx.range(r, 20..20).unwrap().is_empty());
}

#[test]
fn nearest_keyframe_is_the_last_seekable_entry_not_after_the_position() {
    let mut idx = MemoryChunkIndex::memory();
    let mut r = 0;
    r = idx.insert(r, 0, entry(1, true, 0)).unwrap();
    r = idx.insert(r, 10, entry(2, false, 4)).unwrap();
    r = idx.insert(r, 20, entry(3, false, 0)).unwrap();
    r = idx.insert(r, 30, entry(4, false, 7)).unwrap();
    assert_eq!(idx.find_nearest_keyframe(r, 15).unwrap(), Some((0, entry(1, true, 0))));
    assert_eq!(idx.find_nearest_keyframe(r, 35).unwrap(), Some((20, entry(3, false, 0))));
    assert_eq!(idx.find_nearest_keyframe(r, 20).unwrap(), Some((20, entry(3, false, 0))));
    assert_eq!(idx.find_nearest_keyframe(0, 100).unwrap(), None);
}

#[test]
fn adapter_can_be_used_directly() {
    let mut m = MemoryTreeAdapter::new();
    assert_eq!(m.current_root(), 0);
    let r = m.insert_entry(0, 3, entry(1, true, 0)).unwrap();
    assert_eq!(m.get_entry(r, 3).unwrap(), entry(1, true, 0));
    assert_eq!(m.root_snapshot_id(r), Some(0));
    let idx = GenericChunkIndex::new(m);
    assert_eq!(idx.storage().root_snapshot_id(r), Some(0));
}

#[test]
fn duplicate_copies_every_field() {
    let e = entry(9, false, 3);
    assert_eq!(e.duplicate(), e);
}

#[test]
fn root_ids_are_handed_out_in_sequence() {
    let mut idx = MemoryChunkIndex::memory();
    assert!(idx.has_room());
    let r1 = idx.insert(0, 5, entry(1, true, 0)).unwrap();
    let r2 = idx.delete(r1, 5).unwrap();
    let b = idx.branch(r2).unwrap();
    assert_eq!((r1, r2, b.root), (1, 2, 3));
    assert_eq!(idx.branched_from(r2), Some(r1));
}

#[test]
fn read_errors_on_a_missing_root_are_passed_on() {
    let idx = MemoryChunkIndex::memory();
    assert_eq!(custom_message(idx.find_nearest_keyframe(9, 5).unwrap_err()), "Invalid root");
    assert_eq!(custom_message(idx.range(9, 0..10).unwrap_err()), "Invalid root");
    assert_eq!(custom_message(idx.get(9, 5).unwrap_err()), "Invalid root");
    assert_eq!(custom_message(idx.get(0, 5).unwrap_err()), "Key not found");
}
