use skein::diff::{delta_transfer_bytes, delta_transfer_fits, diff_entries, hash_value, subtree_step, DiffEntry, SubtreeStep, Value};

fn b3(data: &[u8]) -> [u8; 32] {
    *blake3::hash(data).as_bytes()
}

#[test]
fn hash_value_is_the_blake3_digest_of_the_bytes() {
    let v = Value::Bytes(vec![1, 2, 3]);
    assert_eq!(hash_value(&v), b3(&[1, 2, 3]));
    assert_ne!(hash_value(&v), [0u8; 32]);
    let e = Value::Encoded(vec![9, 9]);
    assert_eq!(hash_value(&e), b3(&[9, 9]));
}

#[test]
fn diff_of_equal_listings_is_empty() {
    let a = vec![(0u64, Value::Bytes(vec![1])), (10, Value::Bytes(vec![2]))];
    let mut out = Vec::new();
    diff_entries(&a, &a, &mut out);
    assert!(out.is_empty());
}

#[test]
fn diff_reports_inserts_deletes_and_modifications() {
    let a = vec![(0u64, Value::Bytes(vec![1])), (10, Value::Bytes(vec![2])), (20, Value::Bytes(vec![3]))];
    let b = vec![(0u64, Value::Bytes(vec![1])), (15, Value::Bytes(vec![4])), (20, Value::Bytes(vec![5]))];
    let mut out = Vec::new();
    diff_entries(&a, &b, &mut out);
    assert_eq!(
        out,
        vec![
            DiffEntry { position: 10, old_hash: Some(b3(&[2])), new_hash: None },
            DiffEntry { position: 15, old_hash: None, new_hash: Some(b3(&[4])) },
            DiffEntry { position: 20, old_hash: Some(b3(&[3])), new_hash: Some(b3(&[5])) },
        ]
    );
    assert!(out[0].is_delete() && !out[0].is_insert() && !out[0].is_modify());
    assert!(out[1].is_insert() && !out[1].is_delete() && !out[1].is_modify());
    assert!(out[2].is_modify() && !out[2].is_insert() && !out[2].is_delete());
}

#[test]
fn diff_handles_tails_and_appends_to_out() {
    let a = vec![(5u64, Value::Bytes(vec![1]))];
    let b: Vec<(u64, Value)> = vec![];
    let keep = DiffEntry { position: 99, old_hash: None, new_hash: None };
    let mut out = vec![keep];
    diff_entries(&a, &b, &mut out);
    diff_entries(&b, &a, &mut out);
    assert_eq!(
        out,
        vec![
            keep,
            DiffEntry { position: 5, old_hash: Some(b3(&[1])), new_hash: None },
            DiffEntry { position: 5, old_hash: None, new_hash: Some(b3(&[1])) },
        ]
    );
}

#[test]
fn subtree_step_short_circuits_on_equal_hashes() {
    let h = [7u8; 32];
    assert_eq!(subtree_step(&h, &h, &[], &[]), SubtreeStep::Identical);
}

#[test]
fn subtree_step_descends_into_differing_children_with_the_same_keys() {
    let a = vec![(0u64, 1u64, [1u8; 32]), (10, 2, [2u8; 32]), (20, 3, [3u8; 32])];
    let b = vec![(0u64, 11u64, [1u8; 32]), (10, 12, [9u8; 32]), (20, 13, [8u8; 32])];
    assert_eq!(subtree_step(&[0; 32], &[1; 32], &a, &b), SubtreeStep::Descend(vec![(2, 12), (3, 13)]));
}

#[test]
fn subtree_step_compares_entries_when_shapes_differ() {
    let a = vec![(0u64, 1u64, [1u8; 32])];
    let b = vec![(5u64, 11u64, [1u8; 32])];
    assert_eq!(subtree_step(&[0; 32], &[1; 32], &a, &b), SubtreeStep::CompareEntries);
    assert_eq!(subtree_step(&[0; 32], &[1; 32], &a, &[]), SubtreeStep::CompareEntries);
    let c = vec![(0u64, 1u64, [1u8; 32]), (9, 2, [1u8; 32])];
    assert_eq!(subtree_step(&[0; 32], &[1; 32], &a, &c), SubtreeStep::CompareEntries);
}

#[test]
fn delta_transfer_counts_new_chunks_and_bookkeeping() {
    let ins = DiffEntry { position: 0, old_hash: None, new_hash: Some([1; 32]) };
    let del = DiffEntry { position: 1, old_hash: Some([1; 32]), new_hash: None };
    let modi = DiffEntry { position: 2, old_hash: Some([1; 32]), new_hash: Some([2; 32]) };
    assert_eq!(delta_transfer_bytes(&[ins, del, modi], &[Some(1000), None, None]), 1000 + 64 + 64 + 32 + 64);
    assert_eq!(delta_transfer_bytes(&[], &[]), 0);
    assert_eq!(delta_transfer_bytes(&[del], &[Some(5)]), 64);
}

#[test]
fn delta_transfer_fits_until_the_sum_overflows() {
    let ins = DiffEntry { position: 0, old_hash: None, new_hash: Some([1; 32]) };
    assert!(delta_transfer_fits(&[ins, ins], &[Some(1000), Some(2000)]));
    assert!(delta_transfer_fits(&[], &[]));
    assert!(!delta_transfer_fits(&[ins], &[Some(u64::MAX - 10)]));
    assert!(delta_transfer_fits(&[ins], &[Some(u64::MAX - 64)]));
    assert!(!delta_transfer_fits(&[ins, ins], &[Some(u64::MAX / 2), Some(u64::MAX / 2)]));
}
