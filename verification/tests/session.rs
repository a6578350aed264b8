use skein::edl::{EditOp, PersonalTree};
use skein::merge::{resolve_lww, three_way_merge, apply_merge_resolution};
use skein::session::{
    append_new_ops, branch_entries, default_base_ops, merge_remote_ops, record_trim, sync_branches,
    FIRST_CLIP_ID, INITIAL_CLOCK, SECOND_CLIP_ID,
};
use skein::sync::{add_if_new, record_pushed};

fn trim(op_id: u128, target: u128, new_in: u64, clock: u64) -> EditOp {
    EditOp::Trim { op_id, target, new_in, new_out: new_in + 1000, clock }
}

#[test]
fn a_new_session_starts_with_two_clips() {
    let ops = default_base_ops();
    assert_eq!(
        ops,
        vec![
            EditOp::Insert { op_id: 0x11111111_1111_1111_1111_111111111111, chunk_hash: [10; 32], position: 0, clock: 1 },
            EditOp::Insert { op_id: 0x22222222_2222_2222_2222_222222222222, chunk_hash: [20; 32], position: 1000, clock: 2 },
        ]
    );
    assert_eq!(FIRST_CLIP_ID, uuid::Uuid::parse_str("11111111-1111-1111-1111-111111111111").unwrap().as_u128());
    assert_eq!(SECOND_CLIP_ID, uuid::Uuid::parse_str("22222222-2222-2222-2222-222222222222").unwrap().as_u128());
    assert_eq!(INITIAL_CLOCK, 3);
}

#[test]
fn recording_a_trim_advances_the_clock() {
    let mut ops = Vec::new();
    let c = record_trim(&mut ops, 3, 77, FIRST_CLIP_ID, 10, 20);
    assert_eq!(c, 4);
    assert_eq!(ops, vec![EditOp::Trim { op_id: 77, target: FIRST_CLIP_ID, new_in: 10, new_out: 20, clock: 4 }]);
}

#[test]
fn appending_skips_operations_already_logged() {
    let a = trim(1, 1, 0, 1);
    let b = trim(2, 1, 5, 2);
    let mut base = vec![a];
    append_new_ops(&mut base, &[a, b, b]);
    assert_eq!(base, vec![a, b]);
}

#[test]
fn syncing_branches_merges_every_pair_and_settles_by_lww() {
    let mut base = default_base_ops();
    let b1 = vec![trim(100, FIRST_CLIP_ID, 10, 4)];
    let b2 = vec![trim(200, FIRST_CLIP_ID, 20, 5)];
    let b3 = vec![trim(300, SECOND_CLIP_ID, 30, 6)];
    sync_branches(&mut base, &vec![b1.clone(), b2.clone(), b3.clone()]);
    // Pairs (1,2): conflict, later clock wins; (1,3): both clean; (2,3): both clean.
    let mut expected = default_base_ops();
    expected.push(b2[0]);
    expected.push(b1[0]);
    expected.push(b3[0]);
    assert_eq!(base, expected);
}

#[test]
fn syncing_a_single_branch_merges_nothing() {
    let mut base = default_base_ops();
    sync_branches(&mut base, &vec![vec![trim(1, 1, 0, 9)]]);
    assert_eq!(base, default_base_ops());
}

#[test]
fn remote_merge_appends_the_settled_ops() {
    let mut base = default_base_ops();
    let local = vec![trim(100, FIRST_CLIP_ID, 10, 7)];
    let remote = vec![trim(200, FIRST_CLIP_ID, 20, 5), trim(201, SECOND_CLIP_ID, 1, 6)];
    merge_remote_ops(&mut base, &local, &remote);
    let outcomes = three_way_merge(0, &local, &remote);
    let mut expected = default_base_ops();
    expected.extend(apply_merge_resolution(&outcomes, resolve_lww));
    assert_eq!(base, expected);
    assert_eq!(base[2], local[0]);
    assert_eq!(base[3], remote[1]);
}

#[test]
fn branch_entries_follow_the_replayed_timeline_by_position() {
    let base = default_base_ops();
    let branch = vec![EditOp::Reorder { op_id: 9, target: FIRST_CLIP_ID, new_position: 5000, clock: 4 }];
    let entries = branch_entries(&base, &branch);
    assert_eq!(entries.len(), 2);
    assert_eq!(entries[0].0, 1000);
    assert_eq!(entries[0].1.hash, [20; 32]);
    assert_eq!(entries[1].0, 5000);
    assert_eq!(entries[1].1.hash, [10; 32]);
    assert_eq!(entries[1].1.source_offset, 5000);
    assert_eq!(entries[1].1.codec, "h264");
    assert_eq!((entries[1].1.duration_ms, entries[1].1.byte_size), (1000, 65536));
    assert!(entries[1].1.is_keyframe);
}

#[test]
fn shared_log_keeps_one_op_per_id() {
    let mut shared = Vec::new();
    let a = trim(1, 1, 0, 1);
    assert!(add_if_new(&mut shared, a));
    assert!(!add_if_new(&mut shared, trim(1, 2, 9, 9)));
    assert_eq!(shared, vec![a]);
}

#[test]
fn pushing_marks_merged_and_shares() {
    let mut pt = PersonalTree::new();
    let a = trim(1, 1, 0, 1);
    pt.record(a);
    let mut shared = Vec::new();
    record_pushed(&mut pt, &mut shared, a);
    assert!(pt.unmerged().is_empty());
    assert_eq!(shared, vec![a]);
    record_pushed(&mut pt, &mut shared, a);
    assert_eq!(shared, vec![a]);
}
