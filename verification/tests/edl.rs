use skein::edl::{derive_local_tree, replay, Clip, EditOp, PersonalTree, Timeline};

fn insert(op_id: u128, hash: u8, position: u64, clock: u64) -> EditOp {
    EditOp::Insert { op_id, chunk_hash: [hash; 32], position, clock }
}

fn clip(op_id: u128, hash: u8, position: u64) -> Clip {
    Clip { op_id, chunk_hash: [hash; 32], position }
}

#[test]
fn accessors_report_ids_and_clock() {
    let ins = insert(7, 1, 0, 3);
    let trim = EditOp::Trim { op_id: 8, target: 7, new_in: 5, new_out: 9, clock: 4 };
    let del = EditOp::Delete { op_id: 9, target: 7, clock: 5 };
    let re = EditOp::Reorder { op_id: 10, target: 7, new_position: 1, clock: 6 };
    assert_eq!(ins.op_id(), 7);
    assert_eq!(ins.target_id(), 7);
    assert_eq!(trim.op_id(), 8);
    assert_eq!(trim.target_id(), 7);
    assert_eq!(del.target_id(), 7);
    assert_eq!(re.target_id(), 7);
    assert_eq!(ins.clock(), 3);
    assert_eq!(trim.clock(), 4);
    assert_eq!(del.clock(), 5);
    assert_eq!(re.clock(), 6);
}

#[test]
fn edit_op_equality_compares_every_field() {
    assert_eq!(insert(1, 2, 3, 4), insert(1, 2, 3, 4));
    assert_ne!(insert(1, 2, 3, 4), insert(1, 9, 3, 4));
    let mut h = [2u8; 32];
    h[31] = 3;
    assert_ne!(insert(1, 2, 3, 4), EditOp::Insert { op_id: 1, chunk_hash: h, position: 3, clock: 4 });
    assert_ne!(
        EditOp::Delete { op_id: 1, target: 2, clock: 3 },
        EditOp::Reorder { op_id: 1, target: 2, new_position: 0, clock: 3 }
    );
}

#[test]
fn replay_of_nothing_is_empty() {
    let t = replay(&[]);
    assert!(t.is_empty());
    assert_eq!(t.len(), 0);
}

#[test]
fn replay_applies_ops_in_clock_order() {
    // The trim comes first in the list but has the later clock.
    let ops = vec![
        EditOp::Trim { op_id: 2, target: 1, new_in: 500, new_out: 900, clock: 5 },
        insert(1, 1, 0, 1),
    ];
    let t = replay(&ops);
    assert_eq!(t.clips, vec![clip(1, 1, 500)]);
}

#[test]
fn replay_breaks_clock_ties_by_op_id() {
    // Same clock: op id 3 (the delete) sorts after op id 1 (the insert).
    let ops = vec![EditOp::Delete { op_id: 3, target: 1, clock: 1 }, insert(1, 1, 0, 1)];
    assert!(replay(&ops).is_empty());
    // The delete now carries the smaller op id, so it runs first and finds nothing.
    let ops = vec![EditOp::Delete { op_id: 0, target: 1, clock: 1 }, insert(1, 1, 0, 1)];
    assert_eq!(replay(&ops).clips, vec![clip(1, 1, 0)]);
}

#[test]
fn replay_keeps_input_order_on_full_ties() {
    // Two inserts with the same clock and op id: the stable sort keeps list order.
    let a = insert(5, 1, 10, 1);
    let b = insert(5, 2, 20, 1);
    assert_eq!(replay(&[a, b]).clips, vec![clip(5, 1, 10), clip(5, 2, 20)]);
    assert_eq!(replay(&[b, a]).clips, vec![clip(5, 2, 20), clip(5, 1, 10)]);
}

#[test]
fn trim_and_reorder_move_the_first_matching_clip_only() {
    let ops = vec![
        insert(1, 1, 0, 1),
        insert(1, 2, 100, 2),
        EditOp::Reorder { op_id: 9, target: 1, new_position: 777, clock: 3 },
        EditOp::Trim { op_id: 10, target: 1, new_in: 5, new_out: 6, clock: 4 },
    ];
    assert_eq!(replay(&ops).clips, vec![clip(1, 1, 5), clip(1, 2, 100)]);
}

#[test]
fn delete_removes_every_clip_of_its_target() {
    let ops = vec![
        insert(1, 1, 0, 1),
        insert(2, 2, 50, 2),
        insert(1, 3, 100, 3),
        EditOp::Delete { op_id: 4, target: 1, clock: 4 },
    ];
    assert_eq!(replay(&ops).clips, vec![clip(2, 2, 50)]);
}

#[test]
fn edits_of_missing_clips_change_nothing() {
    let ops = vec![
        insert(1, 1, 0, 1),
        EditOp::Trim { op_id: 2, target: 42, new_in: 5, new_out: 6, clock: 2 },
        EditOp::Reorder { op_id: 3, target: 42, new_position: 5, clock: 3 },
        EditOp::Delete { op_id: 4, target: 42, clock: 4 },
    ];
    assert_eq!(replay(&ops).clips, vec![clip(1, 1, 0)]);
}

#[test]
fn replay_converges_whatever_the_arrival_order() {
    let ops = vec![
        insert(1, 1, 0, 1),
        insert(2, 2, 1000, 2),
        EditOp::Trim { op_id: 3, target: 1, new_in: 200, new_out: 800, clock: 3 },
        EditOp::Reorder { op_id: 4, target: 2, new_position: 50, clock: 4 },
        EditOp::Delete { op_id: 5, target: 1, clock: 6 },
        insert(6, 3, 10, 5),
    ];
    let expected = replay(&ops);
    let mut perm = ops.clone();
    perm.reverse();
    assert_eq!(replay(&perm), expected);
    perm.swap(0, 3);
    perm.swap(1, 5);
    assert_eq!(replay(&perm), expected);
    assert_eq!(expected.clips, vec![clip(2, 2, 50), clip(6, 3, 10)]);
}

#[test]
fn timeline_find_gives_the_first_clip() {
    let t = Timeline { clips: vec![clip(1, 1, 0), clip(2, 2, 5), clip(2, 3, 9)] };
    assert_eq!(t.find(2), Some(&clip(2, 2, 5)));
    assert_eq!(t.find(3), None);
    assert_eq!(t.len(), 3);
    assert!(!t.is_empty());
}

#[test]
fn sorted_by_position_orders_by_position_then_id() {
    let t = Timeline { clips: vec![clip(3, 1, 10), clip(1, 2, 10), clip(2, 3, 0), clip(1, 4, 10)] };
    assert_eq!(
        t.sorted_by_position(),
        vec![clip(2, 3, 0), clip(1, 2, 10), clip(1, 4, 10), clip(3, 1, 10)]
    );
}

#[test]
fn personal_tree_tracks_merged_flags() {
    let mut pt = PersonalTree::new();
    assert!(pt.is_empty());
    let a = insert(1, 1, 0, 1);
    let b = EditOp::Trim { op_id: 2, target: 1, new_in: 3, new_out: 4, clock: 2 };
    let c = EditOp::Delete { op_id: 3, target: 1, clock: 3 };
    pt.record(a);
    pt.record(b);
    pt.record(c);
    assert_eq!(pt.len(), 3);
    assert_eq!(pt.unmerged(), vec![a, b, c]);
    assert!(pt.merged().is_empty());
    pt.mark_merged(2);
    assert_eq!(pt.unmerged(), vec![a, c]);
    assert_eq!(pt.merged(), vec![b]);
    pt.mark_merged(99);
    assert_eq!(pt.all(), &[(a, false), (b, true), (c, false)][..]);
}

#[test]
fn mark_merged_marks_only_the_first_entry_with_the_id() {
    let mut pt = PersonalTree::new();
    let a = insert(1, 1, 0, 1);
    let a2 = insert(1, 2, 5, 2);
    pt.record(a);
    pt.record(a2);
    pt.mark_merged(1);
    assert_eq!(pt.unmerged(), vec![a2]);
}

#[test]
fn local_tree_adds_unmerged_ops_to_the_merged_log() {
    let merged = vec![insert(1, 1, 0, 1), insert(2, 2, 100, 2)];
    let mut pt = PersonalTree::new();
    pt.record(EditOp::Trim { op_id: 3, target: 2, new_in: 40, new_out: 60, clock: 3 });
    pt.record(EditOp::Delete { op_id: 4, target: 1, clock: 4 });
    pt.mark_merged(4);
    let t = derive_local_tree(&merged, &pt);
    assert_eq!(t.clips, vec![clip(1, 1, 0), clip(2, 2, 40)]);
    // With everything merged, the local view is the merged log's replay.
    pt.mark_merged(3);
    assert_eq!(derive_local_tree(&merged, &pt), replay(&merged));
}
