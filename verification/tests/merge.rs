use skein::edl::EditOp;
use skein::merge::{apply_merge_resolution, find_conflicting, resolve_lww, three_way_merge, MergeOutcome};

fn trim(op_id: u128, target: u128, new_in: u64, clock: u64) -> EditOp {
    EditOp::Trim { op_id, target, new_in, new_out: new_in + 100, clock }
}

#[test]
fn disjoint_edits_merge_cleanly_in_order() {
    let ours = vec![trim(10, 1, 5, 3)];
    let theirs = vec![trim(20, 2, 7, 4)];
    let out = three_way_merge(0, &ours, &theirs);
    assert_eq!(out, vec![MergeOutcome::Clean(ours[0]), MergeOutcome::Clean(theirs[0])]);
    assert!(out.iter().all(|o| o.is_clean()));
}

#[test]
fn edits_of_the_same_clip_conflict() {
    let ours = vec![trim(10, 1, 5, 3)];
    let theirs = vec![trim(20, 1, 9, 4)];
    let out = three_way_merge(0, &ours, &theirs);
    assert_eq!(out, vec![MergeOutcome::Conflict { op_id: 1, ours: ours[0], theirs: theirs[0] }]);
    assert!(out[0].is_conflict());
    assert!(!out[0].is_clean());
}

#[test]
fn identical_edits_are_clean_and_counted_once() {
    let op = trim(10, 1, 5, 3);
    let out = three_way_merge(0, &[op], &[op]);
    assert_eq!(out, vec![MergeOutcome::Clean(op)]);
}

#[test]
fn merge_with_an_empty_side_passes_everything_through() {
    let ops = vec![trim(10, 1, 5, 3), trim(11, 2, 6, 4)];
    let clean: Vec<MergeOutcome> = ops.iter().map(|o| MergeOutcome::Clean(*o)).collect();
    assert_eq!(three_way_merge(0, &ops, &[]), clean);
    assert_eq!(three_way_merge(0, &[], &ops), clean);
}

#[test]
fn their_edits_on_clips_we_touched_are_not_repeated() {
    // Their second edit of clip 1 is dropped: our edit of clip 1 already met their first one.
    let ours = vec![trim(10, 1, 5, 3)];
    let theirs = vec![trim(20, 1, 9, 4), trim(21, 1, 11, 5), trim(22, 3, 0, 6)];
    let out = three_way_merge(0, &ours, &theirs);
    assert_eq!(
        out,
        vec![
            MergeOutcome::Conflict { op_id: 1, ours: ours[0], theirs: theirs[0] },
            MergeOutcome::Clean(theirs[2]),
        ]
    );
}

#[test]
fn find_conflicting_returns_the_first_edit_of_the_same_clip() {
    let op = trim(10, 1, 5, 3);
    let others = vec![trim(20, 2, 0, 1), trim(21, 1, 0, 2), trim(22, 1, 0, 3)];
    assert_eq!(find_conflicting(&op, &others), Some(&others[1]));
    assert_eq!(find_conflicting(&trim(1, 9, 0, 0), &others), None);
    // An insert targets itself.
    let ins = EditOp::Insert { op_id: 2, chunk_hash: [0; 32], position: 0, clock: 1 };
    assert_eq!(find_conflicting(&ins, &others), Some(&others[0]));
}

#[test]
fn last_writer_wins_by_clock_then_op_id() {
    let early = trim(50, 1, 5, 3);
    let late = trim(10, 1, 9, 4);
    assert_eq!(resolve_lww(early, late), late);
    assert_eq!(resolve_lww(late, early), late);
    let small = trim(10, 1, 5, 3);
    let big = trim(11, 1, 9, 3);
    assert_eq!(resolve_lww(small, big), big);
    assert_eq!(resolve_lww(big, small), big);
    // Full tie on clock and op id: ours wins.
    let a = trim(10, 1, 5, 3);
    let b = trim(10, 1, 6, 3);
    assert_eq!(resolve_lww(a, b), a);
    assert_eq!(resolve_lww(b, a), b);
}

#[test]
fn last_writer_wins_is_associative() {
    let a = trim(1, 1, 0, 5);
    let b = trim(2, 1, 0, 7);
    let c = trim(3, 1, 0, 7);
    assert_eq!(resolve_lww(resolve_lww(a, b), c), resolve_lww(a, resolve_lww(b, c)));
    assert_eq!(resolve_lww(resolve_lww(a, b), c), c);
}

#[test]
fn resolution_keeps_clean_ops_and_resolves_conflicts() {
    let clean = trim(5, 2, 0, 1);
    let ours = trim(10, 1, 5, 3);
    let theirs = trim(20, 1, 9, 4);
    let outcomes = vec![MergeOutcome::Clean(clean), MergeOutcome::Conflict { op_id: 1, ours, theirs }];
    assert_eq!(apply_merge_resolution(&outcomes, resolve_lww), vec![clean, theirs]);
    assert_eq!(apply_merge_resolution(&outcomes, |o, _t| o), vec![clean, ours]);
    assert!(apply_merge_resolution(&[], resolve_lww).is_empty());
}
