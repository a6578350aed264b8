//! Laws of the edit decision list: what replay guarantees whatever the inputs.
use vstd::prelude::*;
use crate::edl::{
    apply_op, clip_kept, lemma_first_clip_index_found, clip_le, first_clip_index, is_total_preorder, lemma_stable_sort,
    move_clip, op_key_le, op_le, replay_spec, sorted_by, stable_sort, unmerged_ops, Clip,
    EditOp, OpId, Position, ChunkHash,
};

verus! {

/// Two operations share a replay key: same clock and same operation id.
pub open spec fn same_key(a: EditOp, b: EditOp) -> bool {
    a.clock() == b.clock() && a.op_id() == b.op_id()
}

/// No two operations of the log share a replay key.
pub open spec fn keys_distinct(s: Seq<EditOp>) -> bool {
    forall|i: int, j: int| 0 <= i < j < s.len() ==> !same_key(#[trigger] s[i], #[trigger] s[j])
}

pub open spec fn op_key_lt(a: EditOp, b: EditOp) -> bool {
    a.clock() < b.clock() || (a.clock() == b.clock() && a.op_id() < b.op_id())
}

pub open spec fn strictly_sorted(s: Seq<EditOp>) -> bool {
    forall|i: int, j: int| 0 <= i < j < s.len() ==> op_key_lt(#[trigger] s[i], #[trigger] s[j])
}

/// The replay order is a total preorder.
pub proof fn lemma_op_le_total_preorder()
    ensures
        is_total_preorder(op_le()),
{
}

/// The position order of clips is a total preorder.
pub proof fn lemma_clip_le_total_preorder()
    ensures
        is_total_preorder(clip_le()),
{
}

proof fn lemma_sorted_distinct_is_strict(r: Seq<EditOp>, a: Seq<EditOp>)
    requires
        sorted_by(r, op_le()),
        r.to_multiset() =~= a.to_multiset(),
        keys_distinct(a),
    ensures
        strictly_sorted(r),
{
    broadcast use vstd::seq_lib::group_to_multiset_ensures;
    assert(a.no_duplicates()) by {
        assert forall|i: int, j: int| 0 <= i < a.len() && 0 <= j < a.len() && i != j implies a[i]
            != a[j] by {
            if i < j {
                assert(!same_key(a[i], a[j]));
            } else {
                assert(!same_key(a[j], a[i]));
            }
        }
    }
    a.lemma_multiset_has_no_duplicates();
    r.lemma_multiset_has_no_duplicates_conv();
    assert forall|i: int, j: int| 0 <= i < j < r.len() implies op_key_lt(
        #[trigger] r[i],
        #[trigger] r[j],
    ) by {
        assert(op_le()(r[i], r[j]));
        if same_key(r[i], r[j]) {
            assert(r[i] != r[j]);
            assert(r.contains(r[i]));
            assert(r.contains(r[j]));
            assert(a.to_multiset().count(r[i]) > 0);
            assert(a.to_multiset().count(r[j]) > 0);
            assert(a.contains(r[i]));
            assert(a.contains(r[j]));
            let p = choose|p: int| 0 <= p < a.len() && a[p] == r[i];
            let q = choose|q: int| 0 <= q < a.len() && a[q] == r[j];
            if p < q {
                assert(!same_key(a[p], a[q]));
            } else {
                assert(!same_key(a[q], a[p]));
            }
        }
    }
}

proof fn lemma_strictly_sorted_unique(r1: Seq<EditOp>, r2: Seq<EditOp>)
    requires
        strictly_sorted(r1),
        strictly_sorted(r2),
        r1.to_multiset() =~= r2.to_multiset(),
    ensures
        r1 == r2,
    decreases r1.len(),
{
    broadcast use vstd::seq_lib::group_to_multiset_ensures;
    broadcast use vstd::multiset::group_multiset_axioms;
    assert(r1.len() == r1.to_multiset().len());
    assert(r2.len() == r2.to_multiset().len());
    if r1.len() == 0 {
        assert(r1 =~= r2);
    } else {
        let n = r1.len() as int;
        let x1 = r1.last();
        let x2 = r2.last();
        assert(r1.contains(x1)) by {
            assert(r1[n - 1] == x1);
        }
        assert(r2.contains(x2)) by {
            assert(r2[n - 1] == x2);
        }
        assert(r2.to_multiset().count(x1) > 0);
        assert(r2.contains(x1));
        assert(r1.to_multiset().count(x2) > 0);
        assert(r1.contains(x2));
        let q = choose|q: int| 0 <= q < n && r2[q] == x1;
        let p = choose|p: int| 0 <= p < n && r1[p] == x2;
        if q < n - 1 {
            assert(op_key_lt(r2[q], r2[n - 1]));
            if p < n - 1 {
                assert(op_key_lt(r1[p], r1[n - 1]));
            }
        }
        assert(x1 == x2);
        let d1 = r1.drop_last();
        let d2 = r2.drop_last();
        assert(d1.push(x1) =~= r1);
        assert(d2.push(x1) =~= r2);
        assert(d1.to_multiset() =~= d2.to_multiset()) by {
            assert forall|y: EditOp| d1.to_multiset().count(y) == d2.to_multiset().count(y) by {
                assert(r1.to_multiset().count(y) == r2.to_multiset().count(y));
            }
        }
        lemma_strictly_sorted_unique(d1, d2);
        assert(r1 =~= r2);
    }
}

/// Convergence: two peers holding the same operations, in whatever order they
/// arrived, replay them into the same timeline, provided no two operations
/// share a (clock, op id) key.
pub proof fn lemma_replay_converges(a: Seq<EditOp>, b: Seq<EditOp>)
    requires
        a.to_multiset() =~= b.to_multiset(),
        keys_distinct(a),
    ensures
        replay_spec(a) == replay_spec(b),
{
    lemma_op_le_total_preorder();
    lemma_stable_sort(a, op_le());
    lemma_stable_sort(b, op_le());
    let ra = stable_sort(a, op_le());
    let rb = stable_sort(b, op_le());
    lemma_sorted_distinct_is_strict(ra, a);
    lemma_sorted_distinct_is_strict(rb, a);
    lemma_strictly_sorted_unique(ra, rb);
}

/// Replay does not depend on the order of the log: a reordering of the same
/// operations replays the same, when their (clock, op id) keys are distinct.
pub proof fn lemma_replay_order_independent(a: Seq<EditOp>, i: int, j: int)
    requires
        0 <= i < a.len(),
        0 <= j < a.len(),
        keys_distinct(a),
    ensures
        replay_spec(a) == replay_spec(a.update(i, a[j]).update(j, a[i])),
{
    broadcast use vstd::seq_lib::group_to_multiset_ensures;
    broadcast use vstd::multiset::group_multiset_axioms;
    let b = a.update(i, a[j]).update(j, a[i]);
    if i != j {
        assert(a.to_multiset() =~= b.to_multiset()) by {
            let ra = a.remove(i);
            assert(a.to_multiset() =~= ra.to_multiset().insert(a[i]));
            let mid = a.update(i, a[j]);
            assert(mid.remove(i) =~= ra);
            assert(mid.to_multiset() =~= ra.to_multiset().insert(a[j]));
            assert(b.remove(j) =~= mid.remove(j));
            assert(b.to_multiset() =~= b.remove(j).to_multiset().insert(a[i]));
            assert(mid.to_multiset() =~= mid.remove(j).to_multiset().insert(a[j]));
        }
    } else {
        assert(b =~= a);
    }
    lemma_replay_converges(a, b);
}

/// A delete leaves no clip of its target on the timeline.
pub proof fn lemma_delete_removes_target(clips: Seq<Clip>, op_id: OpId, target: OpId, clock: u64)
    ensures
        forall|k: int|
            0 <= k < apply_op(clips, EditOp::Delete { op_id, target, clock }).len() ==> (
            #[trigger] apply_op(clips, EditOp::Delete { op_id, target, clock })[k]).op_id
                != target,
        forall|k: int|
            0 <= k < clips.len() && clips[k].op_id != target ==> apply_op(
                clips,
                EditOp::Delete { op_id, target, clock },
            ).contains(#[trigger] clips[k]),
{
    let kept = clip_kept(target);
    assert forall|k: int| 0 <= k < clips.filter(kept).len() implies (#[trigger] clips.filter(kept)[k]).op_id != target by {
        clips.lemma_filter_pred(kept, k);
    }
    assert forall|k: int| 0 <= k < clips.len() && clips[k].op_id != target implies clips.filter(kept).contains(
        #[trigger] clips[k],
    ) by {
        clips.lemma_filter_contains(kept, k);
    }
}

/// An insert appends its clip at the end of the timeline.
pub proof fn lemma_insert_appends(
    clips: Seq<Clip>,
    op_id: OpId,
    chunk_hash: ChunkHash,
    position: Position,
    clock: u64,
)
    ensures
        apply_op(clips, EditOp::Insert { op_id, chunk_hash, position, clock }) == clips.push(
            Clip { op_id, chunk_hash, position },
        ),
{
}

/// Moving a clip changes the position of the first clip of the target only.
pub proof fn lemma_move_clip(clips: Seq<Clip>, target: OpId, position: Position)
    ensures
        move_clip(clips, target, position).len() == clips.len(),
        forall|k: int|
            0 <= k < clips.len() && k != first_clip_index(clips, target) ==> #[trigger] move_clip(
                clips,
                target,
                position,
            )[k] == clips[k],
        first_clip_index(clips, target) >= 0 ==> ({
            let i = first_clip_index(clips, target);
            let c = move_clip(clips, target, position)[i];
            &&& c.op_id == target
            &&& c.chunk_hash == clips[i].chunk_hash
            &&& c.position == position
        }),
        first_clip_index(clips, target) < 0 ==> forall|k: int|
            0 <= k < clips.len() ==> clips[k].op_id != target,
{
    if exists|k: int| 0 <= k < clips.len() && clips[k].op_id == target {
        let k = choose|k: int| 0 <= k < clips.len() && clips[k].op_id == target;
        lemma_first_clip_index_found(clips, target, k);
    }
}

/// A peer with nothing left to merge sees exactly the replay of the merged log.
pub proof fn lemma_local_tree_when_all_merged(merged: Seq<EditOp>, entries: Seq<(EditOp, bool)>)
    requires
        forall|k: int| 0 <= k < entries.len() ==> (#[trigger] entries[k]).1,
    ensures
        replay_spec(merged + unmerged_ops(entries)) == replay_spec(merged),
    decreases entries.len(),
{
    if entries.len() > 0 {
        lemma_local_tree_when_all_merged(merged, entries.drop_last());
        assert(entries[entries.len() - 1].1);
    }
    assert(unmerged_ops(entries) =~= Seq::<EditOp>::empty()) by {
        if entries.len() > 0 {
            lemma_unmerged_empty(entries);
        }
    }
    assert(merged + unmerged_ops(entries) =~= merged);
}

proof fn lemma_unmerged_empty(entries: Seq<(EditOp, bool)>)
    requires
        forall|k: int| 0 <= k < entries.len() ==> (#[trigger] entries[k]).1,
    ensures
        unmerged_ops(entries) =~= Seq::<EditOp>::empty(),
    decreases entries.len(),
{
    if entries.len() > 0 {
        assert(entries[entries.len() - 1].1);
        lemma_unmerged_empty(entries.drop_last());
    }
}

/// Recording an operation adds it at the end of the unmerged ones.
pub proof fn lemma_record_unmerged(entries: Seq<(EditOp, bool)>, op: EditOp)
    ensures
        unmerged_ops(entries.push((op, false))) == unmerged_ops(entries).push(op),
{
    assert(entries.push((op, false)).drop_last() =~= entries);
}

} // verus!
