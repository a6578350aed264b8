//! Decisions of the editing session: the seeded log, recording trims,
//! merging branches and peers, and the chunk listing behind a root hash.
use vstd::prelude::*;
use crate::edl::{
    clip_le, replay, replay_spec, stable_sort, ChunkHash, Clip, EditOp, OpId, Position,
};
use crate::merge::{
    apply_merge_resolution, lww, resolve_lww, three_way_merge, three_way_merge_spec, MergeOutcome,
};
use crate::store::ChunkEntry;

verus! {

/// Id of the first clip of a new session.
pub const FIRST_CLIP_ID: OpId = 0x11111111_1111_1111_1111_111111111111;

/// Id of the second clip of a new session.
pub const SECOND_CLIP_ID: OpId = 0x22222222_2222_2222_2222_222222222222;

/// Clock of a new session.
pub const INITIAL_CLOCK: u64 = 3;

/// The chunk hash with every byte equal to `b`.
pub open spec fn filled_hash(h: ChunkHash, b: u8) -> bool {
    h@ =~= Seq::new(32, |i: int| b)
}

/// One of the two clips a new session starts with.
pub open spec fn is_seed_insert(op: EditOp, id: OpId, fill: u8, position: Position, clock: u64) -> bool {
    op matches EditOp::Insert { op_id, chunk_hash, position: p, clock: c } && op_id == id && filled_hash(
        chunk_hash,
        fill,
    ) && p == position && c == clock
}

/// The two clips a new session starts with.
pub fn default_base_ops() -> (r: Vec<EditOp>)
    ensures
        r@.len() == 2,
        is_seed_insert(r@[0], FIRST_CLIP_ID, 10, 0, 1),
        is_seed_insert(r@[1], SECOND_CLIP_ID, 20, 1000, 2),
{
    let h1: ChunkHash = [10u8; 32];
    let h2: ChunkHash = [20u8; 32];
    let mut r: Vec<EditOp> = Vec::new();
    r.push(EditOp::Insert { op_id: FIRST_CLIP_ID, chunk_hash: h1, position: 0, clock: 1 });
    r.push(EditOp::Insert { op_id: SECOND_CLIP_ID, chunk_hash: h2, position: 1000, clock: 2 });
    r
}

/// Records a trim on a branch: the clock advances and the trim carries the new clock.
pub fn record_trim(
    branch_ops: &mut Vec<EditOp>,
    clock: u64,
    op_id: OpId,
    target: OpId,
    new_in: Position,
    new_out: Position,
) -> (new_clock: u64)
    requires
        clock < u64::MAX,
    ensures
        new_clock == clock + 1,
        final(branch_ops)@ == old(branch_ops)@.push(
            EditOp::Trim { op_id, target, new_in, new_out, clock: new_clock },
        ),
{
    let new_clock = clock + 1;
    branch_ops.push(EditOp::Trim { op_id, target, new_in, new_out, clock: new_clock });
    new_clock
}

/// Appends each operation of `ops`, in order, unless an equal one is already in the log.
pub open spec fn append_new(base: Seq<EditOp>, ops: Seq<EditOp>) -> Seq<EditOp>
    decreases ops.len(),
{
    if ops.len() == 0 {
        base
    } else {
        let b = append_new(base, ops.drop_last());
        if b.contains(ops.last()) {
            b
        } else {
            b.push(ops.last())
        }
    }
}

fn log_contains(log: &Vec<EditOp>, op: &EditOp) -> (r: bool)
    ensures
        r == log@.contains(*op),
{
    let mut k: usize = 0;
    while k < log.len()
        invariant
            k <= log.len(),
            forall|m: int| 0 <= m < k ==> log@[m] != *op,
        decreases log.len() - k,
    {
        if log[k] == *op {
            return true;
        }
        k = k + 1;
    }
    false
}

/// Appends the operations not yet in the log.
pub fn append_new_ops(base: &mut Vec<EditOp>, ops: &[EditOp])
    ensures
        final(base)@ == append_new(old(base)@, ops@),
{
    let mut i: usize = 0;
    while i < ops.len()
        invariant
            i <= ops.len(),
            base@ == append_new(old(base)@, ops@.take(i as int)),
        decreases ops.len() - i,
    {
        proof {
            assert(ops@.take(i + 1).drop_last() =~= ops@.take(i as int));
        }
        let op = ops[i];
        if !log_contains(base, &op) {
            base.push(op);
        }
        i = i + 1;
    }
    assert(ops@.take(ops.len() as int) =~= ops@);
}

/// The operation an outcome stands for once conflicts are settled by last-writer-wins.
pub open spec fn settle_lww(o: MergeOutcome) -> EditOp {
    match o {
        MergeOutcome::Clean(op) => op,
        MergeOutcome::Conflict { ours, theirs, .. } => lww(ours, theirs),
    }
}

pub open spec fn settled(outcomes: Seq<MergeOutcome>) -> Seq<EditOp> {
    outcomes.map_values(|o: MergeOutcome| settle_lww(o))
}

fn settle_all(outcomes: &[MergeOutcome]) -> (r: Vec<EditOp>)
    ensures
        r@ == settled(outcomes@),
{
    let r = apply_merge_resolution(outcomes, resolve_lww);
    assert forall|k: int| 0 <= k < outcomes.len() implies r@[k] == settled(outcomes@)[k] by {
        match outcomes@[k] {
            MergeOutcome::Clean(_) => {},
            MergeOutcome::Conflict { ours, theirs, .. } => {},
        }
    }
    assert(r@ =~= settled(outcomes@));
    r
}

/// The merges of branch `i` with each later branch, from `j` on.
pub open spec fn row_outcomes(bs: Seq<Seq<EditOp>>, i: int, j: int) -> Seq<MergeOutcome>
    decreases bs.len() - j,
{
    if j >= bs.len() || j < 0 {
        Seq::empty()
    } else {
        three_way_merge_spec(bs[i], bs[j]) + row_outcomes(bs, i, j + 1)
    }
}

/// The merges of every pair of branches `i < j`, `i` from `from` on, in order.
pub open spec fn pairwise_outcomes(bs: Seq<Seq<EditOp>>, from: int) -> Seq<MergeOutcome>
    decreases bs.len() - from,
{
    if from >= bs.len() || from < 0 {
        Seq::empty()
    } else {
        row_outcomes(bs, from, from + 1) + pairwise_outcomes(bs, from + 1)
    }
}

pub open spec fn branch_views(bs: Seq<Vec<EditOp>>) -> Seq<Seq<EditOp>> {
    bs.map_values(|v: Vec<EditOp>| v@)
}

/// Merges every pair of branches, settles conflicts by last-writer-wins and appends
/// what is new to the base log. The branches come in the order the caller lists them.
pub fn sync_branches(base_ops: &mut Vec<EditOp>, branch_ops: &Vec<Vec<EditOp>>)
    ensures
        final(base_ops)@ == append_new(
            old(base_ops)@,
            settled(pairwise_outcomes(branch_views(branch_ops@), 0)),
        ),
{
    let ghost bs = branch_views(branch_ops@);
    let n = branch_ops.len();
    let mut all: Vec<MergeOutcome> = Vec::new();
    let mut i: usize = 0;
    while i < n
        invariant
            n == branch_ops.len(),
            bs == branch_views(branch_ops@),
            i <= n,
            all@ + pairwise_outcomes(bs, i as int) == pairwise_outcomes(bs, 0),
        decreases n - i,
    {
        let mut j: usize = i + 1;
        while j < n
            invariant
                n == branch_ops.len(),
                bs == branch_views(branch_ops@),
                i < n,
                i + 1 <= j <= n,
                all@ + row_outcomes(bs, i as int, j as int) + pairwise_outcomes(bs, i + 1)
                    == pairwise_outcomes(bs, 0),
            decreases n - j,
        {
            let mut outcomes = three_way_merge(0, branch_ops[i].as_slice(), branch_ops[j].as_slice());
            proof {
                assert(bs[i as int] == branch_ops@[i as int]@);
                assert(bs[j as int] == branch_ops@[j as int]@);
                assert(all@ + row_outcomes(bs, i as int, j as int) =~= all@ + outcomes@ + row_outcomes(
                    bs,
                    i as int,
                    j + 1,
                ));
            }
            all.append(&mut outcomes);
            j = j + 1;
        }
        proof {
            assert(row_outcomes(bs, i as int, j as int) =~= Seq::<MergeOutcome>::empty());
            assert(all@ + Seq::<MergeOutcome>::empty() =~= all@);
            assert(all@ + pairwise_outcomes(bs, i as int) =~= all@ + row_outcomes(bs, i as int, i + 1)
                + pairwise_outcomes(bs, i + 1));
        }
        i = i + 1;
    }
    assert(all@ + Seq::<MergeOutcome>::empty() =~= all@);
    let resolved = settle_all(all.as_slice());
    append_new_ops(base_ops, resolved.as_slice());
}

/// Merges the local branch operations with a peer's, settles conflicts by
/// last-writer-wins and appends what is new to the base log.
pub fn merge_remote_ops(base_ops: &mut Vec<EditOp>, local_ops: &[EditOp], remote_ops: &[EditOp])
    ensures
        final(base_ops)@ == append_new(old(base_ops)@, settled(three_way_merge_spec(local_ops@, remote_ops@))),
{
    let outcomes = three_way_merge(0, local_ops, remote_ops);
    let resolved = settle_all(outcomes.as_slice());
    append_new_ops(base_ops, resolved.as_slice());
}

/// `e` is the index entry standing for clip `c` when a root hash is computed.
pub open spec fn is_clip_entry(c: Clip, e: ChunkEntry) -> bool {
    &&& e.hash == c.chunk_hash
    &&& e.duration_ms == 1000
    &&& e.codec@ == "h264"@
    &&& e.source_offset == c.position
    &&& e.is_keyframe
    &&& e.keyframe_offset_ms == 0
    &&& e.byte_size == 65536
}

/// The entries, by clip position, that stand for the timeline of the base log
/// followed by a branch's operations.
pub fn branch_entries(base_ops: &[EditOp], branch_ops: &[EditOp]) -> (r: Vec<(Position, ChunkEntry)>)
    ensures
        ({
            let clips = stable_sort(replay_spec(base_ops@ + branch_ops@), clip_le());
            &&& r@.len() == clips.len()
            &&& forall|k: int| 0 <= k < r@.len() ==> (#[trigger] r@[k]).0 == clips[k].position
                && is_clip_entry(clips[k], r@[k].1)
        }),
{
    let mut ops: Vec<EditOp> = Vec::new();
    let mut k: usize = 0;
    while k < base_ops.len()
        invariant
            k <= base_ops.len(),
            ops@ == base_ops@.take(k as int),
        decreases base_ops.len() - k,
    {
        ops.push(base_ops[k]);
        k = k + 1;
        assert(ops@ =~= base_ops@.take(k as int));
    }
    let mut m: usize = 0;
    while m < branch_ops.len()
        invariant
            m <= branch_ops.len(),
            ops@ == base_ops@ + branch_ops@.take(m as int),
        decreases branch_ops.len() - m,
    {
        ops.push(branch_ops[m]);
        m = m + 1;
        assert(ops@ =~= base_ops@ + branch_ops@.take(m as int));
    }
    assert(base_ops@.take(base_ops.len() as int) =~= base_ops@);
    assert(branch_ops@.take(branch_ops.len() as int) =~= branch_ops@);
    let timeline = replay(ops.as_slice());
    let clips = timeline.sorted_by_position();
    let mut r: Vec<(Position, ChunkEntry)> = Vec::new();
    let mut i: usize = 0;
    while i < clips.len()
        invariant
            i <= clips.len(),
            r@.len() == i,
            forall|k: int| 0 <= k < i ==> (#[trigger] r@[k]).0 == clips@[k].position
                && is_clip_entry(clips@[k], r@[k].1),
        decreases clips.len() - i,
    {
        let c = clips[i];
        let e = ChunkEntry::new(c.chunk_hash, 1000, "h264".to_string(), c.position, true, 0, 65536);
        r.push((c.position, e));
        i = i + 1;
    }
    r
}

} // verus!
