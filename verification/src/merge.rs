//! Three-way merge of concurrent edit logs and last-writer-wins resolution.
use vstd::prelude::*;
use std::collections::HashSet;
use crate::edl::{EditOp, OpId};

verus! {

broadcast use vstd::std_specs::hash::group_hash_axioms;

/// What the merge decided for one operation.
#[derive(Clone, Copy, Debug, PartialEq, Eq)]
pub enum MergeOutcome {
    /// The operation goes through as it is.
    Clean(EditOp),
    /// Both sides edited the same clip differently.
    Conflict { op_id: OpId, ours: EditOp, theirs: EditOp },
}

impl MergeOutcome {
    pub fn is_clean(&self) -> (r: bool)
        ensures
            r == (*self is Clean),
    {
        match self {
            MergeOutcome::Clean(_) => true,
            _ => false,
        }
    }

    pub fn is_conflict(&self) -> (r: bool)
        ensures
            r == (*self is Conflict),
    {
        match self {
            MergeOutcome::Conflict { .. } => true,
            _ => false,
        }
    }
}

/// Index of the first operation of `others` that targets the same clip as `op`, or -1.
pub open spec fn first_conflict_index(op: EditOp, others: Seq<EditOp>) -> int {
    if exists|j: int| 0 <= j < others.len() && others[j].target_id() == op.target_id() {
        choose|j: int|
            0 <= j < others.len() && others[j].target_id() == op.target_id() && forall|k: int|
                0 <= k < j ==> others[k].target_id() != op.target_id()
    } else {
        -1
    }
}

/// Some operation of `ops` targets `id`.
pub open spec fn targets(ops: Seq<EditOp>, id: OpId) -> bool {
    exists|k: int| 0 <= k < ops.len() && ops[k].target_id() == id
}

/// The outcome for one of our operations against their log.
pub open spec fn merge_one(op: EditOp, theirs: Seq<EditOp>) -> MergeOutcome {
    let j = first_conflict_index(op, theirs);
    if j >= 0 {
        if op == theirs[j] {
            MergeOutcome::Clean(op)
        } else {
            MergeOutcome::Conflict { op_id: op.target_id(), ours: op, theirs: theirs[j] }
        }
    } else {
        MergeOutcome::Clean(op)
    }
}

pub open spec fn merge_against(theirs: Seq<EditOp>) -> spec_fn(EditOp) -> MergeOutcome {
    |op: EditOp| merge_one(op, theirs)
}

/// Their operation targets a clip that none of ours touches.
pub open spec fn untouched_by(ours: Seq<EditOp>) -> spec_fn(EditOp) -> bool {
    |t: EditOp| !targets(ours, t.target_id())
}

pub open spec fn clean() -> spec_fn(EditOp) -> MergeOutcome {
    |op: EditOp| MergeOutcome::Clean(op)
}

/// The three-way merge: one outcome for each of our operations, in order, then
/// their operations on clips we did not touch, each clean.
pub open spec fn three_way_merge_spec(ours: Seq<EditOp>, theirs: Seq<EditOp>) -> Seq<MergeOutcome> {
    ours.map_values(merge_against(theirs)) + theirs.filter(untouched_by(ours)).map_values(clean())
}

proof fn lemma_first_conflict_found(op: EditOp, others: Seq<EditOp>, j: int)
    requires
        0 <= j < others.len(),
        others[j].target_id() == op.target_id(),
        forall|k: int| 0 <= k < j ==> others[k].target_id() != op.target_id(),
    ensures
        first_conflict_index(op, others) == j,
{
    let w = first_conflict_index(op, others);
    assert(0 <= w < others.len() && others[w].target_id() == op.target_id() && forall|k: int|
        0 <= k < w ==> others[k].target_id() != op.target_id());
    if w < j {
        assert(others[w].target_id() != op.target_id());
    }
    if j < w {
        assert(others[j].target_id() != op.target_id());
    }
}

/// The first operation of `others` that targets the same clip as `op`.
pub fn find_conflicting<'a>(op: &EditOp, others: &'a [EditOp]) -> (r: Option<&'a EditOp>)
    ensures
        match r {
            Some(t) => first_conflict_index(*op, others@) >= 0 && *t == others@[first_conflict_index(
                *op,
                others@,
            )] && t.target_id() == op.target_id(),
            None => first_conflict_index(*op, others@) == -1,
        },
{
    let target = op.target_id();
    let mut j: usize = 0;
    while j < others.len()
        invariant
            j <= others.len(),
            target == op.target_id(),
            forall|k: int| 0 <= k < j ==> others@[k].target_id() != target,
        decreases others.len() - j,
    {
        if others[j].target_id() == target {
            proof {
                lemma_first_conflict_found(*op, others@, j as int);
            }
            return Some(&others[j]);
        }
        j = j + 1;
    }
    None
}

fn any_targets(ops: &[EditOp], id: OpId) -> (r: bool)
    ensures
        r == targets(ops@, id),
{
    let mut k: usize = 0;
    while k < ops.len()
        invariant
            k <= ops.len(),
            forall|m: int| 0 <= m < k ==> ops@[m].target_id() != id,
        decreases ops.len() - k,
    {
        if ops[k].target_id() == id {
            return true;
        }
        k = k + 1;
    }
    false
}

/// Merges our log and theirs against a common base.
pub fn three_way_merge(_base: u64, ours: &[EditOp], theirs: &[EditOp]) -> (outcomes: Vec<MergeOutcome>)
    ensures
        outcomes@ == three_way_merge_spec(ours@, theirs@),
{
    let mut outcomes: Vec<MergeOutcome> = Vec::new();
    let mut handled_their_targets: HashSet<OpId> = HashSet::new();
    let mut i: usize = 0;
    while i < ours.len()
        invariant
            i <= ours.len(),
            outcomes@ == ours@.take(i as int).map_values(merge_against(theirs@)),
            forall|x: OpId| #[trigger] handled_their_targets@.contains(x) ==> targets(ours@, x),
        decreases ours.len() - i,
    {
        let our_op = ours[i];
        match find_conflicting(&our_op, theirs) {
            Some(their_op) => {
                let t = their_op.target_id();
                handled_their_targets.insert(t);
                proof {
                    assert(ours@[i as int].target_id() == t);
                }
                if our_op == *their_op {
                    outcomes.push(MergeOutcome::Clean(our_op));
                } else {
                    outcomes.push(
                        MergeOutcome::Conflict {
                            op_id: our_op.target_id(),
                            ours: our_op,
                            theirs: *their_op,
                        },
                    );
                }
            },
            None => {
                outcomes.push(MergeOutcome::Clean(our_op));
            },
        }
        i = i + 1;
        assert(outcomes@ =~= ours@.take(i as int).map_values(merge_against(theirs@)));
    }
    assert(ours@.take(ours.len() as int) =~= ours@);
    let ghost first = outcomes@;
    let mut j: usize = 0;
    while j < theirs.len()
        invariant
            j <= theirs.len(),
            first == ours@.map_values(merge_against(theirs@)),
            outcomes@ == first + theirs@.take(j as int).filter(untouched_by(ours@)).map_values(
                clean(),
            ),
            forall|x: OpId| #[trigger] handled_their_targets@.contains(x) ==> targets(ours@, x),
        decreases theirs.len() - j,
    {
        let their_op = theirs[j];
        let t = their_op.target_id();
        proof {
            reveal(Seq::filter);
            assert(theirs@.take(j + 1).drop_last() =~= theirs@.take(j as int));
            assert(theirs@.take(j + 1).last() == their_op);
        }
        if !handled_their_targets.contains(&t) && !any_targets(ours, t) {
            outcomes.push(MergeOutcome::Clean(their_op));
        }
        j = j + 1;
        assert(outcomes@ =~= first + theirs@.take(j as int).filter(untouched_by(ours@)).map_values(
            clean(),
        ));
    }
    assert(theirs@.take(theirs.len() as int) =~= theirs@);
    outcomes
}

/// Last writer wins: the later clock, and on equal clocks the greater op id; ours on a full tie.
pub open spec fn lww(ours: EditOp, theirs: EditOp) -> EditOp {
    if ours.clock() > theirs.clock() {
        ours
    } else if theirs.clock() > ours.clock() {
        theirs
    } else if ours.op_id() >= theirs.op_id() {
        ours
    } else {
        theirs
    }
}

/// Resolves a conflict by last-writer-wins.
pub fn resolve_lww(ours: EditOp, theirs: EditOp) -> (r: EditOp)
    ensures
        r == lww(ours, theirs),
{
    if ours.clock() > theirs.clock() {
        ours
    } else if theirs.clock() > ours.clock() {
        theirs
    } else if ours.op_id() >= theirs.op_id() {
        ours
    } else {
        theirs
    }
}

/// Turns outcomes into operations: clean ones as they are, conflicts through the resolver.
pub fn apply_merge_resolution(
    outcomes: &[MergeOutcome],
    conflict_resolver: impl Fn(EditOp, EditOp) -> EditOp,
) -> (merged: Vec<EditOp>)
    requires
        forall|k: int|
            0 <= k < outcomes.len() ==> match #[trigger] outcomes[k] {
                MergeOutcome::Conflict { ours, theirs, .. } => conflict_resolver.requires(
                    (ours, theirs),
                ),
                MergeOutcome::Clean(_) => true,
            },
    ensures
        merged.len() == outcomes.len(),
        forall|k: int|
            0 <= k < outcomes.len() ==> match #[trigger] outcomes[k] {
                MergeOutcome::Clean(op) => merged[k] == op,
                MergeOutcome::Conflict { ours, theirs, .. } => conflict_resolver.ensures(
                    (ours, theirs),
                    merged[k],
                ),
            },
{
    let mut merged: Vec<EditOp> = Vec::new();
    let mut i: usize = 0;
    while i < outcomes.len()
        invariant
            i <= outcomes.len(),
            merged.len() == i,
            forall|k: int|
                0 <= k < outcomes.len() ==> match #[trigger] outcomes[k] {
                    MergeOutcome::Conflict { ours, theirs, .. } => conflict_resolver.requires(
                        (ours, theirs),
                    ),
                    MergeOutcome::Clean(_) => true,
                },
            forall|k: int|
                0 <= k < i ==> match #[trigger] outcomes[k] {
                    MergeOutcome::Clean(op) => merged[k] == op,
                    MergeOutcome::Conflict { ours, theirs, .. } => conflict_resolver.ensures(
                        (ours, theirs),
                        merged[k],
                    ),
                },
        decreases outcomes.len() - i,
    {
        match &outcomes[i] {
            MergeOutcome::Clean(op) => merged.push(*op),
            MergeOutcome::Conflict { ours, theirs, .. } => {
                let resolved = conflict_resolver(*ours, *theirs);
                merged.push(resolved);
            },
        }
        i = i + 1;
    }
    merged
}

// ---------------------------------------------------------------------------
// Laws of the merge
// ---------------------------------------------------------------------------

/// Last-writer-wins picks one of the two operations.
pub proof fn lemma_lww_picks_one(a: EditOp, b: EditOp)
    ensures
        lww(a, b) == a || lww(a, b) == b,
        lww(a, b).clock() >= a.clock() && lww(a, b).clock() >= b.clock(),
{
}

/// Last-writer-wins does not depend on which side is "ours", unless two
/// different operations share both clock and op id.
pub proof fn lemma_lww_commutative(a: EditOp, b: EditOp)
    requires
        a == b || a.clock() != b.clock() || a.op_id() != b.op_id(),
    ensures
        lww(a, b) == lww(b, a),
{
}

/// Last-writer-wins resolves three concurrent edits the same way whichever pair goes first.
pub proof fn lemma_lww_associative(a: EditOp, b: EditOp, c: EditOp)
    ensures
        lww(lww(a, b), c) == lww(a, lww(b, c)),
{
}

proof fn lemma_filter_all<T>(s: Seq<T>, p: spec_fn(T) -> bool)
    requires
        forall|k: int| 0 <= k < s.len() ==> p(#[trigger] s[k]),
    ensures
        s.filter(p) == s,
    decreases s.len(),
{
    reveal(Seq::filter);
    if s.len() > 0 {
        lemma_filter_all(s.drop_last(), p);
        assert(p(s[s.len() - 1]));
        assert(s.drop_last().push(s.last()) =~= s);
    }
}

/// Edits on disjoint sets of clips merge without conflict: ours, then theirs, all clean.
pub proof fn lemma_merge_disjoint(ours: Seq<EditOp>, theirs: Seq<EditOp>)
    requires
        forall|i: int, j: int|
            0 <= i < ours.len() && 0 <= j < theirs.len() ==> (#[trigger] ours[i]).target_id()
                != (#[trigger] theirs[j]).target_id(),
    ensures
        three_way_merge_spec(ours, theirs) == ours.map_values(clean()) + theirs.map_values(clean()),
{
    assert forall|i: int| 0 <= i < ours.len() implies merge_against(theirs)(#[trigger] ours[i])
        == clean()(ours[i]) by {
        if exists|j: int| 0 <= j < theirs.len() && theirs[j].target_id() == ours[i].target_id() {
            let j = choose|j: int| 0 <= j < theirs.len() && theirs[j].target_id() == ours[i].target_id();
            assert(ours[i].target_id() != theirs[j].target_id());
        }
    }
    assert(ours.map_values(merge_against(theirs)) =~= ours.map_values(clean()));
    assert forall|j: int| 0 <= j < theirs.len() implies untouched_by(ours)(#[trigger] theirs[j]) by {
        if targets(ours, theirs[j].target_id()) {
            let i = choose|i: int| 0 <= i < ours.len() && ours[i].target_id() == theirs[j].target_id();
            assert(ours[i].target_id() != theirs[j].target_id());
        }
    }
    lemma_filter_all(theirs, untouched_by(ours));
}

/// A conflict is only ever reported between two different operations on the same clip.
pub proof fn lemma_merge_conflicts(ours: Seq<EditOp>, theirs: Seq<EditOp>, k: int)
    requires
        0 <= k < three_way_merge_spec(ours, theirs).len(),
        three_way_merge_spec(ours, theirs)[k] is Conflict,
    ensures
        ({
            let o = three_way_merge_spec(ours, theirs)[k];
            &&& k < ours.len()
            &&& o->ours == ours[k]
            &&& o->ours != o->theirs
            &&& o->ours.target_id() == o->op_id
            &&& o->theirs.target_id() == o->op_id
            &&& theirs.contains(o->theirs)
        }),
{
    let m = three_way_merge_spec(ours, theirs);
    let a = ours.map_values(merge_against(theirs));
    let b = theirs.filter(untouched_by(ours)).map_values(clean());
    if k >= ours.len() {
        assert(m[k] == b[k - ours.len()]);
    } else {
        assert(m[k] == a[k]);
        let op = ours[k];
        let j = first_conflict_index(op, theirs);
        if j >= 0 {
            let w = choose|w: int| 0 <= w < theirs.len() && theirs[w].target_id() == op.target_id();
            lemma_first_conflict_exists(op, theirs, w);
            assert(theirs[j] == theirs[j]);
        }
    }
}

proof fn lemma_first_conflict_exists(op: EditOp, others: Seq<EditOp>, w: int)
    requires
        0 <= w < others.len(),
        others[w].target_id() == op.target_id(),
    ensures
        0 <= first_conflict_index(op, others) < others.len(),
        others[first_conflict_index(op, others)].target_id() == op.target_id(),
    decreases w,
{
    if exists|j: int| 0 <= j < w && others[j].target_id() == op.target_id() {
        let j = choose|j: int| 0 <= j < w && others[j].target_id() == op.target_id();
        lemma_first_conflict_exists(op, others, j);
    } else {
        lemma_first_conflict_found(op, others, w);
    }
}

/// Merging against an empty log passes every operation through cleanly.
pub proof fn lemma_merge_with_empty(ops: Seq<EditOp>)
    ensures
        three_way_merge_spec(ops, Seq::empty()) == ops.map_values(clean()),
        three_way_merge_spec(Seq::empty(), ops) == ops.map_values(clean()),
{
    lemma_merge_disjoint(ops, Seq::empty());
    lemma_merge_disjoint(Seq::empty(), ops);
    assert(Seq::<EditOp>::empty().map_values(clean()) =~= Seq::<MergeOutcome>::empty());
    assert(ops.map_values(clean()) + Seq::<MergeOutcome>::empty() =~= ops.map_values(clean()));
    assert(Seq::<MergeOutcome>::empty() + ops.map_values(clean()) =~= ops.map_values(clean()));
}


/// Each of our operations is held against the first operation of theirs on the same clip:
/// the very same operation goes through clean, any other is reported as a conflict between
/// the two, whatever their clocks.
pub proof fn lemma_merge_meets_first_same_clip(ours: Seq<EditOp>, theirs: Seq<EditOp>, i: int, j: int)
    requires
        0 <= i < ours.len(),
        0 <= j < theirs.len(),
        theirs[j].target_id() == ours[i].target_id(),
        forall|k: int| 0 <= k < j ==> (#[trigger] theirs[k]).target_id() != ours[i].target_id(),
    ensures
        three_way_merge_spec(ours, theirs)[i] == (if ours[i] == theirs[j] {
            MergeOutcome::Clean(ours[i])
        } else {
            MergeOutcome::Conflict { op_id: ours[i].target_id(), ours: ours[i], theirs: theirs[j] }
        }),
{
    lemma_first_conflict_found(ours[i], theirs, j);
    assert(three_way_merge_spec(ours, theirs)[i] == ours.map_values(merge_against(theirs))[i]);
}

/// An operation of ours on a clip that none of theirs touches goes through clean.
pub proof fn lemma_merge_untouched_is_clean(ours: Seq<EditOp>, theirs: Seq<EditOp>, i: int)
    requires
        0 <= i < ours.len(),
        forall|k: int| 0 <= k < theirs.len() ==> (#[trigger] theirs[k]).target_id() != ours[i].target_id(),
    ensures
        three_way_merge_spec(ours, theirs)[i] == MergeOutcome::Clean(ours[i]),
{
    assert(three_way_merge_spec(ours, theirs)[i] == ours.map_values(merge_against(theirs))[i]);
    if exists|j: int| 0 <= j < theirs.len() && theirs[j].target_id() == ours[i].target_id() {
        let j = choose|j: int| 0 <= j < theirs.len() && theirs[j].target_id() == ours[i].target_id();
        assert(theirs[j].target_id() != ours[i].target_id());
    }
}


/// After one outcome for each of ours, the merge lists, clean and in their order, exactly
/// their operations on clips that none of ours touches.
pub proof fn lemma_merge_keeps_their_untouched(ours: Seq<EditOp>, theirs: Seq<EditOp>)
    ensures
        three_way_merge_spec(ours, theirs).len() >= ours.len(),
        forall|j: int| 0 <= j < theirs.len() && !targets(ours, (#[trigger] theirs[j]).target_id())
            ==> three_way_merge_spec(ours, theirs).contains(MergeOutcome::Clean(theirs[j])),
        forall|k: int| ours.len() <= k < three_way_merge_spec(ours, theirs).len() ==> exists|j: int|
            0 <= j < theirs.len() && !targets(ours, theirs[j].target_id())
                && #[trigger] three_way_merge_spec(ours, theirs)[k] == MergeOutcome::Clean(theirs[j]),
{
    let m = three_way_merge_spec(ours, theirs);
    let a = ours.map_values(merge_against(theirs));
    let f = theirs.filter(untouched_by(ours));
    let b = f.map_values(clean());
    assert forall|j: int| 0 <= j < theirs.len() && !targets(ours, (#[trigger] theirs[j]).target_id())
        implies m.contains(MergeOutcome::Clean(theirs[j])) by {
        theirs.lemma_filter_contains(untouched_by(ours), j);
        let q = choose|q: int| 0 <= q < f.len() && f[q] == theirs[j];
        assert(m[ours.len() + q] == b[q]);
    }
    assert forall|k: int| ours.len() <= k < m.len() implies exists|j: int|
        0 <= j < theirs.len() && !targets(ours, theirs[j].target_id())
            && #[trigger] m[k] == MergeOutcome::Clean(theirs[j]) by {
        let q = k - ours.len();
        assert(m[k] == b[q]);
        theirs.lemma_filter_pred(untouched_by(ours), q);
        theirs.lemma_filter_contains_rev(untouched_by(ours), f[q]);
        let j = choose|j: int| 0 <= j < theirs.len() && theirs[j] == f[q];
        assert(!targets(ours, theirs[j].target_id()));
    }
}

} // verus!
