use vstd::prelude::*;

verus! {

broadcast use vstd::array::group_array_axioms;

/// Identifier of an edit operation (a UUID, held as its 128-bit big-endian value).
pub type OpId = u128;

/// Position of a clip on the timeline, in milliseconds.
pub type Position = u64;

/// BLAKE3 hash of a content-addressed chunk.
pub type ChunkHash = [u8; 32];

/// Compares two chunk hashes byte by byte.
pub fn hashes_equal(a: &ChunkHash, b: &ChunkHash) -> (r: bool)
    ensures
        r == (*a == *b),
{
    let mut i: usize = 0;
    while i < 32
        invariant
            i <= 32,
            forall|j: int| 0 <= j < i ==> a[j] == b[j],
        decreases 32 - i,
    {
        if a[i] != b[i] {
            return false;
        }
        i = i + 1;
    }
    assert(*a =~= *b);
    true
}

/// One operation of the edit decision list.
#[derive(Clone, Copy, Debug)]
pub enum EditOp {
    Insert { op_id: OpId, chunk_hash: ChunkHash, position: Position, clock: u64 },
    Trim { op_id: OpId, target: OpId, new_in: Position, new_out: Position, clock: u64 },
    Delete { op_id: OpId, target: OpId, clock: u64 },
    Reorder { op_id: OpId, target: OpId, new_position: Position, clock: u64 },
}

impl PartialEq for EditOp {
    fn eq(&self, other: &Self) -> (r: bool) {
        match (self, other) {
            (
                EditOp::Insert { op_id: a1, chunk_hash: h1, position: p1, clock: c1 },
                EditOp::Insert { op_id: a2, chunk_hash: h2, position: p2, clock: c2 },
            ) => *a1 == *a2 && *p1 == *p2 && *c1 == *c2 && hashes_equal(h1, h2),
            (
                EditOp::Trim { op_id: a1, target: t1, new_in: i1, new_out: o1, clock: c1 },
                EditOp::Trim { op_id: a2, target: t2, new_in: i2, new_out: o2, clock: c2 },
            ) => *a1 == *a2 && *t1 == *t2 && *i1 == *i2 && *o1 == *o2 && *c1 == *c2,
            (
                EditOp::Delete { op_id: a1, target: t1, clock: c1 },
                EditOp::Delete { op_id: a2, target: t2, clock: c2 },
            ) => *a1 == *a2 && *t1 == *t2 && *c1 == *c2,
            (
                EditOp::Reorder { op_id: a1, target: t1, new_position: n1, clock: c1 },
                EditOp::Reorder { op_id: a2, target: t2, new_position: n2, clock: c2 },
            ) => *a1 == *a2 && *t1 == *t2 && *n1 == *n2 && *c1 == *c2,
            _ => false,
        }
    }
}

impl vstd::std_specs::cmp::PartialEqSpecImpl for EditOp {
    open spec fn obeys_eq_spec() -> bool {
        true
    }

    open spec fn eq_spec(&self, other: &Self) -> bool {
        *self == *other
    }
}

impl Eq for EditOp {}

impl EditOp {
    pub open spec fn spec_op_id(&self) -> OpId {
        match *self {
            EditOp::Insert { op_id, .. } => op_id,
            EditOp::Trim { op_id, .. } => op_id,
            EditOp::Delete { op_id, .. } => op_id,
            EditOp::Reorder { op_id, .. } => op_id,
        }
    }

    pub open spec fn spec_target_id(&self) -> OpId {
        match *self {
            EditOp::Insert { op_id, .. } => op_id,
            EditOp::Trim { target, .. } => target,
            EditOp::Delete { target, .. } => target,
            EditOp::Reorder { target, .. } => target,
        }
    }

    pub open spec fn spec_clock(&self) -> u64 {
        match *self {
            EditOp::Insert { clock, .. } => clock,
            EditOp::Trim { clock, .. } => clock,
            EditOp::Delete { clock, .. } => clock,
            EditOp::Reorder { clock, .. } => clock,
        }
    }

    /// The identifier of this operation.
    #[verifier::when_used_as_spec(spec_op_id)]
    pub fn op_id(&self) -> (r: OpId)
        ensures
            r == self.spec_op_id(),
    {
        match self {
            EditOp::Insert { op_id, .. } => *op_id,
            EditOp::Trim { op_id, .. } => *op_id,
            EditOp::Delete { op_id, .. } => *op_id,
            EditOp::Reorder { op_id, .. } => *op_id,
        }
    }

    /// The clip this operation acts on: an insert names itself, the others name their target.
    #[verifier::when_used_as_spec(spec_target_id)]
    pub fn target_id(&self) -> (r: OpId)
        ensures
            r == self.spec_target_id(),
    {
        match self {
            EditOp::Insert { op_id, .. } => *op_id,
            EditOp::Trim { target, .. } => *target,
            EditOp::Delete { target, .. } => *target,
            EditOp::Reorder { target, .. } => *target,
        }
    }

    /// The Lamport clock at which this operation was issued.
    #[verifier::when_used_as_spec(spec_clock)]
    pub fn clock(&self) -> (r: u64)
        ensures
            r == self.spec_clock(),
    {
        match self {
            EditOp::Insert { clock, .. } => *clock,
            EditOp::Trim { clock, .. } => *clock,
            EditOp::Delete { clock, .. } => *clock,
            EditOp::Reorder { clock, .. } => *clock,
        }
    }
}

/// A clip placed on the timeline.
#[derive(Clone, Copy, Debug, PartialEq, Eq)]
pub struct Clip {
    pub op_id: OpId,
    pub chunk_hash: ChunkHash,
    pub position: Position,
}

/// The clips that a replay of the edit decision list produces, in insertion order.
#[derive(Clone, Debug, Default, PartialEq, Eq)]
pub struct Timeline {
    pub clips: Vec<Clip>,
}

impl View for Timeline {
    type V = Seq<Clip>;

    open spec fn view(&self) -> Seq<Clip> {
        self.clips@
    }
}

// ---------------------------------------------------------------------------
// Orders and the stable sort
// ---------------------------------------------------------------------------

/// Replay order: by clock, then by operation id.
pub open spec fn op_key_le(a: EditOp, b: EditOp) -> bool {
    a.clock() < b.clock() || (a.clock() == b.clock() && a.op_id() <= b.op_id())
}

pub open spec fn op_le() -> spec_fn(EditOp, EditOp) -> bool {
    |a: EditOp, b: EditOp| op_key_le(a, b)
}

/// Timeline order: by position, then by operation id.
pub open spec fn clip_key_le(a: Clip, b: Clip) -> bool {
    a.position < b.position || (a.position == b.position && a.op_id <= b.op_id)
}

pub open spec fn clip_le() -> spec_fn(Clip, Clip) -> bool {
    |a: Clip, b: Clip| clip_key_le(a, b)
}

/// Inserts `x` after the last element that is not greater than it.
pub open spec fn insert_sorted<T>(s: Seq<T>, x: T, le: spec_fn(T, T) -> bool) -> Seq<T>
    decreases s.len(),
{
    if s.len() == 0 {
        seq![x]
    } else if le(s.last(), x) {
        s.push(x)
    } else {
        insert_sorted(s.drop_last(), x, le).push(s.last())
    }
}

/// The stable sort of `s` by `le`: elements with equal keys keep their relative order.
pub open spec fn stable_sort<T>(s: Seq<T>, le: spec_fn(T, T) -> bool) -> Seq<T>
    decreases s.len(),
{
    if s.len() == 0 {
        s
    } else {
        insert_sorted(stable_sort(s.drop_last(), le), s.last(), le)
    }
}

pub open spec fn is_total_preorder<T>(le: spec_fn(T, T) -> bool) -> bool {
    &&& forall|a: T, b: T| #[trigger] le(a, b) || le(b, a)
    &&& forall|a: T, b: T, c: T| #[trigger] le(a, b) && #[trigger] le(b, c) ==> le(a, c)
}

pub open spec fn sorted_by<T>(s: Seq<T>, le: spec_fn(T, T) -> bool) -> bool {
    forall|i: int, j: int| 0 <= i < j < s.len() ==> le(#[trigger] s[i], #[trigger] s[j])
}

/// Where the scan from the end stops, inserting there is what `insert_sorted` does.
proof fn lemma_insert_sorted_at<T>(s: Seq<T>, x: T, le: spec_fn(T, T) -> bool, j: int)
    requires
        0 <= j <= s.len(),
        j == 0 || le(s[j - 1], x),
        forall|k: int| j <= k < s.len() ==> !le(#[trigger] s[k], x),
    ensures
        insert_sorted(s, x, le) == s.insert(j, x),
    decreases s.len(),
{
    if s.len() == 0 {
        assert(s.insert(j, x) =~= seq![x]);
    } else if j == s.len() {
        assert(s.insert(j, x) =~= s.push(x));
    } else {
        assert(!le(s[s.len() - 1], x));
        lemma_insert_sorted_at(s.drop_last(), x, le, j);
        assert(s.drop_last().insert(j, x).push(s.last()) =~= s.insert(j, x));
    }
}

proof fn lemma_insert_sorted_contents<T>(s: Seq<T>, x: T, le: spec_fn(T, T) -> bool)
    ensures
        insert_sorted(s, x, le).to_multiset() =~= s.to_multiset().insert(x),
        insert_sorted(s, x, le).len() == s.len() + 1,
    decreases s.len(),
{
    broadcast use vstd::seq_lib::group_to_multiset_ensures;
    if s.len() == 0 {
        assert(seq![x] =~= Seq::<T>::empty().push(x));
    } else if le(s.last(), x) {
    } else {
        lemma_insert_sorted_contents(s.drop_last(), x, le);
        assert(s.drop_last().push(s.last()) =~= s);
    }
}

proof fn lemma_insert_sorted_sorted<T>(s: Seq<T>, x: T, le: spec_fn(T, T) -> bool)
    requires
        is_total_preorder(le),
        sorted_by(s, le),
    ensures
        sorted_by(insert_sorted(s, x, le), le),
        forall|y: T| insert_sorted(s, x, le).contains(y) ==> y == x || s.contains(y),
    decreases s.len(),
{
    let r = insert_sorted(s, x, le);
    if s.len() == 0 {
    } else if le(s.last(), x) {
        assert forall|i: int, j: int| 0 <= i < j < r.len() implies le(#[trigger] r[i], #[trigger] r[j]) by {
            if j == r.len() - 1 && i < s.len() - 1 {
                assert(le(s[i], s[s.len() - 1]));
            }
        }
        assert forall|y: T| r.contains(y) implies y == x || s.contains(y) by {
            let k = choose|k: int| 0 <= k < r.len() && r[k] == y;
            if k < s.len() {
                assert(s[k] == y);
            }
        }
    } else {
        let d = s.drop_last();
        assert(sorted_by(d, le));
        lemma_insert_sorted_sorted(d, x, le);
        let rd = insert_sorted(d, x, le);
        assert(le(x, s.last()));
        assert forall|i: int, j: int| 0 <= i < j < r.len() implies le(#[trigger] r[i], #[trigger] r[j]) by {
            if j == r.len() - 1 && i < rd.len() {
                let y = rd[i];
                assert(rd.contains(y));
                if y != x {
                    assert(d.contains(y));
                    let k = choose|k: int| 0 <= k < d.len() && d[k] == y;
                    assert(d[k] == s[k]);
                    assert(le(s[k], s[s.len() - 1]));
                    assert(le(y, s.last()));
                } else {
                    assert(le(x, s.last()));
                }
                assert(r[j] == s.last());
                assert(r[i] == y);
            }
        }
        assert forall|y: T| r.contains(y) implies y == x || s.contains(y) by {
            let k = choose|k: int| 0 <= k < r.len() && r[k] == y;
            if k == r.len() - 1 {
                assert(s[s.len() - 1] == y);
            } else {
                assert(rd[k] == y);
                assert(rd.contains(y));
                if y != x {
                    assert(d.contains(y));
                    let m = choose|m: int| 0 <= m < d.len() && d[m] == y;
                    assert(d[m] == s[m]);
                    assert(s[m] == y);
                    assert(s.contains(y));
                }
            }
        }
    }
}

/// The stable sort is ordered and holds exactly the elements it was given.
pub proof fn lemma_stable_sort<T>(s: Seq<T>, le: spec_fn(T, T) -> bool)
    requires
        is_total_preorder(le),
    ensures
        sorted_by(stable_sort(s, le), le),
        stable_sort(s, le).to_multiset() =~= s.to_multiset(),
        stable_sort(s, le).len() == s.len(),
    decreases s.len(),
{
    broadcast use vstd::seq_lib::group_to_multiset_ensures;
    if s.len() > 0 {
        lemma_stable_sort(s.drop_last(), le);
        lemma_insert_sorted_sorted(stable_sort(s.drop_last(), le), s.last(), le);
        lemma_insert_sorted_contents(stable_sort(s.drop_last(), le), s.last(), le);
        assert(s.drop_last().push(s.last()) =~= s);
    }
}



// ---------------------------------------------------------------------------
// Executable sorts
// ---------------------------------------------------------------------------

fn op_key_le_exec(a: &EditOp, b: &EditOp) -> (r: bool)
    ensures
        r == op_key_le(*a, *b),
{
    let ca = a.clock();
    let cb = b.clock();
    ca < cb || (ca == cb && a.op_id() <= b.op_id())
}

/// Stable sort of the operations by (clock, op id).
pub fn sort_ops_for_replay(ops: &[EditOp]) -> (r: Vec<EditOp>)
    ensures
        r@ == stable_sort(ops@, op_le()),
{
    let mut r: Vec<EditOp> = Vec::new();
    let mut i: usize = 0;
    while i < ops.len()
        invariant
            i <= ops.len(),
            r@ == stable_sort(ops@.take(i as int), op_le()),
        decreases ops.len() - i,
    {
        let x = ops[i];
        let mut j: usize = r.len();
        while j > 0 && !op_key_le_exec(&r[j - 1], &x)
            invariant
                j <= r.len(),
                forall|k: int| j <= k < r.len() ==> !op_le()(#[trigger] r@[k], x),
            decreases j,
        {
            j = j - 1;
        }
        proof {
            lemma_insert_sorted_at(r@, x, op_le(), j as int);
            assert(ops@.take(i + 1).drop_last() =~= ops@.take(i as int));
        }
        r.insert(j, x);
        i = i + 1;
    }
    assert(ops@.take(ops.len() as int) =~= ops@);
    r
}

fn clip_key_le_exec(a: &Clip, b: &Clip) -> (r: bool)
    ensures
        r == clip_key_le(*a, *b),
{
    a.position < b.position || (a.position == b.position && a.op_id <= b.op_id)
}

fn sort_clips_by_position(clips: &Vec<Clip>) -> (r: Vec<Clip>)
    ensures
        r@ == stable_sort(clips@, clip_le()),
{
    let mut r: Vec<Clip> = Vec::new();
    let mut i: usize = 0;
    while i < clips.len()
        invariant
            i <= clips.len(),
            r@ == stable_sort(clips@.take(i as int), clip_le()),
        decreases clips.len() - i,
    {
        let x = clips[i];
        let mut j: usize = r.len();
        while j > 0 && !clip_key_le_exec(&r[j - 1], &x)
            invariant
                j <= r.len(),
                forall|k: int| j <= k < r.len() ==> !clip_le()(#[trigger] r@[k], x),
            decreases j,
        {
            j = j - 1;
        }
        proof {
            lemma_insert_sorted_at(r@, x, clip_le(), j as int);
            assert(clips@.take(i + 1).drop_last() =~= clips@.take(i as int));
        }
        r.insert(j, x);
        i = i + 1;
    }
    assert(clips@.take(clips.len() as int) =~= clips@);
    r
}

// ---------------------------------------------------------------------------
// Applying operations
// ---------------------------------------------------------------------------

/// Index of the first clip carrying `id`, or -1 when there is none.
pub open spec fn first_clip_index(clips: Seq<Clip>, id: OpId) -> int {
    if exists|i: int| 0 <= i < clips.len() && clips[i].op_id == id {
        choose|i: int|
            0 <= i < clips.len() && clips[i].op_id == id && forall|j: int|
                0 <= j < i ==> clips[j].op_id != id
    } else {
        -1
    }
}

proof fn lemma_first_clip_index(clips: Seq<Clip>, id: OpId, i: int)
    requires
        0 <= i < clips.len(),
        clips[i].op_id == id,
        forall|j: int| 0 <= j < i ==> clips[j].op_id != id,
    ensures
        first_clip_index(clips, id) == i,
{
    let w = first_clip_index(clips, id);
    assert(0 <= w < clips.len() && clips[w].op_id == id && forall|j: int| 0 <= j < w ==> clips[j].op_id != id);
    if w < i {
        assert(clips[w].op_id != id);
    }
    if i < w {
        assert(clips[i].op_id != id);
    }
}

/// When some clip carries `id`, the first one is found, and it is the least index carrying it.
pub proof fn lemma_first_clip_index_found(clips: Seq<Clip>, id: OpId, i: int)
    requires
        0 <= i < clips.len(),
        clips[i].op_id == id,
    ensures
        0 <= first_clip_index(clips, id) <= i,
        clips[first_clip_index(clips, id)].op_id == id,
        forall|j: int| 0 <= j < first_clip_index(clips, id) ==> clips[j].op_id != id,
    decreases i,
{
    if exists|j: int| 0 <= j < i && clips[j].op_id == id {
        let j = choose|j: int| 0 <= j < i && clips[j].op_id == id;
        lemma_first_clip_index_found(clips, id, j);
    } else {
        lemma_first_clip_index(clips, id, i);
    }
}

/// The clip to keep when deleting `target`.
pub open spec fn clip_kept(target: OpId) -> spec_fn(Clip) -> bool {
    |c: Clip| c.op_id != target
}

/// Moves the first clip carrying `target` to `position`; no clip carries it: nothing changes.
pub open spec fn move_clip(clips: Seq<Clip>, target: OpId, position: Position) -> Seq<Clip> {
    let i = first_clip_index(clips, target);
    if i >= 0 {
        clips.update(i, Clip { position, ..clips[i] })
    } else {
        clips
    }
}

/// What one operation does to the clips of a timeline.
pub open spec fn apply_op(clips: Seq<Clip>, op: EditOp) -> Seq<Clip> {
    match op {
        EditOp::Insert { op_id, chunk_hash, position, .. } => clips.push(
            Clip { op_id, chunk_hash, position },
        ),
        EditOp::Trim { target, new_in, .. } => move_clip(clips, target, new_in),
        EditOp::Delete { target, .. } => clips.filter(clip_kept(target)),
        EditOp::Reorder { target, new_position, .. } => move_clip(clips, target, new_position),
    }
}

/// The clips after applying `ops` in the order given, from an empty timeline.
pub open spec fn apply_all(ops: Seq<EditOp>) -> Seq<Clip>
    decreases ops.len(),
{
    if ops.len() == 0 {
        Seq::empty()
    } else {
        apply_op(apply_all(ops.drop_last()), ops.last())
    }
}

/// The timeline that a replay of `ops` gives: the operations applied in (clock, op id) order.
pub open spec fn replay_spec(ops: Seq<EditOp>) -> Seq<Clip> {
    apply_all(stable_sort(ops, op_le()))
}

fn first_clip_position(clips: &Vec<Clip>, id: OpId) -> (r: Option<usize>)
    ensures
        match r {
            Some(i) => i == first_clip_index(clips@, id) && i < clips.len(),
            None => first_clip_index(clips@, id) == -1,
        },
{
    let mut i: usize = 0;
    while i < clips.len()
        invariant
            i <= clips.len(),
            forall|j: int| 0 <= j < i ==> clips@[j].op_id != id,
        decreases clips.len() - i,
    {
        if clips[i].op_id == id {
            proof {
                lemma_first_clip_index(clips@, id, i as int);
            }
            return Some(i);
        }
        i = i + 1;
    }
    None
}

fn set_clip_position(clips: &mut Vec<Clip>, target: OpId, position: Position)
    ensures
        final(clips)@ == move_clip(old(clips)@, target, position),
{
    match first_clip_position(clips, target) {
        Some(i) => {
            let c = clips[i];
            clips[i] = Clip { op_id: c.op_id, chunk_hash: c.chunk_hash, position };
        },
        None => {},
    }
}

fn remove_clips(clips: &Vec<Clip>, target: OpId) -> (r: Vec<Clip>)
    ensures
        r@ == clips@.filter(clip_kept(target)),
{
    let mut r: Vec<Clip> = Vec::new();
    let mut i: usize = 0;
    while i < clips.len()
        invariant
            i <= clips.len(),
            r@ == clips@.take(i as int).filter(clip_kept(target)),
        decreases clips.len() - i,
    {
        proof {
            reveal(Seq::filter);
            assert(clips@.take(i + 1).drop_last() =~= clips@.take(i as int));
            assert(clips@.take(i + 1).last() == clips@[i as int]);
        }
        if clips[i].op_id != target {
            r.push(clips[i]);
        }
        i = i + 1;
    }
    assert(clips@.take(clips.len() as int) =~= clips@);
    r
}

fn apply_one(timeline: &mut Timeline, op: &EditOp)
    ensures
        final(timeline)@ == apply_op(old(timeline)@, *op),
{
    match op {
        EditOp::Insert { op_id, chunk_hash, position, .. } => {
            timeline.clips.push(Clip { op_id: *op_id, chunk_hash: *chunk_hash, position: *position });
        },
        EditOp::Trim { target, new_in, .. } => {
            set_clip_position(&mut timeline.clips, *target, *new_in);
        },
        EditOp::Delete { target, .. } => {
            let kept = remove_clips(&timeline.clips, *target);
            timeline.clips = kept;
        },
        EditOp::Reorder { target, new_position, .. } => {
            set_clip_position(&mut timeline.clips, *target, *new_position);
        },
    }
}

/// Replays the operations into a timeline: sorted by (clock, op id), stably, then applied in turn.
pub fn replay(ops: &[EditOp]) -> (t: Timeline)
    ensures
        t@ == replay_spec(ops@),
{
    let sorted = sort_ops_for_replay(ops);
    let mut timeline = Timeline { clips: Vec::new() };
    let mut i: usize = 0;
    while i < sorted.len()
        invariant
            i <= sorted.len(),
            timeline@ == apply_all(sorted@.take(i as int)),
        decreases sorted.len() - i,
    {
        proof {
            assert(sorted@.take(i + 1).drop_last() =~= sorted@.take(i as int));
        }
        apply_one(&mut timeline, &sorted[i]);
        i = i + 1;
    }
    assert(sorted@.take(sorted.len() as int) =~= sorted@);
    timeline
}

impl Timeline {
    pub fn len(&self) -> (r: usize)
        ensures
            r == self@.len(),
    {
        self.clips.len()
    }

    pub fn is_empty(&self) -> (r: bool)
        ensures
            r == (self@.len() == 0),
    {
        self.clips.len() == 0
    }

    /// The first clip inserted by `op_id`, if any.
    pub fn find(&self, op_id: OpId) -> (r: Option<&Clip>)
        ensures
            match r {
                Some(c) => first_clip_index(self@, op_id) >= 0 && *c == self@[first_clip_index(
                    self@,
                    op_id,
                )],
                None => first_clip_index(self@, op_id) == -1,
            },
    {
        match first_clip_position(&self.clips, op_id) {
            Some(i) => Some(&self.clips[i]),
            None => None,
        }
    }

    /// The clips ordered by (position, op id), stably.
    pub fn sorted_by_position(&self) -> (r: Vec<Clip>)
        ensures
            r@ == stable_sort(self@, clip_le()),
    {
        sort_clips_by_position(&self.clips)
    }
}

// ---------------------------------------------------------------------------
// Personal tree: the local log of operations and whether each was merged
// ---------------------------------------------------------------------------

/// The operations not yet merged, in recording order.
pub open spec fn unmerged_ops(entries: Seq<(EditOp, bool)>) -> Seq<EditOp>
    decreases entries.len(),
{
    if entries.len() == 0 {
        Seq::empty()
    } else if !entries.last().1 {
        unmerged_ops(entries.drop_last()).push(entries.last().0)
    } else {
        unmerged_ops(entries.drop_last())
    }
}

/// The operations already merged, in recording order.
pub open spec fn merged_ops(entries: Seq<(EditOp, bool)>) -> Seq<EditOp>
    decreases entries.len(),
{
    if entries.len() == 0 {
        Seq::empty()
    } else if entries.last().1 {
        merged_ops(entries.drop_last()).push(entries.last().0)
    } else {
        merged_ops(entries.drop_last())
    }
}

/// Index of the first entry whose operation carries `id`, or -1.
pub open spec fn first_entry_index(entries: Seq<(EditOp, bool)>, id: OpId) -> int {
    if exists|i: int| 0 <= i < entries.len() && entries[i].0.op_id() == id {
        choose|i: int|
            0 <= i < entries.len() && entries[i].0.op_id() == id && forall|j: int|
                0 <= j < i ==> entries[j].0.op_id() != id
    } else {
        -1
    }
}

/// Marks the first entry carrying `id` as merged; with none, nothing changes.
pub open spec fn mark_entry(entries: Seq<(EditOp, bool)>, id: OpId) -> Seq<(EditOp, bool)> {
    let i = first_entry_index(entries, id);
    if i >= 0 {
        entries.update(i, (entries[i].0, true))
    } else {
        entries
    }
}

/// A peer's own log of edit operations, each flagged once it has been merged.
#[derive(Clone, Debug, Default, PartialEq, Eq)]
pub struct PersonalTree {
    entries: Vec<(EditOp, bool)>,
}

impl View for PersonalTree {
    type V = Seq<(EditOp, bool)>;

    closed spec fn view(&self) -> Seq<(EditOp, bool)> {
        self.entries@
    }
}

impl PersonalTree {
    pub fn new() -> (r: Self)
        ensures
            r@ == Seq::<(EditOp, bool)>::empty(),
    {
        PersonalTree { entries: Vec::new() }
    }

    /// Records a local operation, not yet merged.
    pub fn record(&mut self, op: EditOp)
        ensures
            final(self)@ == old(self)@.push((op, false)),
    {
        self.entries.push((op, false));
    }

    /// Marks the first recorded operation with this id as merged.
    pub fn mark_merged(&mut self, op_id: OpId)
        ensures
            final(self)@ == mark_entry(old(self)@, op_id),
    {
        let mut i: usize = 0;
        while i < self.entries.len()
            invariant
                i <= self.entries.len(),
                self.entries@ == old(self).entries@,
                forall|j: int| 0 <= j < i ==> self.entries@[j].0.op_id() != op_id,
            decreases self.entries.len() - i,
        {
            if self.entries[i].0.op_id() == op_id {
                proof {
                    let e = self.entries@;
                    let w = first_entry_index(e, op_id);
                    assert(0 <= w < e.len() && e[w].0.op_id() == op_id && forall|j: int|
                        0 <= j < w ==> e[j].0.op_id() != op_id);
                    if w < i {
                        assert(e[w].0.op_id() != op_id);
                    }
                    if (i as int) < w {
                        assert(e[i as int].0.op_id() != op_id);
                    }
                }
                let op = self.entries[i].0;
                self.entries[i] = (op, true);
                return;
            }
            i = i + 1;
        }
    }

    /// The operations not yet merged, in recording order.
    pub fn unmerged(&self) -> (r: Vec<EditOp>)
        ensures
            r@ == unmerged_ops(self@),
    {
        let mut r: Vec<EditOp> = Vec::new();
        let mut i: usize = 0;
        while i < self.entries.len()
            invariant
                i <= self.entries.len(),
                r@ == unmerged_ops(self.entries@.take(i as int)),
            decreases self.entries.len() - i,
        {
            proof {
                assert(self.entries@.take(i + 1).drop_last() =~= self.entries@.take(i as int));
            }
            if !self.entries[i].1 {
                r.push(self.entries[i].0);
            }
            i = i + 1;
        }
        assert(self.entries@.take(self.entries.len() as int) =~= self.entries@);
        r
    }

    /// The operations already merged, in recording order.
    pub fn merged(&self) -> (r: Vec<EditOp>)
        ensures
            r@ == merged_ops(self@),
    {
        let mut r: Vec<EditOp> = Vec::new();
        let mut i: usize = 0;
        while i < self.entries.len()
            invariant
                i <= self.entries.len(),
                r@ == merged_ops(self.entries@.take(i as int)),
            decreases self.entries.len() - i,
        {
            proof {
                assert(self.entries@.take(i + 1).drop_last() =~= self.entries@.take(i as int));
            }
            if self.entries[i].1 {
                r.push(self.entries[i].0);
            }
            i = i + 1;
        }
        assert(self.entries@.take(self.entries.len() as int) =~= self.entries@);
        r
    }

    /// Every entry with its merged flag, in recording order.
    pub fn all(&self) -> (r: &[(EditOp, bool)])
        ensures
            r@ == self@,
    {
        self.entries.as_slice()
    }

    pub fn len(&self) -> (r: usize)
        ensures
            r == self@.len(),
    {
        self.entries.len()
    }

    pub fn is_empty(&self) -> (r: bool)
        ensures
            r == (self@.len() == 0),
    {
        self.entries.len() == 0
    }
}

/// The timeline a peer sees: the merged operations together with its own unmerged ones.
pub fn derive_local_tree(merged_ops: &[EditOp], personal: &PersonalTree) -> (t: Timeline)
    ensures
        t@ == replay_spec(merged_ops@ + unmerged_ops(personal@)),
{
    let mut all: Vec<EditOp> = Vec::new();
    let mut k: usize = 0;
    while k < merged_ops.len()
        invariant
            k <= merged_ops.len(),
            all@ == merged_ops@.take(k as int),
        decreases merged_ops.len() - k,
    {
        all.push(merged_ops[k]);
        k = k + 1;
        assert(all@ =~= merged_ops@.take(k as int));
    }
    assert(merged_ops@.take(merged_ops.len() as int) =~= merged_ops@);
    let unmerged = personal.unmerged();
    let mut i: usize = 0;
    while i < unmerged.len()
        invariant
            i <= unmerged.len(),
            all@ == merged_ops@ + unmerged@.take(i as int),
        decreases unmerged.len() - i,
    {
        all.push(unmerged[i]);
        i = i + 1;
        assert(all@ =~= merged_ops@ + unmerged@.take(i as int));
    }
    assert(unmerged@.take(unmerged.len() as int) =~= unmerged@);
    replay(all.as_slice())
}

} // verus!
