//! Differences between two chunk listings of the copy-on-write index.
use vstd::prelude::*;
use crate::edl::{hashes_equal, ChunkHash, Position};

verus! {

broadcast use vstd::array::group_array_axioms;

/// The BLAKE3 digest of a byte string (32 bytes).
pub uninterp spec fn blake3_hash(data: Seq<u8>) -> Seq<u8>;

/// Calls `blake3::hash`; the digest is a function of the bytes alone.
#[verifier::external_body]
pub(crate) fn blake3_digest(data: &[u8]) -> (r: [u8; 32])
    ensures
        r@ == blake3_hash(data@),
{
    *blake3::hash(data).as_bytes()
}

/// A value stored at a position of the tree.
#[derive(Clone, Debug, PartialEq, Eq)]
pub enum Value {
    /// Raw bytes.
    Bytes(Vec<u8>),
    /// Any other kind of value, held as its canonical serialized form.
    Encoded(Vec<u8>),
}

impl Value {
    /// The bytes that identify this value.
    pub open spec fn digest_input(&self) -> Seq<u8> {
        match *self {
            Value::Bytes(b) => b@,
            Value::Encoded(b) => b@,
        }
    }
}

/// Digest of a stored value.
pub open spec fn value_digest(v: Value) -> Seq<u8> {
    blake3_hash(v.digest_input())
}

/// Hashes a stored value: raw bytes directly, other values through their serialized form.
pub fn hash_value(val: &Value) -> (r: [u8; 32])
    ensures
        r@ == value_digest(*val),
{
    match val {
        Value::Bytes(bytes) => blake3_digest(bytes.as_slice()),
        Value::Encoded(serialized) => blake3_digest(serialized.as_slice()),
    }
}

/// One position at which two listings differ.
#[derive(Clone, Copy, Debug, PartialEq, Eq)]
pub struct DiffEntry {
    pub position: Position,
    pub old_hash: Option<ChunkHash>,
    pub new_hash: Option<ChunkHash>,
}

/// A difference as seen by the specifications, hashes taken as byte sequences.
pub struct DiffView {
    pub position: Position,
    pub old_hash: Option<Seq<u8>>,
    pub new_hash: Option<Seq<u8>>,
}

pub open spec fn hash_view(h: Option<ChunkHash>) -> Option<Seq<u8>> {
    match h {
        Some(a) => Some(a@),
        None => None,
    }
}

impl View for DiffEntry {
    type V = DiffView;

    open spec fn view(&self) -> DiffView {
        DiffView {
            position: self.position,
            old_hash: hash_view(self.old_hash),
            new_hash: hash_view(self.new_hash),
        }
    }
}

impl DiffEntry {
    /// The position exists only in the new listing.
    pub fn is_insert(&self) -> (r: bool)
        ensures
            r == (self.old_hash is None && self.new_hash is Some),
    {
        self.old_hash.is_none() && self.new_hash.is_some()
    }

    /// The position exists only in the old listing.
    pub fn is_delete(&self) -> (r: bool)
        ensures
            r == (self.old_hash is Some && self.new_hash is None),
    {
        self.old_hash.is_some() && self.new_hash.is_none()
    }

    /// The position exists in both listings.
    pub fn is_modify(&self) -> (r: bool)
        ensures
            r == (self.old_hash is Some && self.new_hash is Some),
    {
        self.old_hash.is_some() && self.new_hash.is_some()
    }
}

pub open spec fn diff_views(s: Seq<DiffEntry>) -> Seq<DiffView> {
    s.map_values(|d: DiffEntry| d@)
}

/// A listing with each value replaced by its digest.
pub open spec fn hashed(entries: Seq<(Position, Value)>) -> Seq<(Position, Seq<u8>)> {
    entries.map_values(|e: (Position, Value)| (e.0, value_digest(e.1)))
}

/// The merge-join of two listings: a position only in the old one is a delete, only in the
/// new one an insert, in both with different digests a modification.
pub open spec fn diff_spec(a: Seq<(Position, Seq<u8>)>, b: Seq<(Position, Seq<u8>)>) -> Seq<DiffView>
    decreases a.len() + b.len(),
{
    if a.len() == 0 && b.len() == 0 {
        Seq::empty()
    } else if b.len() == 0 || (a.len() > 0 && a[0].0 < b[0].0) {
        seq![DiffView { position: a[0].0, old_hash: Some(a[0].1), new_hash: None }] + diff_spec(
            a.drop_first(),
            b,
        )
    } else if a.len() == 0 || a[0].0 > b[0].0 {
        seq![DiffView { position: b[0].0, old_hash: None, new_hash: Some(b[0].1) }] + diff_spec(
            a,
            b.drop_first(),
        )
    } else if a[0].1 != b[0].1 {
        seq![DiffView { position: a[0].0, old_hash: Some(a[0].1), new_hash: Some(b[0].1) }]
            + diff_spec(a.drop_first(), b.drop_first())
    } else {
        diff_spec(a.drop_first(), b.drop_first())
    }
}

/// Appends to `out` the differences between two listings, walking both in step.
pub fn diff_entries(
    entries_a: &[(Position, Value)],
    entries_b: &[(Position, Value)],
    out: &mut Vec<DiffEntry>,
)
    ensures
        diff_views(final(out)@) == diff_views(old(out)@) + diff_spec(
            hashed(entries_a@),
            hashed(entries_b@),
        ),
{
    let ghost ha = hashed(entries_a@);
    let ghost hb = hashed(entries_b@);
    let ghost start = diff_views(out@);
    let mut i: usize = 0;
    let mut j: usize = 0;
    assert(ha.skip(0) =~= ha);
    assert(hb.skip(0) =~= hb);

    while i < entries_a.len() && j < entries_b.len()
        invariant
            i <= entries_a.len(),
            j <= entries_b.len(),
            ha == hashed(entries_a@),
            hb == hashed(entries_b@),
            start + diff_spec(ha, hb) == diff_views(out@) + diff_spec(ha.skip(i as int), hb.skip(j as int)),
        decreases entries_a.len() - i + entries_b.len() - j,
    {
        let pos_a = entries_a[i].0;
        let pos_b = entries_b[j].0;
        let ghost sa = ha.skip(i as int);
        let ghost sb = hb.skip(j as int);
        assert(sa.drop_first() =~= ha.skip(i + 1));
        assert(sb.drop_first() =~= hb.skip(j + 1));
        let ghost before = diff_views(out@);
        assert(sa[0] == (pos_a, value_digest(entries_a@[i as int].1)));
        assert(sb[0] == (pos_b, value_digest(entries_b@[j as int].1)));
        if pos_a < pos_b {
            let h = hash_value(&entries_a[i].1);
            let d = DiffEntry { position: pos_a, old_hash: Some(h), new_hash: None };
            out.push(d);
            assert(diff_views(out@) =~= before.push(d@));
            assert(before + diff_spec(sa, sb) =~= before.push(d@) + diff_spec(sa.drop_first(), sb));
            i = i + 1;
        } else if pos_a > pos_b {
            let h = hash_value(&entries_b[j].1);
            let d = DiffEntry { position: pos_b, old_hash: None, new_hash: Some(h) };
            out.push(d);
            assert(diff_views(out@) =~= before.push(d@));
            assert(before + diff_spec(sa, sb) =~= before.push(d@) + diff_spec(sa, sb.drop_first()));
            j = j + 1;
        } else {
            let h_a = hash_value(&entries_a[i].1);
            let h_b = hash_value(&entries_b[j].1);
            if !hashes_equal(&h_a, &h_b) {
                let d = DiffEntry { position: pos_a, old_hash: Some(h_a), new_hash: Some(h_b) };
                out.push(d);
                proof {
                    if h_a@ == h_b@ {
                        assert(h_a =~= h_b);
                    }
                }
                assert(diff_views(out@) =~= before.push(d@));
                assert(before + diff_spec(sa, sb) =~= before.push(d@) + diff_spec(
                    sa.drop_first(),
                    sb.drop_first(),
                ));
            } else {
                assert(h_a@ == h_b@);
            }
            i = i + 1;
            j = j + 1;
        }
    }

    while i < entries_a.len()
        invariant
            i <= entries_a.len(),
            j <= entries_b.len(),
            i == entries_a.len() || j == entries_b.len(),
            ha == hashed(entries_a@),
            hb == hashed(entries_b@),
            start + diff_spec(ha, hb) == diff_views(out@) + diff_spec(ha.skip(i as int), hb.skip(j as int)),
        decreases entries_a.len() - i,
    {
        let pos_a = entries_a[i].0;
        let ghost sa = ha.skip(i as int);
        assert(sa.drop_first() =~= ha.skip(i + 1));
        let ghost before = diff_views(out@);
        assert(sa[0] == (pos_a, value_digest(entries_a@[i as int].1)));
        let h = hash_value(&entries_a[i].1);
        let d = DiffEntry { position: pos_a, old_hash: Some(h), new_hash: None };
        out.push(d);
        assert(diff_views(out@) =~= before.push(d@));
        assert(before + diff_spec(sa, hb.skip(j as int)) =~= before.push(d@) + diff_spec(
            sa.drop_first(),
            hb.skip(j as int),
        ));
        i = i + 1;
    }

    while j < entries_b.len()
        invariant
            i == entries_a.len(),
            j <= entries_b.len(),
            ha == hashed(entries_a@),
            hb == hashed(entries_b@),
            start + diff_spec(ha, hb) == diff_views(out@) + diff_spec(ha.skip(i as int), hb.skip(j as int)),
        decreases entries_b.len() - j,
    {
        let pos_b = entries_b[j].0;
        let ghost sb = hb.skip(j as int);
        assert(sb.drop_first() =~= hb.skip(j + 1));
        let ghost before = diff_views(out@);
        assert(sb[0] == (pos_b, value_digest(entries_b@[j as int].1)));
        let h = hash_value(&entries_b[j].1);
        let d = DiffEntry { position: pos_b, old_hash: None, new_hash: Some(h) };
        out.push(d);
        assert(diff_views(out@) =~= before.push(d@));
        assert(before + diff_spec(ha.skip(i as int), sb) =~= before.push(d@) + diff_spec(
            ha.skip(i as int),
            sb.drop_first(),
        ));
        j = j + 1;
    }
    assert(diff_spec(ha.skip(i as int), hb.skip(j as int)) =~= Seq::<DiffView>::empty());
    assert(diff_views(out@) + Seq::<DiffView>::empty() =~= diff_views(out@));
}

/// Identifier of a page of the tree.
pub type PageId = u64;

/// A child of an interior page: its first key, its page and its subtree hash.
pub type ChildRef = (Position, PageId, ChunkHash);

/// What comparing two subtrees calls for next.
#[derive(Clone, Debug, PartialEq, Eq)]
pub enum SubtreeStep {
    /// The subtree hashes agree: nothing differs below.
    Identical,
    /// Both sides split at the same keys: compare these pairs of child pages, whose hashes differ.
    Descend(Vec<(PageId, PageId)>),
    /// The shapes differ: compare the entries themselves.
    CompareEntries,
}

pub open spec fn same_child_keys(a: Seq<ChildRef>, b: Seq<ChildRef>) -> bool {
    a.len() == b.len() && forall|k: int| 0 <= k < a.len() ==> (#[trigger] a[k]).0 == b[k].0
}

/// The child pairs, in order, whose subtree hashes differ.
pub open spec fn differing_children(a: Seq<ChildRef>, b: Seq<ChildRef>) -> Seq<(PageId, PageId)>
    decreases a.len(),
{
    if a.len() == 0 || b.len() == 0 {
        Seq::empty()
    } else {
        let rest = differing_children(a.drop_last(), b.drop_last());
        if a.last().2 != b.last().2 {
            rest.push((a.last().1, b.last().1))
        } else {
            rest
        }
    }
}

/// The decision taken at a pair of subtrees.
pub open spec fn subtree_step_spec(
    hash_a: ChunkHash,
    hash_b: ChunkHash,
    children_a: Seq<ChildRef>,
    children_b: Seq<ChildRef>,
) -> SubtreeStepView {
    if hash_a == hash_b {
        SubtreeStepView::Identical
    } else if children_a.len() > 0 && children_b.len() > 0 && same_child_keys(children_a, children_b) {
        SubtreeStepView::Descend(differing_children(children_a, children_b))
    } else {
        SubtreeStepView::CompareEntries
    }
}

/// The decision as seen by the specifications.
pub enum SubtreeStepView {
    Identical,
    Descend(Seq<(PageId, PageId)>),
    CompareEntries,
}

impl View for SubtreeStep {
    type V = SubtreeStepView;

    open spec fn view(&self) -> SubtreeStepView {
        match self {
            SubtreeStep::Identical => SubtreeStepView::Identical,
            SubtreeStep::Descend(v) => SubtreeStepView::Descend(v@),
            SubtreeStep::CompareEntries => SubtreeStepView::CompareEntries,
        }
    }
}

/// Decides how to compare two subtrees, from their hashes and their children.
pub fn subtree_step(
    hash_a: &ChunkHash,
    hash_b: &ChunkHash,
    children_a: &[ChildRef],
    children_b: &[ChildRef],
) -> (r: SubtreeStep)
    ensures
        r@ == subtree_step_spec(*hash_a, *hash_b, children_a@, children_b@),
{
    if hashes_equal(hash_a, hash_b) {
        return SubtreeStep::Identical;
    }
    if children_a.len() > 0 && children_b.len() > 0 {
        let mut same_keys = children_a.len() == children_b.len();
        let mut k: usize = 0;
        while same_keys && k < children_a.len()
            invariant
                same_keys ==> children_a.len() == children_b.len(),
                k <= children_a.len(),
                same_keys ==> forall|m: int| 0 <= m < k ==> (#[trigger] children_a@[m]).0 == children_b@[m].0,
                !same_keys ==> !same_child_keys(children_a@, children_b@),
            decreases children_a.len() - k,
        {
            if children_a[k].0 != children_b[k].0 {
                same_keys = false;
            }
            k = k + 1;
        }
        if same_keys {
            let mut pairs: Vec<(PageId, PageId)> = Vec::new();
            let mut m: usize = 0;
            while m < children_a.len()
                invariant
                    m <= children_a.len(),
                    children_a.len() == children_b.len(),
                    pairs@ == differing_children(children_a@.take(m as int), children_b@.take(m as int)),
                decreases children_a.len() - m,
            {
                proof {
                    assert(children_a@.take(m + 1).drop_last() =~= children_a@.take(m as int));
                    assert(children_b@.take(m + 1).drop_last() =~= children_b@.take(m as int));
                }
                if !hashes_equal(&children_a[m].2, &children_b[m].2) {
                    pairs.push((children_a[m].1, children_b[m].1));
                }
                m = m + 1;
            }
            assert(children_a@.take(children_a.len() as int) =~= children_a@);
            assert(children_b@.take(children_b.len() as int) =~= children_b@);
            return SubtreeStep::Descend(pairs);
        }
    }
    SubtreeStep::CompareEntries
}

// ---------------------------------------------------------------------------
// Laws of the diff
// ---------------------------------------------------------------------------

pub open spec fn swap_sides(d: DiffView) -> DiffView {
    DiffView { position: d.position, old_hash: d.new_hash, new_hash: d.old_hash }
}

/// A listing does not differ from itself.
pub proof fn lemma_diff_self(a: Seq<(Position, Seq<u8>)>)
    ensures
        diff_spec(a, a) == Seq::<DiffView>::empty(),
    decreases a.len(),
{
    if a.len() > 0 {
        lemma_diff_self(a.drop_first());
    }
}

/// Diffing the other way round swaps old and new in every entry.
pub proof fn lemma_diff_swap(a: Seq<(Position, Seq<u8>)>, b: Seq<(Position, Seq<u8>)>)
    ensures
        diff_spec(b, a) == diff_spec(a, b).map_values(|d: DiffView| swap_sides(d)),
    decreases a.len() + b.len(),
{
    let f = |d: DiffView| swap_sides(d);
    if a.len() == 0 && b.len() == 0 {
        assert(diff_spec(a, b).map_values(f) =~= Seq::<DiffView>::empty());
    } else if b.len() == 0 || (a.len() > 0 && a[0].0 < b[0].0) {
        lemma_diff_swap(a.drop_first(), b);
        let head = seq![DiffView { position: a[0].0, old_hash: Some(a[0].1), new_hash: None }];
        assert((head + diff_spec(a.drop_first(), b)).map_values(f) =~= head.map_values(f)
            + diff_spec(a.drop_first(), b).map_values(f));
    } else if a.len() == 0 || a[0].0 > b[0].0 {
        lemma_diff_swap(a, b.drop_first());
        let head = seq![DiffView { position: b[0].0, old_hash: None, new_hash: Some(b[0].1) }];
        assert((head + diff_spec(a, b.drop_first())).map_values(f) =~= head.map_values(f)
            + diff_spec(a, b.drop_first()).map_values(f));
    } else {
        lemma_diff_swap(a.drop_first(), b.drop_first());
        if a[0].1 != b[0].1 {
            let head = seq![DiffView { position: a[0].0, old_hash: Some(a[0].1), new_hash: Some(b[0].1) }];
            assert((head + diff_spec(a.drop_first(), b.drop_first())).map_values(f)
                =~= head.map_values(f) + diff_spec(a.drop_first(), b.drop_first()).map_values(f));
        }
    }
}

/// Every entry of a diff is an insert, a delete or a modification with differing digests.
pub proof fn lemma_diff_entries_differ(a: Seq<(Position, Seq<u8>)>, b: Seq<(Position, Seq<u8>)>, k: int)
    requires
        0 <= k < diff_spec(a, b).len(),
    ensures
        ({
            let d = diff_spec(a, b)[k];
            d.old_hash is Some || d.new_hash is Some
        }),
        ({
            let d = diff_spec(a, b)[k];
            d.old_hash is Some && d.new_hash is Some ==> d.old_hash != d.new_hash
        }),
    decreases a.len() + b.len(),
{
    if a.len() == 0 && b.len() == 0 {
    } else if b.len() == 0 || (a.len() > 0 && a[0].0 < b[0].0) {
        if k > 0 {
            lemma_diff_entries_differ(a.drop_first(), b, k - 1);
        }
    } else if a.len() == 0 || a[0].0 > b[0].0 {
        if k > 0 {
            lemma_diff_entries_differ(a, b.drop_first(), k - 1);
        }
    } else if a[0].1 != b[0].1 {
        if k > 0 {
            lemma_diff_entries_differ(a.drop_first(), b.drop_first(), k - 1);
        }
    } else {
        lemma_diff_entries_differ(a.drop_first(), b.drop_first(), k);
    }
}

/// Bytes a peer downloads for one difference: the chunk itself when the new side has it
/// (32 bytes of hash when its size is unknown), plus 64 bytes of bookkeeping.
pub open spec fn transfer_cost(d: DiffEntry, size: Option<u64>) -> int {
    (if d.new_hash is Some {
        match size {
            Some(s) => s as int,
            None => 32,
        }
    } else {
        0
    }) + 64
}

/// The summed cost of a list of differences.
pub open spec fn total_transfer(ds: Seq<DiffEntry>, sizes: Seq<Option<u64>>) -> int
    decreases ds.len(),
{
    if ds.len() == 0 || sizes.len() == 0 {
        0
    } else {
        total_transfer(ds.drop_last(), sizes.drop_last()) + transfer_cost(ds.last(), sizes.last())
    }
}

proof fn lemma_total_transfer_monotone(ds: Seq<DiffEntry>, sizes: Seq<Option<u64>>, i: int)
    requires
        ds.len() == sizes.len(),
        0 <= i <= ds.len(),
    ensures
        total_transfer(ds.take(i), sizes.take(i)) <= total_transfer(ds, sizes),
    decreases ds.len() - i,
{
    if i < ds.len() {
        lemma_total_transfer_monotone(ds, sizes, i + 1);
        assert(ds.take(i + 1).drop_last() =~= ds.take(i));
        assert(sizes.take(i + 1).drop_last() =~= sizes.take(i));
    } else {
        assert(ds.take(i) =~= ds);
        assert(sizes.take(i) =~= sizes);
    }
}

/// The bytes a delta sync moves for these differences, given the size of the new chunk
/// at each position where it could be read.
pub fn delta_transfer_bytes(diffs: &[DiffEntry], sizes: &[Option<u64>]) -> (r: u64)
    requires
        diffs.len() == sizes.len(),
        total_transfer(diffs@, sizes@) <= u64::MAX,
    ensures
        r == total_transfer(diffs@, sizes@),
{
    let mut total: u64 = 0;
    let mut i: usize = 0;
    while i < diffs.len()
        invariant
            diffs.len() == sizes.len(),
            i <= diffs.len(),
            total_transfer(diffs@, sizes@) <= u64::MAX,
            total == total_transfer(diffs@.take(i as int), sizes@.take(i as int)),
        decreases diffs.len() - i,
    {
        proof {
            assert(diffs@.take(i + 1).drop_last() =~= diffs@.take(i as int));
            assert(sizes@.take(i + 1).drop_last() =~= sizes@.take(i as int));
            lemma_total_transfer_monotone(diffs@, sizes@, i + 1);
        }
        let d = &diffs[i];
        if d.is_insert() || d.is_modify() {
            match sizes[i] {
                Some(s) => total = total + s,
                None => total = total + 32,
            }
        }
        total = total + 64;
        i = i + 1;
    }
    assert(diffs@.take(diffs.len() as int) =~= diffs@);
    assert(sizes@.take(sizes.len() as int) =~= sizes@);
    total
}

/// Whether the bytes a delta sync moves for these differences fit in a `u64`.
pub fn delta_transfer_fits(diffs: &[DiffEntry], sizes: &[Option<u64>]) -> (r: bool)
    requires
        diffs.len() == sizes.len(),
    ensures
        r == (total_transfer(diffs@, sizes@) <= u64::MAX),
{
    let mut total: u64 = 0;
    let mut i: usize = 0;
    while i < diffs.len()
        invariant
            diffs.len() == sizes.len(),
            i <= diffs.len(),
            total == total_transfer(diffs@.take(i as int), sizes@.take(i as int)),
        decreases diffs.len() - i,
    {
        proof {
            assert(diffs@.take(i + 1).drop_last() =~= diffs@.take(i as int));
            assert(sizes@.take(i + 1).drop_last() =~= sizes@.take(i as int));
            lemma_total_transfer_monotone(diffs@, sizes@, i + 1);
        }
        let d = &diffs[i];
        let chunk: u64 = if d.is_insert() || d.is_modify() {
            match sizes[i] {
                Some(s) => s,
                None => 32,
            }
        } else {
            0
        };
        match total.checked_add(chunk) {
            None => return false,
            Some(t) => match t.checked_add(64) {
                None => return false,
                Some(t2) => total = t2,
            },
        }
        i = i + 1;
    }
    assert(diffs@.take(diffs.len() as int) =~= diffs@);
    assert(sizes@.take(sizes.len() as int) =~= sizes@);
    true
}


/// The child indices `k` at which the two subtree hashes differ.
pub open spec fn child_changed(a: Seq<ChildRef>, b: Seq<ChildRef>) -> spec_fn(int) -> bool {
    |k: int| a[k].2 != b[k].2
}

/// The pair of child pages at index `k`.
pub open spec fn child_pages(a: Seq<ChildRef>, b: Seq<ChildRef>) -> spec_fn(int) -> (PageId, PageId) {
    |k: int| (a[k].1, b[k].1)
}

proof fn lemma_differing_children_prefix(a: Seq<ChildRef>, b: Seq<ChildRef>, i: int)
    requires
        a.len() == b.len(),
        0 <= i <= a.len(),
    ensures
        differing_children(a.take(i), b.take(i)) == Seq::new(i as nat, |k: int| k).filter(
            child_changed(a, b),
        ).map_values(child_pages(a, b)),
    decreases i,
{
    let idx = Seq::new(i as nat, |k: int| k);
    if i == 0 {
        assert(idx.filter(child_changed(a, b)) =~= Seq::<int>::empty()) by {
            reveal(Seq::filter);
        }
        assert(idx.filter(child_changed(a, b)).map_values(child_pages(a, b)) =~= Seq::<(PageId, PageId)>::empty());
    } else {
        lemma_differing_children_prefix(a, b, i - 1);
        let prev = Seq::new((i - 1) as nat, |k: int| k);
        assert(idx =~= prev.push(i - 1));
        prev.lemma_filter_push(i - 1, child_changed(a, b));
        assert(a.take(i).drop_last() =~= a.take(i - 1));
        assert(b.take(i).drop_last() =~= b.take(i - 1));
        assert(a.take(i).last() == a[i - 1]);
        assert(b.take(i).last() == b[i - 1]);
        let f = prev.filter(child_changed(a, b));
        assert(f.push(i - 1).map_values(child_pages(a, b)) =~= f.map_values(child_pages(a, b)).push(
            child_pages(a, b)(i - 1),
        ));
    }
}

/// Descending into two subtrees split at the same keys visits exactly the child pairs whose
/// hashes differ, every one of them, in order of their index.
pub proof fn lemma_descend_visits_changed_children(a: Seq<ChildRef>, b: Seq<ChildRef>)
    requires
        a.len() == b.len(),
    ensures
        differing_children(a, b) == Seq::new(a.len(), |k: int| k).filter(child_changed(a, b)).map_values(
            child_pages(a, b),
        ),
        forall|k: int| 0 <= k < a.len() && (#[trigger] a[k]).2 != b[k].2 ==> differing_children(a, b).contains(
            (a[k].1, b[k].1),
        ),
        forall|j: int| #![trigger differing_children(a, b)[j]] 0 <= j < differing_children(a, b).len() ==> exists|k: int|
            0 <= k < a.len() && (#[trigger] a[k]).2 != b[k].2 && differing_children(a, b)[j] == (a[k].1, b[k].1),
{
    lemma_differing_children_prefix(a, b, a.len() as int);
    assert(a.take(a.len() as int) =~= a);
    assert(b.take(b.len() as int) =~= b);
    let idx = Seq::new(a.len(), |k: int| k);
    let f = idx.filter(child_changed(a, b));
    assert forall|k: int| 0 <= k < a.len() && (#[trigger] a[k]).2 != b[k].2 implies differing_children(a, b).contains(
        (a[k].1, b[k].1),
    ) by {
        idx.lemma_filter_contains(child_changed(a, b), k);
        let j = choose|j: int| 0 <= j < f.len() && f[j] == idx[k];
        assert(differing_children(a, b)[j] == (a[k].1, b[k].1));
    }
    assert forall|j: int| #![trigger differing_children(a, b)[j]] 0 <= j < differing_children(a, b).len() implies exists|k: int|
        0 <= k < a.len() && (#[trigger] a[k]).2 != b[k].2 && differing_children(a, b)[j] == (a[k].1, b[k].1) by {
        idx.lemma_filter_pred(child_changed(a, b), j);
        let k = f[j];
        idx.lemma_filter_contains_rev(child_changed(a, b), k);
        assert(idx.contains(k));
        assert(0 <= k < a.len());
        assert(a[k].2 != b[k].2);
    }
}

/// Two subtrees with different hashes, split at the same keys, are compared child by child:
/// the step descends into exactly the children whose hashes differ.
pub proof fn lemma_step_descends_into_changed_children(
    hash_a: ChunkHash,
    hash_b: ChunkHash,
    a: Seq<ChildRef>,
    b: Seq<ChildRef>,
)
    requires
        hash_a != hash_b,
        a.len() > 0,
        same_child_keys(a, b),
    ensures
        subtree_step_spec(hash_a, hash_b, a, b) == SubtreeStepView::Descend(
            Seq::new(a.len(), |k: int| k).filter(child_changed(a, b)).map_values(child_pages(a, b)),
        ),
{
    lemma_descend_visits_changed_children(a, b);
}

/// Moving one more difference adds its new chunk's size (or 32 bytes for its hash where the
/// size is not known) when it has a new side, and 64 bytes of bookkeeping in every case,
/// whether or not it had an old side.
pub proof fn lemma_transfer_adds_one_difference(
    ds: Seq<DiffEntry>,
    sizes: Seq<Option<u64>>,
    d: DiffEntry,
    size: Option<u64>,
)
    requires
        ds.len() == sizes.len(),
    ensures
        total_transfer(Seq::empty(), Seq::empty()) == 0,
        total_transfer(ds.push(d), sizes.push(size)) == total_transfer(ds, sizes) + 64 + (if d.new_hash is None {
            0
        } else {
            match size {
                Some(s) => s as int,
                None => 32,
            }
        }),
{
    assert(ds.push(d).drop_last() =~= ds);
    assert(sizes.push(size).drop_last() =~= sizes);
}

/// The cost of two batches of differences is the sum of their costs.
pub proof fn lemma_transfer_splits(
    ds1: Seq<DiffEntry>,
    s1: Seq<Option<u64>>,
    ds2: Seq<DiffEntry>,
    s2: Seq<Option<u64>>,
)
    requires
        ds1.len() == s1.len(),
        ds2.len() == s2.len(),
    ensures
        total_transfer(ds1 + ds2, s1 + s2) == total_transfer(ds1, s1) + total_transfer(ds2, s2),
    decreases ds2.len(),
{
    if ds2.len() == 0 {
        assert(ds1 + ds2 =~= ds1);
        assert(s1 + s2 =~= s1);
    } else {
        lemma_transfer_splits(ds1, s1, ds2.drop_last(), s2.drop_last());
        assert((ds1 + ds2).drop_last() =~= ds1 + ds2.drop_last());
        assert((s1 + s2).drop_last() =~= s1 + s2.drop_last());
    }
}


/// Subtrees with equal hashes hold the same entries and are skipped; subtrees whose children
/// do not line up key for key are compared entry by entry.
pub proof fn lemma_step_skips_or_compares(hash_a: ChunkHash, hash_b: ChunkHash, a: Seq<ChildRef>, b: Seq<ChildRef>)
    ensures
        hash_a == hash_b ==> subtree_step_spec(hash_a, hash_b, a, b) == SubtreeStepView::Identical,
        hash_a != hash_b && (a.len() == 0 || b.len() == 0 || a.len() != b.len() || exists|k: int|
            0 <= k < a.len() && (#[trigger] a[k]).0 != b[k].0) ==> subtree_step_spec(hash_a, hash_b, a, b)
            == SubtreeStepView::CompareEntries,
{
}

} // verus!
