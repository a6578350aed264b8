//! The chunk index: a copy-on-write map from timeline positions to chunk
//! descriptions, with every version (root) kept and addressable.
use vstd::prelude::*;
use std::collections::{BTreeMap, HashMap};
use crate::edl::{ChunkHash, Position};
use crate::diff::blake3_digest;
use crate::error::StoreError;
use vstd::std_specs::iter::IteratorSpec;

verus! {

broadcast use {
    vstd::std_specs::hash::group_hash_axioms,
    vstd::std_specs::btree::group_btree_axioms,
    vstd::laws_cmp::group_laws_cmp,
};

/// Identifier of a version of the index.
pub type RootId = u64;

/// A root created from another one.
#[derive(Clone, Copy, Debug, PartialEq, Eq, Structural)]
pub struct Branch {
    pub root: RootId,
    pub branched_from: RootId,
}

/// Description of one stored chunk of video.
#[derive(Clone, Debug, PartialEq, Eq)]
pub struct ChunkEntry {
    pub hash: ChunkHash,
    pub duration_ms: u64,
    pub codec: String,
    pub source_offset: u64,
    pub is_keyframe: bool,
    pub keyframe_offset_ms: u64,
    pub byte_size: u64,
}

impl ChunkEntry {
    pub fn new(
        hash: ChunkHash,
        duration_ms: u64,
        codec: String,
        source_offset: u64,
        is_keyframe: bool,
        keyframe_offset_ms: u64,
        byte_size: u64,
    ) -> (r: Self)
        ensures
            r == (ChunkEntry {
                hash,
                duration_ms,
                codec,
                source_offset,
                is_keyframe,
                keyframe_offset_ms,
                byte_size,
            }),
    {
        ChunkEntry { hash, duration_ms, codec, source_offset, is_keyframe, keyframe_offset_ms, byte_size }
    }

    pub open spec fn seekable(&self) -> bool {
        self.is_keyframe || self.keyframe_offset_ms == 0
    }

    /// Playback can start at this chunk: it is a keyframe, or sits at no offset from one.
    pub fn is_seekable(&self) -> (r: bool)
        ensures
            r == self.seekable(),
    {
        self.is_keyframe || self.keyframe_offset_ms == 0
    }

    /// A field-for-field copy.
    pub fn duplicate(&self) -> (r: Self)
        ensures
            r == *self,
    {
        ChunkEntry {
            hash: self.hash,
            duration_ms: self.duration_ms,
            codec: self.codec.clone(),
            source_offset: self.source_offset,
            is_keyframe: self.is_keyframe,
            keyframe_offset_ms: self.keyframe_offset_ms,
            byte_size: self.byte_size,
        }
    }
}

/// The fields of an entry as plain values.
pub open spec fn entry_fields(e: ChunkEntry) -> (Seq<u8>, u64, Seq<char>, u64, bool, u64, u64) {
    (e.hash@, e.duration_ms, e.codec@, e.source_offset, e.is_keyframe, e.keyframe_offset_ms, e.byte_size)
}

/// `listing` holds the entries of `tree` in increasing order of position.
pub open spec fn is_listing_of(listing: Seq<(Position, ChunkEntry)>, tree: Map<Position, ChunkEntry>) -> bool {
    &&& forall|i: int, j: int| 0 <= i < j < listing.len() ==> (#[trigger] listing[i]).0 < (#[trigger] listing[j]).0
    &&& forall|i: int| 0 <= i < listing.len() ==> tree.contains_key((#[trigger] listing[i]).0)
        && tree[listing[i].0] == listing[i].1
    &&& forall|p: Position| #[trigger] tree.contains_key(p) ==> exists|i: int| 0 <= i < listing.len() && (#[trigger] listing[i]).0 == p
}

/// The bytes of the postcard encoding of a tree.
pub uninterp spec fn postcard_tree_bytes(tree: Map<Position, (Seq<u8>, u64, Seq<char>, u64, bool, u64, u64)>) -> Seq<u8>;

/// Calls `postcard::to_allocvec` on the tree, each entry written as its fields in order.
/// The encoding is a function of the tree's contents alone. It always succeeds: the output is a
/// growable `Vec`, and a `BTreeMap` reports its length, so neither of the encoder's failures
/// (buffer full, length unknown) can occur.
#[verifier::external_body]
fn postcard_encode_tree(tree: &BTreeMap<Position, ChunkEntry>) -> (r: Result<Vec<u8>, String>)
    ensures
        r is Ok,
        r matches Ok(bytes) ==> bytes@ == postcard_tree_bytes(tree@.map_values(|e: ChunkEntry| entry_fields(e))),
{
    let plain: BTreeMap<u64, ([u8; 32], u64, String, u64, bool, u64, u64)> = tree
        .iter()
        .map(|(p, e)| (*p, (e.hash, e.duration_ms, e.codec.clone(), e.source_offset, e.is_keyframe, e.keyframe_offset_ms, e.byte_size)))
        .collect();
    postcard::to_allocvec(&plain).map_err(|e| e.to_string())
}

/// The tree of `root`, or the empty tree when there is no such root.
pub open spec fn tree_or_empty(trees: Map<RootId, Map<Position, ChunkEntry>>, root: RootId) -> Map<Position, ChunkEntry> {
    if trees.contains_key(root) {
        trees[root]
    } else {
        Map::empty()
    }
}

pub open spec fn is_custom_error(r: StoreError, msg: Seq<char>) -> bool {
    r matches StoreError::Custom(m) && m@ == msg
}

/// Storage of the versions of the index.
pub trait TreeStorage: Sized {
    /// The tree of every root.
    spec fn spec_trees(&self) -> Map<RootId, Map<Position, ChunkEntry>>;

    /// The root each derived root was made from.
    spec fn spec_parents(&self) -> Map<RootId, RootId>;

    spec fn spec_current_root(&self) -> RootId;

    /// One more root can be allocated.
    spec fn can_grow(&self) -> bool;

    /// The store is held in memory: it fails only where the contract below names the
    /// failure (a missing root or position on a read), and hands out root ids from a counter.
    spec fn in_memory(&self) -> bool;

    /// The root id the next write hands out, where the store counts them.
    spec fn spec_next_root(&self) -> RootId;

    /// The hash of the tree of `root`.
    spec fn spec_root_hash(&self, root: RootId) -> Seq<u8>;

    /// `e` is an error that listing the tree of `root` may give.
    spec fn listing_error(&self, root: RootId, e: StoreError) -> bool;

    /// `e` is an error that reading `position` in the tree of `root` may give.
    spec fn lookup_error(&self, root: RootId, position: Position, e: StoreError) -> bool;

    /// One more root can be allocated.
    fn has_room(&self) -> (r: bool)
        ensures
            r == self.can_grow(),
    ;

    fn current_root(&self) -> (r: RootId)
        ensures
            r == self.spec_current_root(),
    ;

    /// Creates a new root holding a copy of the tree of `from_root`.
    fn branch_from(&mut self, from_root: RootId) -> (r: Result<RootId, StoreError>)
        requires
            old(self).can_grow(),
        ensures
            r matches Ok(id) ==> {
                &&& !old(self).spec_trees().contains_key(id)
                &&& final(self).spec_trees() == old(self).spec_trees().insert(
                    id,
                    tree_or_empty(old(self).spec_trees(), from_root),
                )
                &&& final(self).spec_parents() == old(self).spec_parents().insert(id, from_root)
            },
            r is Err ==> final(self).spec_trees() == old(self).spec_trees(),
            old(self).in_memory() ==> r is Ok && final(self).in_memory(),
            old(self).in_memory() ==> (r matches Ok(id) && id == old(self).spec_next_root()
                && final(self).spec_next_root() == id + 1),
            final(self).spec_current_root() == old(self).spec_current_root(),
    ;

    /// The root a root was made from.
    fn root_snapshot_id(&self, root: RootId) -> (r: Option<RootId>)
        ensures
            self.in_memory() ==> r == (if self.spec_parents().contains_key(root) {
                Some(self.spec_parents()[root])
            } else {
                None
            }),
            r matches Some(p) ==> self.spec_parents().contains_key(root) && self.spec_parents()[root] == p,
    ;

    /// The BLAKE3 hash of the encoding of a root's tree.
    fn root_hash(&self, root: RootId) -> (r: Result<[u8; 32], StoreError>)
        ensures
            r is Ok ==> self.spec_trees().contains_key(root),
            r matches Ok(h) ==> h@ == self.spec_root_hash(root),
            self.in_memory() && self.spec_trees().contains_key(root) ==> r is Ok,
            self.in_memory() && !self.spec_trees().contains_key(root) ==> (r matches Err(e)
                && is_custom_error(e, "Invalid root"@)),
    ;

    /// Creates a new root: the tree of `root` with `entry` at `position`.
    fn insert_entry(&mut self, root: RootId, position: Position, entry: ChunkEntry) -> (r: Result<RootId, StoreError>)
        requires
            old(self).can_grow(),
        ensures
            r matches Ok(id) ==> {
                &&& !old(self).spec_trees().contains_key(id)
                &&& final(self).spec_trees() == old(self).spec_trees().insert(
                    id,
                    tree_or_empty(old(self).spec_trees(), root).insert(position, entry),
                )
                &&& final(self).spec_parents() == old(self).spec_parents().insert(id, root)
            },
            r is Err ==> final(self).spec_trees() == old(self).spec_trees(),
            old(self).in_memory() ==> r is Ok && final(self).in_memory(),
            old(self).in_memory() ==> (r matches Ok(id) && id == old(self).spec_next_root()
                && final(self).spec_next_root() == id + 1),
            final(self).spec_current_root() == old(self).spec_current_root(),
    ;

    /// Creates a new root: the tree of `root` without `position`.
    fn delete_entry(&mut self, root: RootId, position: Position) -> (r: Result<RootId, StoreError>)
        requires
            old(self).can_grow(),
        ensures
            r matches Ok(id) ==> {
                &&& !old(self).spec_trees().contains_key(id)
                &&& final(self).spec_trees() == old(self).spec_trees().insert(
                    id,
                    tree_or_empty(old(self).spec_trees(), root).remove(position),
                )
                &&& final(self).spec_parents() == old(self).spec_parents().insert(id, root)
            },
            r is Err ==> final(self).spec_trees() == old(self).spec_trees(),
            old(self).in_memory() ==> r is Ok && final(self).in_memory(),
            old(self).in_memory() ==> (r matches Ok(id) && id == old(self).spec_next_root()
                && final(self).spec_next_root() == id + 1),
            final(self).spec_current_root() == old(self).spec_current_root(),
    ;

    /// The entry at `position` in the tree of `root`.
    fn get_entry(&self, root: RootId, position: Position) -> (r: Result<ChunkEntry, StoreError>)
        ensures
            r matches Ok(e) ==> self.spec_trees().contains_key(root) && self.spec_trees()[root].contains_key(position)
                && e == self.spec_trees()[root][position],
            r matches Err(e) ==> self.lookup_error(root, position, e),
            self.in_memory() ==> (r is Ok <==> (self.spec_trees().contains_key(root)
                && self.spec_trees()[root].contains_key(position))),
            self.in_memory() && !self.spec_trees().contains_key(root) ==> (r matches Err(e)
                && is_custom_error(e, "Invalid root"@)),
            self.in_memory() && self.spec_trees().contains_key(root) && !self.spec_trees()[root].contains_key(position)
                ==> (r matches Err(e) && is_custom_error(e, "Key not found"@)),
    ;

    /// Every entry of the tree of `root`, by increasing position.
    fn all_entries(&self, root: RootId) -> (r: Result<Vec<(Position, ChunkEntry)>, StoreError>)
        ensures
            r matches Ok(v) ==> self.spec_trees().contains_key(root) && is_listing_of(v@, self.spec_trees()[root]),
            r matches Err(e) ==> self.listing_error(root, e),
            self.in_memory() ==> (r is Ok <==> self.spec_trees().contains_key(root)),
            self.in_memory() && !self.spec_trees().contains_key(root) ==> (r matches Err(e)
                && is_custom_error(e, "Invalid root"@)),
    ;
}

/// An in-memory store of versions: each root owns its own tree.
pub struct MemoryTreeAdapter {
    roots: HashMap<RootId, BTreeMap<Position, ChunkEntry>>,
    ancestry: HashMap<RootId, RootId>,
    next_root: RootId,
}

impl MemoryTreeAdapter {
    #[verifier::type_invariant]
    spec fn well_formed(&self) -> bool {
        &&& forall|r: RootId| #[trigger] self.roots@.contains_key(r) ==> r < self.next_root
        &&& self.next_root > 0
    }

    /// A store holding one empty root, 0.
    pub fn new() -> (r: Self)
        ensures
            r.spec_trees() == Map::<RootId, Map<Position, ChunkEntry>>::empty().insert(0, Map::empty()),
            r.spec_parents() == Map::<RootId, RootId>::empty(),
            r.spec_next_root() == 1,
    {
        let mut roots: HashMap<RootId, BTreeMap<Position, ChunkEntry>> = HashMap::new();
        roots.insert(0, BTreeMap::new());
        let r = MemoryTreeAdapter { roots, ancestry: HashMap::new(), next_root: 1 };
        assert(r.roots@.map_values(|t: BTreeMap<Position, ChunkEntry>| t@) =~= Map::<RootId, Map<Position, ChunkEntry>>::empty().insert(0, Map::empty()));
        r
    }

    fn tree_copy(&self, root: RootId) -> (t: BTreeMap<Position, ChunkEntry>)
        ensures
            t@ == tree_or_empty(self.spec_trees(), root),
    {
        match self.roots.get(&root) {
            Some(tree) => tree.clone(),
            None => BTreeMap::new(),
        }
    }

    fn store_new_root(&mut self, parent: RootId, tree: BTreeMap<Position, ChunkEntry>) -> (id: RootId)
        requires
            old(self).spec_next_root() < u64::MAX,
        ensures
            id == old(self).spec_next_root(),
            !old(self).spec_trees().contains_key(id),
            final(self).spec_trees() == old(self).spec_trees().insert(id, tree@),
            final(self).spec_parents() == old(self).spec_parents().insert(id, parent),
            final(self).spec_next_root() == id + 1,
    {
        proof {
            use_type_invariant(&*self);
        }
        let new_id = self.next_root;
        let ghost old_trees = self.spec_trees();
        let mut roots: HashMap<RootId, BTreeMap<Position, ChunkEntry>> = HashMap::new();
        std::mem::swap(&mut roots, &mut self.roots);
        let mut ancestry: HashMap<RootId, RootId> = HashMap::new();
        std::mem::swap(&mut ancestry, &mut self.ancestry);
        self.next_root = new_id + 1;
        roots.insert(new_id, tree);
        ancestry.insert(new_id, parent);
        self.roots = roots;
        self.ancestry = ancestry;
        assert(self.spec_trees() =~= old_trees.insert(new_id, tree@));
        new_id
    }
}

impl TreeStorage for MemoryTreeAdapter {
    closed spec fn spec_trees(&self) -> Map<RootId, Map<Position, ChunkEntry>> {
        self.roots@.map_values(|t: BTreeMap<Position, ChunkEntry>| t@)
    }

    closed spec fn spec_parents(&self) -> Map<RootId, RootId> {
        self.ancestry@
    }

    open spec fn spec_current_root(&self) -> RootId {
        0
    }

    open spec fn can_grow(&self) -> bool {
        self.spec_next_root() < u64::MAX
    }

    open spec fn in_memory(&self) -> bool {
        true
    }

    closed spec fn spec_next_root(&self) -> RootId {
        self.next_root
    }

    /// BLAKE3 of the postcard encoding of the tree.
    open spec fn spec_root_hash(&self, root: RootId) -> Seq<u8> {
        crate::diff::blake3_hash(postcard_tree_bytes(
            self.spec_trees()[root].map_values(|e: ChunkEntry| entry_fields(e)),
        ))
    }

    open spec fn listing_error(&self, root: RootId, e: StoreError) -> bool {
        !self.spec_trees().contains_key(root) && is_custom_error(e, "Invalid root"@)
    }

    open spec fn lookup_error(&self, root: RootId, position: Position, e: StoreError) -> bool {
        ||| !self.spec_trees().contains_key(root) && is_custom_error(e, "Invalid root"@)
        ||| self.spec_trees().contains_key(root) && !self.spec_trees()[root].contains_key(position)
            && is_custom_error(e, "Key not found"@)
    }

    fn has_room(&self) -> (r: bool) {
        self.next_root < u64::MAX
    }

    fn current_root(&self) -> (r: RootId) {
        0
    }

    fn branch_from(&mut self, from_root: RootId) -> (r: Result<RootId, StoreError>) {
        let tree = self.tree_copy(from_root);
        let id = self.store_new_root(from_root, tree);
        Ok(id)
    }

    fn root_snapshot_id(&self, root: RootId) -> (r: Option<RootId>) {
        match self.ancestry.get(&root) {
            Some(p) => Some(*p),
            None => None,
        }
    }

    fn root_hash(&self, root: RootId) -> (r: Result<[u8; 32], StoreError>) {
        match self.roots.get(&root) {
            None => Err(StoreError::Custom("Invalid root".to_string())),
            Some(tree) => {
                match postcard_encode_tree(tree) {
                    Ok(bytes) => Ok(blake3_digest(bytes.as_slice())),
                    Err(msg) => Err(StoreError::Custom(msg)),
                }
            },
        }
    }

    fn insert_entry(&mut self, root: RootId, position: Position, entry: ChunkEntry) -> (r: Result<RootId, StoreError>) {
        let mut tree = self.tree_copy(root);
        tree.insert(position, entry);
        let id = self.store_new_root(root, tree);
        Ok(id)
    }

    fn delete_entry(&mut self, root: RootId, position: Position) -> (r: Result<RootId, StoreError>) {
        let mut tree = self.tree_copy(root);
        tree.remove(&position);
        let id = self.store_new_root(root, tree);
        Ok(id)
    }

    fn get_entry(&self, root: RootId, position: Position) -> (r: Result<ChunkEntry, StoreError>) {
        match self.roots.get(&root) {
            None => Err(StoreError::Custom("Invalid root".to_string())),
            Some(tree) => match tree.get(&position) {
                Some(e) => Ok(e.duplicate()),
                None => Err(StoreError::Custom("Key not found".to_string())),
            },
        }
    }

    fn all_entries(&self, root: RootId) -> (r: Result<Vec<(Position, ChunkEntry)>, StoreError>) {
        match self.roots.get(&root) {
            None => Err(StoreError::Custom("Invalid root".to_string())),
            Some(tree) => Ok(listing(tree)),
        }
    }
}

fn listing(tree: &BTreeMap<Position, ChunkEntry>) -> (v: Vec<(Position, ChunkEntry)>)
    ensures
        is_listing_of(v@, tree@),
{
    let mut v: Vec<(Position, ChunkEntry)> = Vec::new();
    let ghost items = vstd::std_specs::btree::spec_btree_map_iter(tree).remaining();
    for kv in it: tree.iter()
        invariant
            it.seq() == items,
            v@.len() == it.index(),
            forall|k: int| 0 <= k < v@.len() ==> #[trigger] v@[k] == (*items[k].0, *items[k].1),
    {
        let (p, e) = kv;
        v.push((*p, e.duplicate()));
    }
    proof {
        let keys = items.map_values(|kv: (&Position, &ChunkEntry)| *kv.0);
        assert(vstd::std_specs::btree::increasing_seq(keys));
        crate::order::lemma_increasing_keys(keys);
        assert forall|i: int, j: int| 0 <= i < j < v@.len() implies (#[trigger] v@[i]).0 < (#[trigger] v@[j]).0 by {
            assert(keys[i] == v@[i].0);
            assert(keys[j] == v@[j].0);
        }
        assert forall|i: int| 0 <= i < v@.len() implies tree@.contains_key((#[trigger] v@[i]).0)
            && tree@[v@[i].0] == v@[i].1 by {
            assert(tree@.contains_key(*items[i].0));
        }
        assert forall|p: Position| #[trigger] tree@.contains_key(p) implies exists|i: int|
            0 <= i < v@.len() && (#[trigger] v@[i]).0 == p by {
            assert(items.contains((&p, &tree@[p])));
            let i = choose|i: int| 0 <= i < items.len() && items[i] == (&p, &tree@[p]);
            assert(v@[i].0 == p);
        }
    }
    v
}

/// The entries of `tree` at positions in `[start, end)`.
pub open spec fn tree_in_span(tree: Map<Position, ChunkEntry>, start: Position, end: Position) -> Map<Position, ChunkEntry> {
    tree.restrict(Set::new(|p: Position| start <= p < end))
}

/// `found` is the seekable entry at the greatest position not after `position`, if there is one.
pub open spec fn is_nearest_keyframe(
    tree: Map<Position, ChunkEntry>,
    position: Position,
    found: Option<(Position, ChunkEntry)>,
) -> bool {
    match found {
        Some((p, e)) => {
            &&& tree.contains_key(p)
            &&& tree[p] == e
            &&& p <= position
            &&& e.seekable()
            &&& forall|q: Position| #[trigger] tree.contains_key(q) && p < q <= position ==> !tree[q].seekable()
        },
        None => forall|q: Position| #[trigger] tree.contains_key(q) && q <= position ==> !tree[q].seekable(),
    }
}

/// The chunk index over a version store.
pub struct GenericChunkIndex<S: TreeStorage> {
    storage: S,
}

/// The chunk index kept in memory.
pub type MemoryChunkIndex = GenericChunkIndex<MemoryTreeAdapter>;

impl GenericChunkIndex<MemoryTreeAdapter> {
    /// An index in memory with one empty root, 0.
    pub fn memory() -> (r: Self)
        ensures
            r.trees() == Map::<RootId, Map<Position, ChunkEntry>>::empty().insert(0, Map::empty()),
            r.spec_storage().spec_next_root() == 1,
            r.spec_storage().can_grow(),
    {
        Self::new(MemoryTreeAdapter::new())
    }
}

impl<S: TreeStorage> GenericChunkIndex<S> {
    /// The version store behind the index.
    pub closed spec fn spec_storage(&self) -> S {
        self.storage
    }

    pub open spec fn trees(&self) -> Map<RootId, Map<Position, ChunkEntry>> {
        self.spec_storage().spec_trees()
    }

    pub open spec fn parents(&self) -> Map<RootId, RootId> {
        self.spec_storage().spec_parents()
    }

    pub fn new(storage: S) -> (r: Self)
        ensures
            r.spec_storage() == storage,
    {
        GenericChunkIndex { storage }
    }

    pub fn storage(&self) -> (r: &S)
        ensures
            *r == self.spec_storage(),
    {
        &self.storage
    }

    pub fn current_root(&self) -> (r: RootId)
        ensures
            r == self.spec_storage().spec_current_root(),
    {
        self.storage.current_root()
    }

    /// Starts a new root from `from`, holding a copy of its tree.
    pub fn branch(&mut self, from: RootId) -> (r: Result<Branch, StoreError>)
        requires
            old(self).spec_storage().can_grow(),
        ensures
            r matches Ok(b) ==> {
                &&& b.branched_from == from
                &&& !old(self).trees().contains_key(b.root)
                &&& final(self).trees() == old(self).trees().insert(b.root, tree_or_empty(old(self).trees(), from))
                &&& final(self).parents() == old(self).parents().insert(b.root, from)
            },
            r is Err ==> final(self).trees() == old(self).trees(),
            old(self).spec_storage().in_memory() ==> r is Ok && final(self).spec_storage().in_memory(),
            old(self).spec_storage().in_memory() ==> (r matches Ok(b) && b.root == old(self).spec_storage().spec_next_root()
                && final(self).spec_storage().spec_next_root() == b.root + 1),
    {
        let root = self.storage.branch_from(from)?;
        Ok(Branch { root, branched_from: from })
    }

    /// The root that `root` was derived from.
    pub fn branched_from(&self, root: RootId) -> (r: Option<RootId>)
        ensures
            self.spec_storage().in_memory() ==> r == (if self.parents().contains_key(root) {
                Some(self.parents()[root])
            } else {
                None
            }),
            r matches Some(p) ==> self.parents().contains_key(root) && self.parents()[root] == p,
    {
        self.storage.root_snapshot_id(root)
    }

    /// One more root can be allocated.
    pub fn has_room(&self) -> (r: bool)
        ensures
            r == self.spec_storage().can_grow(),
    {
        self.storage.has_room()
    }

    /// The hash of the tree of `root`.
    pub fn root_hash(&self, root: RootId) -> (r: Result<[u8; 32], StoreError>)
        ensures
            r is Ok ==> self.trees().contains_key(root),
            r matches Ok(h) ==> h@ == self.spec_storage().spec_root_hash(root),
            self.spec_storage().in_memory() && self.trees().contains_key(root) ==> r is Ok,
            self.spec_storage().in_memory() && !self.trees().contains_key(root) ==> (r matches Err(e)
                && is_custom_error(e, "Invalid root"@)),
    {
        self.storage.root_hash(root)
    }

    /// A new root: the tree of `root` with `entry` at `position`; `root` itself is unchanged.
    pub fn insert(&mut self, root: RootId, position: Position, entry: ChunkEntry) -> (r: Result<RootId, StoreError>)
        requires
            old(self).spec_storage().can_grow(),
        ensures
            r matches Ok(id) ==> {
                &&& !old(self).trees().contains_key(id)
                &&& final(self).trees() == old(self).trees().insert(id, tree_or_empty(old(self).trees(), root).insert(position, entry))
                &&& final(self).parents() == old(self).parents().insert(id, root)
            },
            r is Err ==> final(self).trees() == old(self).trees(),
            old(self).spec_storage().in_memory() ==> r is Ok && final(self).spec_storage().in_memory(),
            old(self).spec_storage().in_memory() ==> (r matches Ok(id) && id == old(self).spec_storage().spec_next_root()
                && final(self).spec_storage().spec_next_root() == id + 1),
    {
        self.storage.insert_entry(root, position, entry)
    }

    /// A new root: the tree of `root` without `position`; `root` itself is unchanged.
    pub fn delete(&mut self, root: RootId, position: Position) -> (r: Result<RootId, StoreError>)
        requires
            old(self).spec_storage().can_grow(),
        ensures
            r matches Ok(id) ==> {
                &&& !old(self).trees().contains_key(id)
                &&& final(self).trees() == old(self).trees().insert(id, tree_or_empty(old(self).trees(), root).remove(position))
                &&& final(self).parents() == old(self).parents().insert(id, root)
            },
            r is Err ==> final(self).trees() == old(self).trees(),
            old(self).spec_storage().in_memory() ==> r is Ok && final(self).spec_storage().in_memory(),
            old(self).spec_storage().in_memory() ==> (r matches Ok(id) && id == old(self).spec_storage().spec_next_root()
                && final(self).spec_storage().spec_next_root() == id + 1),
    {
        self.storage.delete_entry(root, position)
    }

    pub fn get(&self, root: RootId, position: Position) -> (r: Result<ChunkEntry, StoreError>)
        ensures
            r matches Ok(e) ==> self.trees().contains_key(root) && self.trees()[root].contains_key(position)
                && e == self.trees()[root][position],
            r matches Err(e) ==> self.spec_storage().lookup_error(root, position, e),
            self.spec_storage().in_memory() ==> (r is Ok <==> (self.trees().contains_key(root)
                && self.trees()[root].contains_key(position))),
    {
        self.storage.get_entry(root, position)
    }

    pub fn all(&self, root: RootId) -> (r: Result<Vec<(Position, ChunkEntry)>, StoreError>)
        ensures
            r matches Ok(v) ==> self.trees().contains_key(root) && is_listing_of(v@, self.trees()[root]),
            r matches Err(e) ==> self.spec_storage().listing_error(root, e),
            self.spec_storage().in_memory() ==> (r is Ok <==> self.trees().contains_key(root)),
    {
        self.storage.all_entries(root)
    }

    /// The entries of `root` whose position lies in `span`, by increasing position.
    pub fn range(&self, root: RootId, span: std::ops::Range<Position>) -> (r: Result<Vec<(Position, ChunkEntry)>, StoreError>)
        ensures
            r matches Ok(v) ==> self.trees().contains_key(root) && is_listing_of(
                v@,
                tree_in_span(self.trees()[root], span.start, span.end),
            ),
            r matches Err(e) ==> self.spec_storage().listing_error(root, e),
            self.spec_storage().in_memory() ==> (r is Ok <==> self.trees().contains_key(root)),
    {
        let all = self.all(root)?;
        let ghost tree = self.trees()[root];
        let ghost sub = tree_in_span(tree, span.start, span.end);
        let mut out: Vec<(Position, ChunkEntry)> = Vec::new();
        let mut i: usize = 0;
        while i < all.len()
            invariant
                i <= all.len(),
                is_listing_of(all@, tree),
                sub == tree_in_span(tree, span.start, span.end),
                forall|a: int, b: int| 0 <= a < b < out@.len() ==> (#[trigger] out@[a]).0 < (#[trigger] out@[b]).0,
                forall|a: int| 0 <= a < out@.len() ==> sub.contains_key((#[trigger] out@[a]).0)
                    && sub[out@[a].0] == out@[a].1,
                forall|a: int| 0 <= a < out@.len() ==> exists|k: int| 0 <= k < i && (#[trigger] out@[a]).0 == all@[k].0,
                forall|k: int| 0 <= k < i && span.start <= (#[trigger] all@[k]).0 < span.end ==> exists|a: int|
                    0 <= a < out@.len() && (#[trigger] out@[a]).0 == all@[k].0,
            decreases all.len() - i,
        {
            let pos = all[i].0;
            let ghost old_out = out@;
            if span.start <= pos && pos < span.end {
                proof {
                    assert forall|a: int| 0 <= a < out@.len() implies (#[trigger] out@[a]).0 < pos by {
                        let k = choose|k: int| 0 <= k < i && out@[a].0 == all@[k].0;
                        assert(all@[k].0 < all@[i as int].0);
                    }
                }
                out.push((pos, all[i].1.duplicate()));
                proof {
                    assert(out@[out@.len() - 1].0 == all@[i as int].0);
                }
            }
            proof {
                assert forall|k: int| 0 <= k < i + 1 && span.start <= (#[trigger] all@[k]).0 < span.end implies exists|a: int|
                    0 <= a < out@.len() && (#[trigger] out@[a]).0 == all@[k].0 by {
                    if k == i {
                        assert(out@[out@.len() - 1].0 == all@[k].0);
                    } else {
                        let a = choose|a: int| 0 <= a < old_out.len() && (#[trigger] old_out[a]).0 == all@[k].0;
                        assert(out@[a] == old_out[a]);
                    }
                }
                assert forall|a: int| 0 <= a < out@.len() implies exists|k: int| 0 <= k < i + 1 && (#[trigger] out@[a]).0 == all@[k].0 by {
                    if a < old_out.len() {
                        assert(out@[a] == old_out[a]);
                        let k = choose|k: int| 0 <= k < i && (#[trigger] old_out[a]).0 == all@[k].0;
                    } else {
                        assert(out@[a].0 == all@[i as int].0);
                    }
                }
            }
            i = i + 1;
        }
        proof {
            assert forall|p: Position| #[trigger] sub.contains_key(p) implies exists|a: int|
                0 <= a < out@.len() && (#[trigger] out@[a]).0 == p by {
                assert(tree.contains_key(p));
                let k = choose|k: int| 0 <= k < all@.len() && (#[trigger] all@[k]).0 == p;
                assert(span.start <= all@[k].0 < span.end);
            }
        }
        Ok(out)
    }

    /// The seekable entry at the greatest position not after `position`.
    pub fn find_nearest_keyframe(&self, root: RootId, position: Position) -> (r: Result<Option<(Position, ChunkEntry)>, StoreError>)
        ensures
            r matches Ok(found) ==> self.trees().contains_key(root) && is_nearest_keyframe(
                self.trees()[root],
                position,
                found,
            ),
            r matches Err(e) ==> self.spec_storage().listing_error(root, e),
            self.spec_storage().in_memory() ==> (r is Ok <==> self.trees().contains_key(root)),
    {
        let all = self.all(root)?;
        let ghost tree = self.trees()[root];
        let mut best: Option<(Position, ChunkEntry)> = None;
        let mut i: usize = 0;
        while i < all.len()
            invariant
                i <= all.len(),
                is_listing_of(all@, tree),
                match best {
                    Some((p, e)) => {
                        &&& tree.contains_key(p)
                        &&& tree[p] == e
                        &&& p <= position
                        &&& e.seekable()
                        &&& exists|k: int| 0 <= k < i && (#[trigger] all@[k]).0 == p
                        &&& forall|k: int| 0 <= k < i && p < (#[trigger] all@[k]).0 <= position ==> !all@[k].1.seekable()
                    },
                    None => forall|k: int| 0 <= k < i && (#[trigger] all@[k]).0 <= position ==> !all@[k].1.seekable(),
                },
            decreases all.len() - i,
        {
            let pos = all[i].0;
            if pos <= position && all[i].1.is_seekable() {
                best = Some((pos, all[i].1.duplicate()));
            } else {
                proof {
                    if best is Some {
                        let p = best.unwrap().0;
                        let k = choose|k: int| 0 <= k < i && (#[trigger] all@[k]).0 == p;
                        assert(all@[k].0 < all@[i as int].0);
                    }
                }
            }
            i = i + 1;
        }
        proof {
            if best is Some {
                    let p = best.unwrap().0;
                    assert forall|q: Position| #[trigger] tree.contains_key(q) && p < q <= position implies !tree[q].seekable() by {
                        let k = choose|k: int| 0 <= k < all@.len() && (#[trigger] all@[k]).0 == q;
                    }
            } else {
                    assert forall|q: Position| #[trigger] tree.contains_key(q) && q <= position implies !tree[q].seekable() by {
                        let k = choose|k: int| 0 <= k < all@.len() && (#[trigger] all@[k]).0 == q;
                    }
            }
        }
        Ok(best)
    }
}

// ---------------------------------------------------------------------------
// Laws of the versioned index
// ---------------------------------------------------------------------------

/// Reading the new root after an insert gives the entry written, and every other position
/// as it was in the root written to.
pub proof fn lemma_read_after_insert(
    before: Map<RootId, Map<Position, ChunkEntry>>,
    root: RootId,
    id: RootId,
    position: Position,
    entry: ChunkEntry,
    q: Position,
)
    ensures
        ({
            let after = before.insert(id, tree_or_empty(before, root).insert(position, entry));
            &&& after[id].contains_key(position)
            &&& after[id][position] == entry
            &&& q != position ==> (after[id].contains_key(q) == tree_or_empty(before, root).contains_key(q))
            &&& q != position && after[id].contains_key(q) ==> after[id][q] == tree_or_empty(before, root)[q]
        }),
{
}

/// A delete removes the position from the new root and leaves the rest as it was.
pub proof fn lemma_read_after_delete(
    before: Map<RootId, Map<Position, ChunkEntry>>,
    root: RootId,
    id: RootId,
    position: Position,
    q: Position,
)
    ensures
        ({
            let after = before.insert(id, tree_or_empty(before, root).remove(position));
            &&& !after[id].contains_key(position)
            &&& q != position ==> (after[id].contains_key(q) == tree_or_empty(before, root).contains_key(q))
            &&& q != position && after[id].contains_key(q) ==> after[id][q] == tree_or_empty(before, root)[q]
        }),
{
}

/// Persistence: a write that creates a fresh root leaves every existing root as it was.
pub proof fn lemma_existing_roots_unchanged(
    before: Map<RootId, Map<Position, ChunkEntry>>,
    id: RootId,
    tree: Map<Position, ChunkEntry>,
    r: RootId,
)
    requires
        !before.contains_key(id),
        before.contains_key(r),
    ensures
        before.insert(id, tree).contains_key(r),
        before.insert(id, tree)[r] == before[r],
{
}

/// A branch starts with exactly the entries of the root it was taken from.
pub proof fn lemma_branch_copies(
    before: Map<RootId, Map<Position, ChunkEntry>>,
    from: RootId,
    id: RootId,
)
    requires
        before.contains_key(from),
    ensures
        before.insert(id, tree_or_empty(before, from))[id] == before[from],
{
}

/// Inserting the same entry at the same position twice gives the same tree as once.
pub proof fn lemma_insert_idempotent(tree: Map<Position, ChunkEntry>, position: Position, entry: ChunkEntry)
    ensures
        tree.insert(position, entry).insert(position, entry) == tree.insert(position, entry),
{
    assert(tree.insert(position, entry).insert(position, entry) =~= tree.insert(position, entry));
}

/// Deleting an entry just inserted at a fresh position gives the tree back.
pub proof fn lemma_delete_undoes_insert(tree: Map<Position, ChunkEntry>, position: Position, entry: ChunkEntry)
    requires
        !tree.contains_key(position),
    ensures
        tree.insert(position, entry).remove(position) == tree,
{
    assert(tree.insert(position, entry).remove(position) =~= tree);
}

} // verus!
