//! Bookkeeping of the operations shared between peers.
use vstd::prelude::*;
use crate::edl::{EditOp, OpId, PersonalTree, mark_entry};

verus! {

/// Some operation of `ops` carries `id`.
pub open spec fn has_op_id(ops: Seq<EditOp>, id: OpId) -> bool {
    exists|k: int| 0 <= k < ops.len() && ops[k].op_id() == id
}

/// No two operations of `ops` carry the same id.
pub open spec fn op_ids_unique(ops: Seq<EditOp>) -> bool {
    forall|i: int, j: int| 0 <= i < j < ops.len() ==> (#[trigger] ops[i]).op_id() != (#[trigger] ops[j]).op_id()
}

/// Adds `op` to the shared log unless an operation with its id is already there.
pub fn add_if_new(shared: &mut Vec<EditOp>, op: EditOp) -> (added: bool)
    ensures
        added == !has_op_id(old(shared)@, op.op_id()),
        added ==> final(shared)@ == old(shared)@.push(op),
        !added ==> final(shared)@ == old(shared)@,
{
    let id = op.op_id();
    let mut k: usize = 0;
    while k < shared.len()
        invariant
            k <= shared.len(),
            shared@ == old(shared)@,
            id == op.op_id(),
            forall|m: int| 0 <= m < k ==> shared@[m].op_id() != id,
        decreases shared.len() - k,
    {
        if shared[k].op_id() == id {
            assert(shared@[k as int].op_id() == id);
            return false;
        }
        k = k + 1;
    }
    shared.push(op);
    true
}

/// The shared log never holds two operations with the same id.
pub proof fn lemma_add_if_new_keeps_ids_unique(shared: Seq<EditOp>, op: EditOp)
    requires
        op_ids_unique(shared),
    ensures
        op_ids_unique(if has_op_id(shared, op.op_id()) { shared } else { shared.push(op) }),
{
    if !has_op_id(shared, op.op_id()) {
        let s = shared.push(op);
        assert forall|i: int, j: int| 0 <= i < j < s.len() implies (#[trigger] s[i]).op_id() != (#[trigger] s[j]).op_id() by {
            if j == s.len() - 1 {
                assert(shared[i] == s[i]);
            }
        }
    }
}

/// Adding the same operation twice changes nothing the second time.
pub proof fn lemma_add_if_new_idempotent(shared: Seq<EditOp>, op: EditOp)
    ensures
        has_op_id(if has_op_id(shared, op.op_id()) { shared } else { shared.push(op) }, op.op_id()),
{
    if !has_op_id(shared, op.op_id()) {
        assert(shared.push(op)[shared.len() as int] == op);
    }
}

/// After an operation has been broadcast: mark it merged in the personal tree and add it
/// to the shared log unless its id is there already.
pub fn record_pushed(personal: &mut PersonalTree, shared: &mut Vec<EditOp>, op: EditOp)
    ensures
        final(personal)@ == mark_entry(old(personal)@, op.op_id()),
        final(shared)@ == (if has_op_id(old(shared)@, op.op_id()) {
            old(shared)@
        } else {
            old(shared)@.push(op)
        }),
{
    personal.mark_merged(op.op_id());
    add_if_new(shared, op);
}

} // verus!
