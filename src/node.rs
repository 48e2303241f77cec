//! A storage node: one slot range and its field store, the write gate, and
//! the node's side of the migration handshake.
//!
//! Remote calls (reporting capacity to the manager, streaming a transfer
//! set, asking the manager about a sender) are made by the host; the state
//! here takes their outcomes as arguments.
use vstd::prelude::*;
use crate::allot::CanisterNodeMap;
use crate::hashset::{
    fields_of, in_slot_range, keys_in_range, keys_outside_range, store_get, store_has, store_insert, store_merge, store_remove,
    HashSet, StoreMap,
};
use crate::node_id::NodeId;

verus! {

/// A node checks its storage after every this many outer keys.
pub const INDEX_LIMIT: usize = 1000;

/// Storage use, in bytes, above which a node reports itself full.
pub const MEMORY_LIMIT: u64 = 2 * 1024 * 1024 * 1024;

/// What a node is installed with: its manager and its slot range.
#[derive(Clone, Debug)]
pub struct NodeInitArgs {
    pub manager_id: NodeId,
    pub start_node: u32,
    pub end_node: u32,
}

/// The state of a storage node.
#[derive(Clone, Debug)]
pub struct CanisterState {
    pub likes: HashSet,
    pub init_args: NodeInitArgs,
    pub migrating_data: bool,
    pub owner: NodeId,
}

/// Why a node turned a call down.
#[derive(Clone, Copy, Debug, PartialEq, Eq, Structural)]
pub enum NodeError {
    /// A migration is under way: writes wait until it ends.
    Migrating,
    /// Only the node's owner may write.
    NotOwner,
    /// Only the node's manager may hand it a migration target.
    NotManager,
    /// The manager does not know the node that sent a batch.
    UnknownSender,
}

/// The state after a write: only the store changes.
pub open spec fn with_store(s: CanisterState, m: StoreMap, new: CanisterState) -> bool {
    &&& new.likes@ == m
    &&& new.init_args == s.init_args
    &&& new.migrating_data == s.migrating_data
    &&& new.owner == s.owner
}

/// `new` is what `s` becomes once it has handed off the slots
/// `start ..= end`: the keys of that range have left its store for
/// `moved`, the rest stays, and the write gate is closed.
pub open spec fn hands_off(s: CanisterState, start: u32, end: u32, new: CanisterState, moved: StoreMap) -> bool {
    &&& moved == keys_in_range(s.likes@, start, end)
    &&& new.likes@ == keys_outside_range(s.likes@, start, end)
    &&& new.migrating_data
    &&& new.init_args == s.init_args
    &&& new.owner == s.owner
}

/// `new` is what `s` becomes once it has taken in `batch` from a known
/// sender: the batch is written in field by field and the write gate is
/// open.
pub open spec fn takes_in(s: CanisterState, batch: StoreMap, new: CanisterState) -> bool {
    &&& new.likes@ == store_merge(s.likes@, batch)
    &&& !new.migrating_data
    &&& new.init_args == s.init_args
    &&& new.owner == s.owner
}

/// `r` is the answer that state `s` gives to a read of `key` and `field`.
pub open spec fn read_answers(s: CanisterState, key: Seq<char>, field: Seq<char>, r: Option<Vec<u8>>) -> bool {
    match r {
        Some(v) => store_get(s.likes@, key, field) == Some(v@),
        None => store_get(s.likes@, key, field) is None,
    }
}

/// Two reads of the same key and field with no write between them give
/// the same answer.
pub proof fn lemma_reads_repeat(
    s: CanisterState,
    key: Seq<char>,
    field: Seq<char>,
    r1: Option<Vec<u8>>,
    r2: Option<Vec<u8>>,
)
    requires
        read_answers(s, key, field, r1),
        read_answers(s, key, field, r2),
    ensures
        r1 is Some <==> r2 is Some,
        r1 is Some ==> r1->Some_0@ == r2->Some_0@,
{
}

/// A hand-off without failures moves exactly the moved range: once the
/// source has taken out the keys whose slot lies in `[start, end]` and the
/// destination has written them in, every such key of the source is gone
/// from the source and found on the destination with all its fields (and
/// holds nothing else there when the destination did not have it), while
/// every other key keeps its fields on the source and is not touched on
/// the destination.
pub proof fn lemma_migration_complete(src: StoreMap, dst: StoreMap, start: u32, end: u32)
    ensures
        ({
            let src_after = keys_outside_range(src, start, end);
            let dst_after = store_merge(dst, keys_in_range(src, start, end));
            forall|k: Seq<char>|
                #![trigger src.contains_key(k)]
                #![trigger src_after.contains_key(k)]
                #![trigger dst_after.contains_key(k)]
                {
                    &&& in_slot_range(k, start, end) ==> {
                        &&& !src_after.contains_key(k)
                        &&& src.contains_key(k) ==> dst_after.contains_key(k) && dst_after[k]
                            == fields_of(dst, k).union_prefer_right(src[k])
                        &&& src.contains_key(k) && !dst.contains_key(k) ==> dst_after[k] == src[k]
                    }
                    &&& !in_slot_range(k, start, end) ==> {
                        &&& src_after.contains_key(k) == src.contains_key(k)
                        &&& src.contains_key(k) ==> src_after[k] == src[k]
                        &&& dst_after.contains_key(k) == dst.contains_key(k)
                        &&& dst.contains_key(k) ==> dst_after[k] == dst[k]
                    }
                }
        }),
{
    let dst_after = store_merge(dst, keys_in_range(src, start, end));
    assert forall|k: Seq<char>| src.contains_key(k) && !dst.contains_key(k) && in_slot_range(k, start, end)
        implies dst_after[k] == src[k] by {
        assert(fields_of(dst, k).union_prefer_right(src[k]) =~= src[k]);
    }
}

/// A hand-off between two nodes without failures moves exactly the keys of
/// the moved range: when the source has handed off `start ..= end` and the
/// destination, which held no key of that range, has taken in the transfer
/// set, each key of the range is gone from the source and found on the
/// destination with the same fields; each other key of the source keeps
/// its fields there, the source gains no key, and the destination's own
/// keys keep their fields.
pub proof fn lemma_hand_off_complete(
    src: CanisterState,
    src_after: CanisterState,
    moved: StoreMap,
    dst: CanisterState,
    dst_after: CanisterState,
    start: u32,
    end: u32,
)
    requires
        hands_off(src, start, end, src_after, moved),
        takes_in(dst, moved, dst_after),
        forall|k: Seq<char>| #[trigger] dst.likes@.contains_key(k) ==> !in_slot_range(k, start, end),
    ensures
        forall|k: Seq<char>| #[trigger] src.likes@.contains_key(k) && in_slot_range(k, start, end) ==> {
            &&& !src_after.likes@.contains_key(k)
            &&& dst_after.likes@.contains_key(k)
            &&& dst_after.likes@[k] == src.likes@[k]
        },
        forall|k: Seq<char>| #[trigger] src.likes@.contains_key(k) && !in_slot_range(k, start, end) ==> {
            &&& src_after.likes@.contains_key(k)
            &&& src_after.likes@[k] == src.likes@[k]
        },
        forall|k: Seq<char>| #[trigger] src_after.likes@.contains_key(k) ==> src.likes@.contains_key(k),
        forall|k: Seq<char>| #[trigger] dst.likes@.contains_key(k) ==> {
            &&& dst_after.likes@.contains_key(k)
            &&& dst_after.likes@[k] == dst.likes@[k]
        },
{
    lemma_migration_complete(src.likes@, dst.likes@, start, end);
    assert forall|k: Seq<char>| #[trigger] src.likes@.contains_key(k) && in_slot_range(k, start, end) implies {
        &&& !src_after.likes@.contains_key(k)
        &&& dst_after.likes@.contains_key(k)
        &&& dst_after.likes@[k] == src.likes@[k]
    } by {
        assert(!dst.likes@.contains_key(k));
    }
}

/// Streaming a transfer set in parts with no outer key in common, one
/// after the other, writes the same as writing it whole.
pub proof fn lemma_merge_in_parts(a: StoreMap, b1: StoreMap, b2: StoreMap)
    requires
        b1.dom().disjoint(b2.dom()),
    ensures
        store_merge(store_merge(a, b1), b2) == store_merge(a, b1.union_prefer_right(b2)),
{
    let l = store_merge(store_merge(a, b1), b2);
    let r = store_merge(a, b1.union_prefer_right(b2));
    assert forall|k: Seq<char>| #[trigger] l.contains_key(k) implies l[k] == r[k] by {
        if b2.contains_key(k) {
            assert(!b1.contains_key(k));
            assert(fields_of(store_merge(a, b1), k) == fields_of(a, k));
        }
    }
    assert(l =~= r);
}

impl NodeInitArgs {
    /// Init arguments that name no manager and an empty range at slot 0.
    pub fn new() -> (r: NodeInitArgs)
        ensures
            r.manager_id@ == Seq::<u8>::empty(),
            r.start_node == 0,
            r.end_node == 0,
    {
        NodeInitArgs { manager_id: NodeId::null(), start_node: 0, end_node: 0 }
    }
}

impl CanisterState {
    /// The store is well formed.
    pub open spec fn wf(&self) -> bool {
        self.likes.wf()
    }

    /// A node with an empty store, no manager and no owner.
    pub fn new() -> (r: CanisterState)
        ensures
            r.wf(),
            r.likes@ == StoreMap::empty(),
            !r.migrating_data,
            r.owner@ == Seq::<u8>::empty(),
            r.init_args.manager_id@ == Seq::<u8>::empty(),
            r.init_args.start_node == 0,
            r.init_args.end_node == 0,
    {
        CanisterState {
            likes: HashSet::new(),
            init_args: NodeInitArgs::new(),
            migrating_data: false,
            owner: NodeId::null(),
        }
    }

    /// A freshly installed node: empty, serving, with the init arguments it
    /// was installed with and the installer as its owner.
    pub fn init(init_args: NodeInitArgs, owner: NodeId) -> (r: CanisterState)
        ensures
            r.wf(),
            r.likes@ == StoreMap::empty(),
            !r.migrating_data,
            r.owner == owner,
            r.init_args == init_args,
    {
        CanisterState { likes: HashSet::new(), init_args, migrating_data: false, owner }
    }

    /// The node's manager.
    pub fn get_allot_id(&self) -> (r: &NodeId)
        ensures
            r == &self.init_args.manager_id,
    {
        &self.init_args.manager_id
    }

    /// Writes `value` under `key` and `field`. Turned down, with nothing
    /// changed, while a migration is under way or when the caller is not
    /// the owner.
    pub fn hset(&mut self, caller: &NodeId, key: String, field: String, value: Vec<u8>) -> (r: Result<
        bool,
        NodeError,
    >)
        requires
            old(self).wf(),
        ensures
            final(self).wf(),
            old(self).migrating_data ==> r == Err::<bool, NodeError>(NodeError::Migrating) && *final(self)
                == *old(self),
            !old(self).migrating_data && caller@ != old(self).owner@ ==> r == Err::<bool, NodeError>(
                NodeError::NotOwner,
            ) && *final(self) == *old(self),
            !old(self).migrating_data && caller@ == old(self).owner@ ==> r == Ok::<bool, NodeError>(true)
                && with_store(*old(self), store_insert(old(self).likes@, key@, field@, value@), *final(self)),
    {
        if self.migrating_data {
            return Err(NodeError::Migrating);
        }
        if !caller.same_as(&self.owner) {
            return Err(NodeError::NotOwner);
        }
        Ok(self.likes.insert(key, field, value))
    }

    /// Removes the value under `key` and `field`, and the outer key with it
    /// when that was its last field; answers whether the value was there.
    /// Turned down, with nothing changed, while a migration is under way or
    /// when the caller is not the owner.
    pub fn hdel(&mut self, caller: &NodeId, key: String, field: String) -> (r: Result<bool, NodeError>)
        requires
            old(self).wf(),
        ensures
            final(self).wf(),
            old(self).migrating_data ==> r == Err::<bool, NodeError>(NodeError::Migrating) && *final(self)
                == *old(self),
            !old(self).migrating_data && caller@ != old(self).owner@ ==> r == Err::<bool, NodeError>(
                NodeError::NotOwner,
            ) && *final(self) == *old(self),
            !old(self).migrating_data && caller@ == old(self).owner@ ==> r == Ok::<bool, NodeError>(
                store_has(old(self).likes@, key@, field@),
            ) && with_store(*old(self), store_remove(old(self).likes@, key@, field@), *final(self)),
    {
        if self.migrating_data {
            return Err(NodeError::Migrating);
        }
        if !caller.same_as(&self.owner) {
            return Err(NodeError::NotOwner);
        }
        Ok(self.likes.remove_field(key, field))
    }

    /// The value under `key` and `field`, if any. Reads are open to every
    /// caller and are answered during a migration too.
    pub fn hget(&self, key: &String, field: &String) -> (r: Option<Vec<u8>>)
        requires
            self.wf(),
        ensures
            read_answers(*self, key@, field@, r),
    {
        self.likes.get_field(key, field)
    }

    /// Whether a value is stored under `key` and `field`.
    pub fn hexist(&self, key: &String, field: &String) -> (r: bool)
        requires
            self.wf(),
        ensures
            r == store_has(self.likes@, key@, field@),
    {
        match self.likes.get_field(key, field) {
            Some(_v) => true,
            None => false,
        }
    }

    /// Whether, after a write, the node is to report itself full to its
    /// manager: the number of outer keys is a multiple of `INDEX_LIMIT` and
    /// the storage in use, `memory_size` bytes, exceeds `MEMORY_LIMIT`.
    pub fn read_memory_limit(&self, memory_size: u64) -> (r: bool)
        requires
            self.wf(),
        ensures
            r == (self.likes@.dom().len() % (INDEX_LIMIT as nat) == 0 && memory_size > MEMORY_LIMIT),
    {
        let index = self.likes.len();
        index % INDEX_LIMIT == 0 && memory_size > MEMORY_LIMIT
    }

    /// Starts handing off the range of `target` at the manager's request:
    /// closes the write gate and takes out of the store every outer key
    /// whose slot lies in that range, to be streamed to `target`'s node.
    /// Turned down, with nothing changed, when the caller is not the
    /// node's manager or a migration is already under way.
    ///
    /// The keys leave this store before the destination has confirmed
    /// them: if streaming the transfer set fails part-way, the keys not yet
    /// delivered are lost. A safer hand-off would delete only after the
    /// destination confirms.
    pub fn update_node_data(&mut self, caller: &NodeId, target: &CanisterNodeMap) -> (r: Result<
        HashSet,
        NodeError,
    >)
        requires
            old(self).wf(),
        ensures
            final(self).wf(),
            caller@ != old(self).init_args.manager_id@ ==> r is Err && r->Err_0 == NodeError::NotManager
                && *final(self) == *old(self),
            caller@ == old(self).init_args.manager_id@ && old(self).migrating_data ==> r is Err && r->Err_0
                == NodeError::Migrating && *final(self) == *old(self),
            caller@ == old(self).init_args.manager_id@ && !old(self).migrating_data ==> r is Ok && r->Ok_0.wf()
                && hands_off(*old(self), target.start_node, target.end_node, *final(self), r->Ok_0@),
    {
        if !caller.same_as(&self.init_args.manager_id) {
            return Err(NodeError::NotManager);
        }
        if self.migrating_data {
            return Err(NodeError::Migrating);
        }
        self.migrating_data = true;
        let moved = self.likes.take_slot_range(target.start_node, target.end_node);
        Ok(moved)
    }

    /// Ends a hand-off once the transfer set has been streamed: opens the
    /// write gate again.
    pub fn end_migration(&mut self)
        ensures
            !final(self).migrating_data,
            final(self).likes == old(self).likes,
            final(self).init_args == old(self).init_args,
            final(self).owner == old(self).owner,
    {
        self.migrating_data = false;
    }

    /// Takes in a batch streamed by another node. `sender_known` is the
    /// manager's answer on whether the sender is a node of its table; a
    /// batch from an unknown sender is turned down and changes nothing.
    /// Otherwise the write gate is closed while the batch is written in
    /// field by field, the batch winning where both hold a value, and is
    /// open once it is done.
    pub fn receive_migration_data(&mut self, sender_known: bool, batch: &HashSet) -> (r: Result<
        (),
        NodeError,
    >)
        requires
            old(self).wf(),
            batch.wf(),
        ensures
            final(self).wf(),
            !sender_known ==> r == Err::<(), NodeError>(NodeError::UnknownSender) && *final(self) == *old(self),
            sender_known ==> r == Ok::<(), NodeError>(()) && takes_in(*old(self), batch@, *final(self)),
    {
        if !sender_known {
            return Err(NodeError::UnknownSender);
        }
        self.migrating_data = true;
        self.likes.merge_from(batch);
        self.migrating_data = false;
        Ok(())
    }
}

} // verus!
