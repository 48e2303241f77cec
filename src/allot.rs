//! The shard map manager: the partition table from slot ranges to nodes,
//! routing, bulk provisioning and the split sequence.
//!
//! Provisioning and installing nodes are remote calls that the host makes;
//! the table holds the decisions around them: which ranges to provision,
//! where to cut an over-full range, and the table edit that commits a split.
use vstd::prelude::*;
use crate::node_id::NodeId;
use crate::slot::{slot, slot_of, SLOT_SIZE};

verus! {

/// One entry of the partition table: the node that owns the slots
/// `start_node ..= end_node`.
#[derive(Clone, Debug)]
pub struct CanisterNodeMap {
    pub canister_id: NodeId,
    pub start_node: u32,
    pub end_node: u32,
}

/// The partition table, with the identity allowed to provision it.
#[derive(Clone, Debug)]
pub struct CanisterNodeMapList {
    pub owner: NodeId,
    pub slot_list: Vec<CanisterNodeMap>,
}

/// Why the manager turned a request down.
#[derive(Clone, Copy, Debug, PartialEq, Eq, Structural)]
pub enum AllotError {
    /// The caller is not the table's owner.
    NotOwner,
    /// The table already holds ranges.
    AlreadyProvisioned,
    /// The number of parts is zero or larger than the slot space.
    InvalidParts,
    /// No entry of the table belongs to the node.
    UnknownNode,
    /// The node's range has fewer than three slots and cannot be split.
    RangeTooSmall,
    /// The node's range changed since the split was planned.
    StaleRange,
}

/// Where a range `start ..= end` is cut: the lower part keeps
/// `start ..= mid_node`, a new node takes `mid_node + 1 ..= end`.
#[derive(Clone, Copy, Debug, PartialEq, Eq, Structural)]
pub struct SplitPlan {
    pub start_node: u32,
    pub mid_node: u32,
    pub end_node: u32,
}

/// What the manager does on a capacity report.
#[derive(Clone, Copy, Debug, PartialEq, Eq, Structural)]
pub enum CapacityAction {
    /// The node is not full: nothing to do.
    Ignore,
    /// Provision a node and split the reporting range as planned.
    Split(SplitPlan),
}

/// A node's report on its storage: whether it is full.
#[derive(Clone, Debug)]
pub struct CanisterStateArg {
    pub canister_id: NodeId,
    pub is_full: bool,
}

/// Entry `e` holds slot `s`.
pub open spec fn holds(e: CanisterNodeMap, s: int) -> bool {
    e.start_node <= s <= e.end_node
}

/// Some entry of `t` holds slot `s`.
pub open spec fn held(t: Seq<CanisterNodeMap>, s: int) -> bool {
    exists|i: int| 0 <= i < t.len() && holds(#[trigger] t[i], s)
}

/// The ranges of `t` cover the slot space `[0, SLOT_SIZE - 1]` exactly:
/// each range lies within it, each slot is held, and no two ranges meet.
pub open spec fn covers(t: Seq<CanisterNodeMap>) -> bool {
    &&& forall|i: int| 0 <= i < t.len() ==> (#[trigger] t[i]).start_node <= t[i].end_node < SLOT_SIZE
    &&& forall|s: int| 0 <= s < SLOT_SIZE ==> #[trigger] held(t, s)
    &&& forall|i: int, j: int|
        0 <= i < t.len() && 0 <= j < t.len() && i != j ==> (#[trigger] t[i]).end_node < (#[trigger] t[j]).start_node
            || t[j].end_node < t[i].start_node
}

/// The node that routing picks for slot `s`: that of the last entry holding
/// it, or the null node when none does.
pub open spec fn route_spec(t: Seq<CanisterNodeMap>, s: int) -> Seq<u8>
    decreases t.len(),
{
    if t.len() == 0 {
        Seq::empty()
    } else if holds(t.last(), s) {
        t.last().canister_id@
    } else {
        route_spec(t.drop_last(), s)
    }
}

/// Some entry of `t` belongs to node `id`.
pub open spec fn knows(t: Seq<CanisterNodeMap>, id: Seq<u8>) -> bool {
    exists|i: int| 0 <= i < t.len() && (#[trigger] t[i]).canister_id@ == id
}

/// The width of each part when the slot space is cut into `parts`.
pub open spec fn part_width(parts: u32) -> int {
    SLOT_SIZE as int / parts as int
}

/// The first slot of part `i` of `parts`.
pub open spec fn part_start(parts: u32, i: int) -> int {
    i * part_width(parts)
}

/// The last slot of part `i` of `parts`; the last part runs to the end of
/// the slot space and takes what the division left over.
pub open spec fn part_end(parts: u32, i: int) -> int {
    if i == parts - 1 {
        SLOT_SIZE - 1
    } else {
        part_start(parts, i) + part_width(parts) - 1
    }
}

/// `t` holds, in order, exactly the parts of a cut into `parts`.
pub open spec fn is_bulk_table(t: Seq<CanisterNodeMap>, parts: u32) -> bool {
    &&& t.len() == parts
    &&& forall|i: int|
        0 <= i < t.len() ==> (#[trigger] t[i]).start_node == part_start(parts, i) && t[i].end_node == part_end(
            parts,
            i,
        )
}

/// Facts about a cut of the slot space into `parts` of width `w`.
proof fn lemma_part_bounds(parts: int, w: int, i: int)
    requires
        1 <= parts <= SLOT_SIZE,
        w == SLOT_SIZE as int / parts,
        0 <= i < parts,
    ensures
        w >= 1,
        parts * w <= SLOT_SIZE,
        0 <= i * w,
        i * w + w <= parts * w,
        i * w <= SLOT_SIZE - w,
{
    assert(w >= 1) by (nonlinear_arith)
        requires
            1 <= parts <= 65536int,
            w == 65536int / parts,
    ;
    assert(parts * w <= 65536int) by (nonlinear_arith)
        requires
            1 <= parts,
            w == 65536int / parts,
    ;
    assert(0 <= i * w) by (nonlinear_arith)
        requires
            0 <= i,
            w >= 1,
    ;
    assert(i * w + w <= parts * w) by (nonlinear_arith)
        requires
            i + 1 <= parts,
            w >= 1,
    ;
}

/// Part `i` of a cut holds slot `s` when `i` is the quotient of `s` by the
/// width, or the last part when the quotient runs past it.
proof fn lemma_part_of_slot(parts: int, w: int, s: int) -> (i: int)
    requires
        1 <= parts <= SLOT_SIZE,
        w == SLOT_SIZE as int / parts,
        0 <= s < SLOT_SIZE,
    ensures
        0 <= i < parts,
        i * w <= s,
        i < parts - 1 ==> s <= i * w + w - 1,
{
    lemma_part_bounds(parts, w, 0);
    let q = s / w;
    assert(q * w <= s && s < q * w + w && q >= 0) by (nonlinear_arith)
        requires
            w >= 1,
            q == s / w,
            s >= 0,
    ;
    if q >= parts - 1 {
        assert((parts - 1) * w <= q * w) by (nonlinear_arith)
            requires
                q >= parts - 1,
                w >= 1,
        ;
        parts - 1
    } else {
        q
    }
}

/// A table that holds every part of a cut into `parts`, in order, covers
/// the whole slot space exactly, with no gap and no overlap.
pub proof fn lemma_bulk_covers(t: Seq<CanisterNodeMap>, parts: u32)
    requires
        1 <= parts <= SLOT_SIZE,
        is_bulk_table(t, parts),
    ensures
        covers(t),
{
    let w = part_width(parts);
    let p = parts as int;
    assert forall|i: int| 0 <= i < t.len() implies (#[trigger] t[i]).start_node <= t[i].end_node < SLOT_SIZE by {
        lemma_part_bounds(p, w, i);
    }
    assert forall|s: int| 0 <= s < SLOT_SIZE implies #[trigger] held(t, s) by {
        let i = lemma_part_of_slot(p, w, s);
        lemma_part_bounds(p, w, i);
        assert(holds(t[i], s));
    }
    assert forall|i: int, j: int|
        0 <= i < t.len() && 0 <= j < t.len() && i != j implies (#[trigger] t[i]).end_node < (
        #[trigger] t[j]).start_node || t[j].end_node < t[i].start_node by {
        lemma_part_bounds(p, w, i);
        lemma_part_bounds(p, w, j);
        if i < j {
            assert(i * w + w <= j * w) by (nonlinear_arith)
                requires
                    i + 1 <= j,
                    w >= 1,
            ;
        } else {
            assert(j * w + w <= i * w) by (nonlinear_arith)
                requires
                    j + 1 <= i,
                    w >= 1,
            ;
        }
    }
}

/// Routing on a table that holds slot `s` in exactly one entry picks the
/// node of that entry.
proof fn lemma_route_single(t: Seq<CanisterNodeMap>, s: int, i: int)
    requires
        0 <= i < t.len(),
        holds(t[i], s),
        forall|j: int| 0 <= j < t.len() && j != i ==> !holds(#[trigger] t[j], s),
    ensures
        route_spec(t, s) == t[i].canister_id@,
    decreases t.len(),
{
    if i != t.len() - 1 {
        let u = t.drop_last();
        assert forall|j: int| 0 <= j < u.len() && j != i implies !holds(#[trigger] u[j], s) by {
            assert(u[j] == t[j]);
        }
        assert(u[i] == t[i]);
        lemma_route_single(u, s, i);
    }
}

/// On a table that covers the slot space, every key's slot is held by
/// exactly one entry, and routing the key picks that entry's node.
pub proof fn lemma_route_covers(t: Seq<CanisterNodeMap>, key: Seq<char>)
    requires
        covers(t),
    ensures
        exists|i: int|
            0 <= i < t.len() && holds(#[trigger] t[i], slot_of(key) as int) && route_spec(t, slot_of(key) as int)
                == t[i].canister_id@ && forall|j: int|
                0 <= j < t.len() && j != i ==> !holds(#[trigger] t[j], slot_of(key) as int),
{
    let s = slot_of(key) as int;
    assert(held(t, s));
    let i = choose|i: int| 0 <= i < t.len() && holds(#[trigger] t[i], s);
    assert forall|j: int| 0 <= j < t.len() && j != i implies !holds(#[trigger] t[j], s) by {
        if holds(t[j], s) {
            assert(t[i].end_node < t[j].start_node || t[j].end_node < t[i].start_node);
        }
    }
    lemma_route_single(t, s, i);
}

/// The midpoint at which the range `start ..= end` is cut: the lower part
/// keeps it.
pub open spec fn split_mid_spec(start: u32, end: u32) -> int {
    start + (end + 1 - start) / 2
}

/// The plan for cutting entry `e`, if its range is wide enough.
pub open spec fn plan_for(e: CanisterNodeMap) -> Option<SplitPlan> {
    if e.start_node + 2 <= e.end_node {
        Some(
            SplitPlan {
                start_node: e.start_node,
                mid_node: split_mid_spec(e.start_node, e.end_node) as u32,
                end_node: e.end_node,
            },
        )
    } else {
        None
    }
}

/// The answer to a request to plan the split of node `id`'s range.
pub open spec fn plan_result(t: Seq<CanisterNodeMap>, id: Seq<u8>) -> Result<SplitPlan, AllotError> {
    if !knows(t, id) {
        Err(AllotError::UnknownNode)
    } else {
        match plan_for(t[first_of(t, id)]) {
            Some(p) => Ok(p),
            None => Err(AllotError::RangeTooSmall),
        }
    }
}

/// `i` is the first entry of `t` that belongs to `id`.
pub open spec fn is_first_of(t: Seq<CanisterNodeMap>, id: Seq<u8>, i: int) -> bool {
    &&& 0 <= i < t.len()
    &&& t[i].canister_id@ == id
    &&& forall|j: int| 0 <= j < i ==> (#[trigger] t[j]).canister_id@ != id
}

/// The first entry of `t` that belongs to `id` (meaningful when `knows(t, id)`).
pub open spec fn first_of(t: Seq<CanisterNodeMap>, id: Seq<u8>) -> int {
    choose|i: int| is_first_of(t, id, i)
}

/// `t` after entry `i` is cut at `mid`: it keeps the lower part and a new
/// entry for `new_node` takes the upper part.
pub open spec fn split_table(t: Seq<CanisterNodeMap>, i: int, new_node: NodeId, mid: int) -> Seq<CanisterNodeMap> {
    t.update(
        i,
        CanisterNodeMap { canister_id: t[i].canister_id, start_node: t[i].start_node, end_node: mid as u32 },
    ).push(CanisterNodeMap { canister_id: new_node, start_node: (mid + 1) as u32, end_node: t[i].end_node })
}

/// The cut of a range of at least three slots falls strictly inside it:
/// the lower part keeps `start ..= mid` with `mid < end`, and `mid` is
/// `(start + end + 1) / 2` rounded down.
pub proof fn lemma_split_mid(start: u32, end: u32)
    requires
        start + 2 <= end,
    ensures
        start <= split_mid_spec(start, end) < end,
        split_mid_spec(start, end) == (start + end + 1) / 2,
{
}

/// Cutting one entry of a table that covers the slot space, at the
/// midpoint of its range, gives a table that still covers it exactly.
proof fn lemma_cut_covers(t: Seq<CanisterNodeMap>, i: int, new_node: NodeId)
    requires
        covers(t),
        0 <= i < t.len(),
        t[i].start_node + 2 <= t[i].end_node,
    ensures
        covers(split_table(t, i, new_node, split_mid_spec(t[i].start_node, t[i].end_node))),
{
    let m = split_mid_spec(t[i].start_node, t[i].end_node);
    let u = split_table(t, i, new_node, m);
    let n = t.len() as int;
    assert(u.len() == n + 1);
    assert(u[i].start_node == t[i].start_node && u[i].end_node == m);
    assert(u[n].start_node == m + 1 && u[n].end_node == t[i].end_node);
    assert forall|j: int| 0 <= j < n && j != i implies #[trigger] u[j] == t[j] by {}
    assert forall|j: int| 0 <= j < u.len() implies (#[trigger] u[j]).start_node <= u[j].end_node < SLOT_SIZE by {
        if j < n && j != i {
            assert(u[j] == t[j]);
        }
    }
    assert forall|s: int| 0 <= s < SLOT_SIZE implies #[trigger] held(u, s) by {
        assert(held(t, s));
        let j = choose|j: int| 0 <= j < t.len() && holds(#[trigger] t[j], s);
        if j != i {
            assert(u[j] == t[j]);
            assert(holds(u[j], s));
        } else if s <= m {
            assert(holds(u[i], s));
        } else {
            assert(holds(u[n], s));
        }
    }
    assert forall|j: int, k: int|
        0 <= j < u.len() && 0 <= k < u.len() && j != k implies (#[trigger] u[j]).end_node < (
        #[trigger] u[k]).start_node || u[k].end_node < u[j].start_node by {
        if j < n && j != i {
            assert(u[j] == t[j]);
        }
        if k < n && k != i {
            assert(u[k] == t[k]);
        }
        if j < n && j != i && k == n {
            assert(t[j].end_node < t[i].start_node || t[i].end_node < t[j].start_node);
        }
        if k < n && k != i && j == n {
            assert(t[k].end_node < t[i].start_node || t[i].end_node < t[k].start_node);
        }
        if j < n && j != i && k == i {
            assert(t[j].end_node < t[i].start_node || t[i].end_node < t[j].start_node);
        }
        if k < n && k != i && j == i {
            assert(t[k].end_node < t[i].start_node || t[i].end_node < t[k].start_node);
        }
    }
}

/// A node that has an entry has a first one.
proof fn lemma_first_exists(t: Seq<CanisterNodeMap>, id: Seq<u8>)
    requires
        knows(t, id),
    ensures
        is_first_of(t, id, first_of(t, id)),
    decreases t.len(),
{
    let u = t.drop_last();
    if knows(u, id) {
        lemma_first_exists(u, id);
        let f = first_of(u, id);
        assert forall|j: int| 0 <= j < f implies (#[trigger] t[j]).canister_id@ != id by {
            assert(t[j] == u[j]);
        }
        assert(t[f] == u[f]);
        assert(is_first_of(t, id, f));
    } else {
        let i = choose|i: int| 0 <= i < t.len() && (#[trigger] t[i]).canister_id@ == id;
        assert forall|j: int| 0 <= j < t.len() - 1 implies (#[trigger] t[j]).canister_id@ != id by {
            assert(t[j] == u[j]);
        }
        assert(is_first_of(t, id, t.len() - 1));
    }
}

/// A split committed on a table that covers the slot space leaves it
/// covering the slot space exactly. With `lemma_bulk_covers`, every table
/// built by a complete bulk provisioning and then changed only by committed
/// splits covers the slot space with no gap and no overlap.
pub proof fn lemma_split_covers(t: Seq<CanisterNodeMap>, source: Seq<u8>, new_node: NodeId, plan: SplitPlan)
    requires
        covers(t),
        knows(t, source),
        plan_for(t[first_of(t, source)]) == Some(plan),
    ensures
        covers(split_table(t, first_of(t, source), new_node, plan.mid_node as int)),
{
    lemma_first_exists(t, source);
    let f = first_of(t, source);
    lemma_split_mid(t[f].start_node, t[f].end_node);
    lemma_cut_covers(t, f, new_node);
}

/// A committed split strictly shrinks the source's range to its lower part,
/// ending at `mid = (start + end + 1) / 2` rounded down with `mid < end`,
/// and gives the new node exactly the rest, `mid + 1 ..= end`.
pub proof fn lemma_split_shrinks(t: Seq<CanisterNodeMap>, source: Seq<u8>, new_node: NodeId, plan: SplitPlan)
    requires
        knows(t, source),
        plan_for(t[first_of(t, source)]) == Some(plan),
    ensures
        ({
            let f = first_of(t, source);
            let u = split_table(t, f, new_node, plan.mid_node as int);
            &&& u.len() == t.len() + 1
            &&& u[f].canister_id@ == source
            &&& u[f].start_node == t[f].start_node
            &&& u[f].end_node == plan.mid_node
            &&& plan.mid_node < t[f].end_node
            &&& plan.mid_node == (t[f].start_node + t[f].end_node + 1) / 2
            &&& u[t.len() as int].canister_id == new_node
            &&& u[t.len() as int].start_node == plan.mid_node + 1
            &&& u[t.len() as int].end_node == t[f].end_node
        }),
{
    lemma_first_exists(t, source);
    let f = first_of(t, source);
    lemma_split_mid(t[f].start_node, t[f].end_node);
}

/// The table that committing the splits `steps` (source node, new node,
/// plan), in order, makes of `t`; none when one of them would be refused.
pub open spec fn apply_splits(t: Seq<CanisterNodeMap>, steps: Seq<(Seq<u8>, NodeId, SplitPlan)>) -> Option<
    Seq<CanisterNodeMap>,
>
    decreases steps.len(),
{
    if steps.len() == 0 {
        Some(t)
    } else {
        match apply_splits(t, steps.drop_last()) {
            None => None,
            Some(u) => {
                let (source, new_node, plan) = steps.last();
                if knows(u, source) && plan_for(u[first_of(u, source)]) == Some(plan) {
                    Some(split_table(u, first_of(u, source), new_node, plan.mid_node as int))
                } else {
                    None
                }
            },
        }
    }
}

/// Every table reached from a complete bulk provisioning by committed
/// splits covers the slot space `[0, SLOT_SIZE - 1]` exactly, with no gap
/// and no overlap.
pub proof fn lemma_reached_covers(t: Seq<CanisterNodeMap>, parts: u32, steps: Seq<(Seq<u8>, NodeId, SplitPlan)>)
    requires
        1 <= parts <= SLOT_SIZE,
        is_bulk_table(t, parts),
        apply_splits(t, steps) is Some,
    ensures
        covers(apply_splits(t, steps)->Some_0),
    decreases steps.len(),
{
    if steps.len() == 0 {
        lemma_bulk_covers(t, parts);
    } else {
        lemma_reached_covers(t, parts, steps.drop_last());
        let u = apply_splits(t, steps.drop_last())->Some_0;
        let (source, new_node, plan) = steps.last();
        lemma_split_covers(u, source, new_node, plan);
    }
}

impl CanisterNodeMap {
    /// A copy of this entry.
    pub fn duplicate(&self) -> (r: CanisterNodeMap)
        ensures
            r.canister_id@ == self.canister_id@,
            r.start_node == self.start_node,
            r.end_node == self.end_node,
    {
        CanisterNodeMap {
            canister_id: self.canister_id.duplicate(),
            start_node: self.start_node,
            end_node: self.end_node,
        }
    }
}

impl CanisterNodeMapList {
    /// An empty table with the null identity as owner.
    pub fn new() -> (r: CanisterNodeMapList)
        ensures
            r.owner@ == Seq::<u8>::empty(),
            r.slot_list@.len() == 0,
    {
        CanisterNodeMapList { owner: NodeId::null(), slot_list: Vec::new() }
    }

    /// An empty table owned by `owner`, the only identity that may provision it.
    pub fn with_owner(owner: NodeId) -> (r: CanisterNodeMapList)
        ensures
            r.owner == owner,
            r.slot_list@.len() == 0,
    {
        CanisterNodeMapList { owner, slot_list: Vec::new() }
    }

    /// A copy of the table's entries.
    pub fn allot_canister_list(&self) -> (r: Vec<CanisterNodeMap>)
        ensures
            r@.len() == self.slot_list@.len(),
            forall|i: int|
                0 <= i < r@.len() ==> (#[trigger] r@[i]).canister_id@ == self.slot_list@[i].canister_id@
                    && r@[i].start_node == self.slot_list@[i].start_node && r@[i].end_node
                    == self.slot_list@[i].end_node,
    {
        let mut r: Vec<CanisterNodeMap> = Vec::new();
        let mut i: usize = 0;
        while i < self.slot_list.len()
            invariant
                0 <= i <= self.slot_list@.len(),
                r@.len() == i,
                forall|j: int|
                    0 <= j < i ==> (#[trigger] r@[j]).canister_id@ == self.slot_list@[j].canister_id@
                        && r@[j].start_node == self.slot_list@[j].start_node && r@[j].end_node
                        == self.slot_list@[j].end_node,
            decreases self.slot_list@.len() - i,
        {
            r.push(self.slot_list[i].duplicate());
            i = i + 1;
        }
        r
    }

    /// The node that owns `slot`, or the null node when no range holds it.
    pub fn route_slot(&self, slot: u32) -> (r: NodeId)
        ensures
            r@ == route_spec(self.slot_list@, slot as int),
    {
        let ghost t = self.slot_list@;
        let mut found = NodeId::null();
        let mut i: usize = 0;
        while i < self.slot_list.len()
            invariant
                0 <= i <= t.len(),
                t == self.slot_list@,
                found@ == route_spec(t.subrange(0, i as int), slot as int),
            decreases t.len() - i,
        {
            let e = &self.slot_list[i];
            assert(t.subrange(0, i + 1).drop_last() =~= t.subrange(0, i as int));
            if slot >= e.start_node && slot <= e.end_node {
                found = e.canister_id.duplicate();
            }
            i = i + 1;
        }
        assert(t.subrange(0, t.len() as int) =~= t);
        found
    }

    /// The node that owns `key`: the range holding the key's slot, or the
    /// null node when none does, a sign of a broken table.
    pub fn get_correlation_canister(&self, key: &str) -> (r: NodeId)
        ensures
            r@ == route_spec(self.slot_list@, slot_of(key@) as int),
    {
        self.route_slot(slot(key))
    }

    /// Whether some entry of the table belongs to `id`.
    pub fn is_exisr(&self, id: &NodeId) -> (r: bool)
        ensures
            r == knows(self.slot_list@, id@),
    {
        let mut i: usize = 0;
        while i < self.slot_list.len()
            invariant
                0 <= i <= self.slot_list@.len(),
                forall|j: int| 0 <= j < i ==> (#[trigger] self.slot_list@[j]).canister_id@ != id@,
            decreases self.slot_list@.len() - i,
        {
            if self.slot_list[i].canister_id.same_as(id) {
                return true;
            }
            i = i + 1;
        }
        false
    }

    /// Checks a bulk provisioning request and plans it: the ranges to give
    /// the `parts` nodes, in order. Only the owner may ask, only once, while
    /// the table is empty.
    pub fn batch_create_canisters(&self, caller: &NodeId, parts: u32) -> (r: Result<Vec<(u32, u32)>, AllotError>)
        ensures
            caller@ != self.owner@ <==> r == Err::<Vec<(u32, u32)>, AllotError>(AllotError::NotOwner),
            caller@ == self.owner@ && self.slot_list@.len() != 0 <==> r == Err::<Vec<(u32, u32)>, AllotError>(
                AllotError::AlreadyProvisioned,
            ),
            caller@ == self.owner@ && self.slot_list@.len() == 0 && (parts == 0 || parts > SLOT_SIZE) <==> r
                == Err::<Vec<(u32, u32)>, AllotError>(AllotError::InvalidParts),
            caller@ == self.owner@ && self.slot_list@.len() == 0 && 1 <= parts <= SLOT_SIZE <==> r is Ok,
            match r {
                Ok(plan) => plan@.len() == parts && forall|i: int|
                    0 <= i < parts ==> (#[trigger] plan@[i]).0 == part_start(parts, i) && plan@[i].1 == part_end(
                        parts,
                        i,
                    ),
                Err(_) => true,
            },
    {
        if !caller.same_as(&self.owner) {
            return Err(AllotError::NotOwner);
        }
        if self.slot_list.len() != 0 {
            return Err(AllotError::AlreadyProvisioned);
        }
        if parts == 0 || parts > SLOT_SIZE {
            return Err(AllotError::InvalidParts);
        }
        let part_size = SLOT_SIZE / parts;
        let mut plan: Vec<(u32, u32)> = Vec::new();
        let mut i: u32 = 0;
        while i < parts
            invariant
                1 <= parts <= SLOT_SIZE,
                part_size == part_width(parts),
                0 <= i <= parts,
                plan@.len() == i,
                forall|j: int|
                    0 <= j < i ==> (#[trigger] plan@[j]).0 == part_start(parts, j) && plan@[j].1 == part_end(parts, j),
            decreases parts - i,
        {
            proof {
                lemma_part_bounds(parts as int, part_size as int, i as int);
            }
            let start_node = i * part_size;
            let end_node = if i == parts - 1 {
                SLOT_SIZE - 1
            } else {
                start_node + (part_size - 1)
            };
            plan.push((start_node, end_node));
            i = i + 1;
        }
        Ok(plan)
    }

    /// Records a node that was provisioned and installed for a range.
    pub fn push_part(&mut self, canister_id: NodeId, start_node: u32, end_node: u32)
        ensures
            final(self).owner == old(self).owner,
            final(self).slot_list@ == old(self).slot_list@.push(
                CanisterNodeMap { canister_id, start_node, end_node },
            ),
    {
        self.slot_list.push(CanisterNodeMap { canister_id, start_node, end_node });
    }


    /// The first entry that belongs to `id`, if any.
    fn find_node(&self, id: &NodeId) -> (r: Option<usize>)
        ensures
            match r {
                Some(i) => is_first_of(self.slot_list@, id@, i as int) && i as int == first_of(
                    self.slot_list@,
                    id@,
                ),
                None => !knows(self.slot_list@, id@),
            },
    {
        let mut i: usize = 0;
        while i < self.slot_list.len()
            invariant
                0 <= i <= self.slot_list@.len(),
                forall|j: int| 0 <= j < i ==> (#[trigger] self.slot_list@[j]).canister_id@ != id@,
            decreases self.slot_list@.len() - i,
        {
            if self.slot_list[i].canister_id.same_as(id) {
                proof {
                    let t = self.slot_list@;
                    assert(is_first_of(t, id@, i as int));
                    let f = first_of(t, id@);
                    assert(is_first_of(t, id@, f));
                    if f < i {
                        assert(t[f].canister_id@ != id@);
                    } else if f > i {
                        assert(t[i as int].canister_id@ != id@);
                    }
                }
                return Some(i);
            }
            i = i + 1;
        }
        None
    }

    /// Plans the split of `source`'s range: the cut falls at the midpoint,
    /// the lower part staying with `source`. Fails when no entry belongs to
    /// `source` or its range is too small to cut in two.
    pub fn split_plan(&self, source: &NodeId) -> (r: Result<SplitPlan, AllotError>)
        ensures
            r == plan_result(self.slot_list@, source@),
    {
        match self.find_node(source) {
            None => Err(AllotError::UnknownNode),
            Some(i) => {
                let e = &self.slot_list[i];
                if e.end_node < 2 || e.end_node - 2 < e.start_node {
                    Err(AllotError::RangeTooSmall)
                } else {
                    let width: u64 = e.end_node as u64 + 1 - e.start_node as u64;
                    assert(width >> 1u64 == width / 2) by (bit_vector);
                    let mid_node = (e.start_node as u64 + (width >> 1u64)) as u32;
                    Ok(SplitPlan { start_node: e.start_node, mid_node, end_node: e.end_node })
                }
            },
        }
    }


    /// Commits a split planned by `split_plan`, once `new_node` has been
    /// provisioned and installed for the upper part: `source`'s entry keeps
    /// the lower part and a new entry gives the upper part to `new_node`.
    /// Returns that new entry, the migration target to hand to `source`.
    /// Fails, leaving the table as it was, when `source` has no entry or its
    /// range is no longer the one planned.
    pub fn commit_split(&mut self, source: &NodeId, new_node: NodeId, plan: SplitPlan) -> (r: Result<
        CanisterNodeMap,
        AllotError,
    >)
        ensures
            final(self).owner == old(self).owner,
            !knows(old(self).slot_list@, source@) <==> r == Err::<CanisterNodeMap, AllotError>(
                AllotError::UnknownNode,
            ),
            knows(old(self).slot_list@, source@) && plan_for(
                old(self).slot_list@[first_of(old(self).slot_list@, source@)],
            ) != Some(plan) <==> r == Err::<CanisterNodeMap, AllotError>(AllotError::StaleRange),
            knows(old(self).slot_list@, source@) && plan_for(
                old(self).slot_list@[first_of(old(self).slot_list@, source@)],
            ) == Some(plan) <==> r is Ok,
            r is Err ==> final(self).slot_list@ == old(self).slot_list@,
            match r {
                Ok(target) => {
                    &&& final(self).slot_list@ == split_table(
                        old(self).slot_list@,
                        first_of(old(self).slot_list@, source@),
                        new_node,
                        plan.mid_node as int,
                    )
                    &&& target.canister_id@ == new_node@
                    &&& target.start_node == plan.mid_node + 1
                    &&& target.end_node == plan.end_node
                },
                Err(_) => true,
            },
    {
        match self.find_node(source) {
            None => Err(AllotError::UnknownNode),
            Some(i) => {
                let planned = self.split_plan(source);
                match planned {
                    Ok(p) => {
                        if p != plan {
                            return Err(AllotError::StaleRange);
                        }
                    },
                    Err(_) => {
                        return Err(AllotError::StaleRange);
                    },
                }
                let target = CanisterNodeMap {
                    canister_id: new_node.duplicate(),
                    start_node: plan.mid_node + 1,
                    end_node: plan.end_node,
                };
                let ghost t = self.slot_list@;
                self.slot_list[i].end_node = plan.mid_node;
                self.slot_list.push(CanisterNodeMap {
                    canister_id: new_node,
                    start_node: plan.mid_node + 1,
                    end_node: plan.end_node,
                });
                assert(self.slot_list@ =~= split_table(t, i as int, new_node, plan.mid_node as int));
                Ok(target)
            },
        }
    }

    /// Answers a capacity report from `caller`: reports come only from
    /// nodes of the table; a full node's range is to be split, a report
    /// that is not full is ignored.
    pub fn expand_memory(&self, caller: &NodeId, arg: &CanisterStateArg) -> (r: Result<CapacityAction, AllotError>)
        ensures
            !knows(self.slot_list@, caller@) ==> r == Err::<CapacityAction, AllotError>(AllotError::UnknownNode),
            knows(self.slot_list@, caller@) && !arg.is_full ==> r == Ok::<CapacityAction, AllotError>(
                CapacityAction::Ignore,
            ),
            knows(self.slot_list@, caller@) && arg.is_full ==> r == match plan_result(
                self.slot_list@,
                arg.canister_id@,
            ) {
                Ok(p) => Ok::<CapacityAction, AllotError>(CapacityAction::Split(p)),
                Err(e) => Err(e),
            },
    {
        if !self.is_exisr(caller) {
            return Err(AllotError::UnknownNode);
        }
        if !arg.is_full {
            return Ok(CapacityAction::Ignore);
        }
        match self.split_plan(&arg.canister_id) {
            Ok(p) => Ok(CapacityAction::Split(p)),
            Err(e) => Err(e),
        }
    }

}

} // verus!
