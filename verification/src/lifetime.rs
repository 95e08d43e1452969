//! Resource lifetime analysis: for each resource, the first and the last
//! position in an execution order at which a node uses it.
use crate::slots::{lemma_key_from_slot, slot_index, slot_version, sparse_insert, sparse_lookup, sparse_slots, sparse_slots_get, sparse_slots_insert, sparse_slots_new, SparseSlots};
use crate::types::{lemma_buffer_key_injective, lemma_texture_key_injective, Node, ResourceHandle, SlotHandle};
use vstd::prelude::*;

verus! {

/// The first and the last use of a resource, as positions in the execution
/// order.
#[derive(Clone, Copy, Debug, PartialEq, Eq, Structural)]
pub struct ResourceLifetime {
    pub first_use: u32,
    pub last_use: u32,
}

/// The lifetimes of textures and of buffers, each kept in a sparse
/// secondary map keyed by the resource handles.
pub struct ResourceLifetimes {
    textures: SparseSlots,
    buffers: SparseSlots,
}

/// What the two lifetime maps hold: textures first, then buffers.
pub type LifetimeState = (Map<u32, (u32, (u32, u32))>, Map<u32, (u32, (u32, u32))>);

/// The resources a node uses, in the order they are recorded: its inputs,
/// then its outputs.
pub open spec fn node_uses<E>(node: Node<E>) -> Seq<ResourceHandle> {
    node.inputs@.map_values(|x: crate::types::NodeInput| x.resource) + node.outputs@.map_values(
        |x: crate::types::NodeOutput| x.resource,
    )
}

/// One use of key `k` at position `i`: a first use starts the lifetime at
/// `i`, a later one moves its end to `i`.
pub open spec fn use_key(m: Map<u32, (u32, (u32, u32))>, k: u64, i: u32) -> Map<u32, (u32, (u32, u32))> {
    match sparse_lookup(m, k) {
        Some(lt) => sparse_insert(m, k, (lt.0, i)),
        None => sparse_insert(m, k, (i, i)),
    }
}

/// One use of resource `r` at position `i`.
pub open spec fn use_resource(state: LifetimeState, r: ResourceHandle, i: u32) -> LifetimeState {
    match r {
        ResourceHandle::Texture(h) => (use_key(state.0, h.key(), i), state.1),
        ResourceHandle::Buffer(h) => (state.0, use_key(state.1, h.key(), i)),
    }
}

/// The uses `rs`, in order, all at position `i`.
pub open spec fn use_all(state: LifetimeState, rs: Seq<ResourceHandle>, i: u32) -> LifetimeState
    decreases rs.len(),
{
    if rs.len() == 0 {
        state
    } else {
        use_resource(use_all(state, rs.drop_last(), i), rs.last(), i)
    }
}

/// The lifetime maps after recording the uses of the nodes listed in
/// `order`, in that order, each use at the node's position in `order` (as a
/// `u32`).
pub open spec fn lifetime_state<E>(nodes: Seq<Node<E>>, order: Seq<usize>) -> LifetimeState
    decreases order.len(),
{
    if order.len() == 0 {
        (Map::empty(), Map::empty())
    } else {
        use_all(
            lifetime_state(nodes, order.drop_last()),
            node_uses(nodes[order.last() as int]),
            (order.len() - 1) as u32,
        )
    }
}

/// The lifetime that a state gives a resource.
pub open spec fn state_lifetime(state: LifetimeState, r: ResourceHandle) -> Option<ResourceLifetime> {
    let found = match r {
        ResourceHandle::Texture(h) => sparse_lookup(state.0, h.key()),
        ResourceHandle::Buffer(h) => sparse_lookup(state.1, h.key()),
    };
    match found {
        Some(lt) => Some(ResourceLifetime { first_use: lt.0, last_use: lt.1 }),
        None => None,
    }
}

impl ResourceLifetimes {
    /// What the two maps hold.
    pub closed spec fn state(&self) -> LifetimeState {
        (sparse_slots(self.textures), sparse_slots(self.buffers))
    }

    /// The lifetime recorded for a resource, if it was used.
    pub fn get(&self, r: ResourceHandle) -> (lt: Option<ResourceLifetime>)
        ensures
            lt == state_lifetime(self.state(), r),
    {
        let found = match r {
            ResourceHandle::Texture(h) => sparse_slots_get(&self.textures, h.as_ffi()),
            ResourceHandle::Buffer(h) => sparse_slots_get(&self.buffers, h.as_ffi()),
        };
        match found {
            Some(lt) => Some(ResourceLifetime { first_use: lt.0, last_use: lt.1 }),
            None => None,
        }
    }

    /// Records one use of `r` at position `i`.
    fn record_use(&mut self, r: ResourceHandle, i: usize)
        ensures
            final(self).state() == use_resource(old(self).state(), r, i as u32),
    {
        match r {
            ResourceHandle::Texture(h) => {
                let k = h.as_ffi();
                match sparse_slots_get(&self.textures, k) {
                    Some(lt) => sparse_slots_insert(&mut self.textures, k, (lt.0, i as u32)),
                    None => sparse_slots_insert(&mut self.textures, k, (i as u32, i as u32)),
                }
            },
            ResourceHandle::Buffer(h) => {
                let k = h.as_ffi();
                match sparse_slots_get(&self.buffers, k) {
                    Some(lt) => sparse_slots_insert(&mut self.buffers, k, (lt.0, i as u32)),
                    None => sparse_slots_insert(&mut self.buffers, k, (i as u32, i as u32)),
                }
            },
        }
    }
}

/// Records, for each node in `order` and each resource it reads and then
/// writes, the use of that resource at the node's position.
pub fn resource_lifetimes<E>(nodes: &Vec<Node<E>>, order: &Vec<usize>) -> (lts: ResourceLifetimes)
    requires
        forall|p: int| 0 <= p < order@.len() ==> #[trigger] order@[p] < nodes@.len(),
    ensures
        lts.state() == lifetime_state(nodes@, order@),
{
    let mut lts = ResourceLifetimes { textures: sparse_slots_new(), buffers: sparse_slots_new() };
    assert(lts.state() =~= lifetime_state(nodes@, order@.subrange(0, 0)));
    let mut p: usize = 0;
    while p < order.len()
        invariant
            p <= order@.len(),
            forall|q: int| 0 <= q < order@.len() ==> #[trigger] order@[q] < nodes@.len(),
            lts.state() == lifetime_state(nodes@, order@.subrange(0, p as int)),
        decreases order.len() - p,
    {
        let i = order[p];
        let node = &nodes[i];
        let ghost start = lts.state();
        let ghost uses = node_uses(nodes@[i as int]);
        let ghost n_in: int = node.inputs@.len() as int;
        let mut k: usize = 0;
        while k < node.inputs.len()
            invariant
                node == &nodes@[i as int],
                uses == node_uses(nodes@[i as int]),
                n_in == node.inputs@.len(),
                k <= n_in,
                lts.state() == use_all(start, uses.subrange(0, k as int), p as u32),
            decreases node.inputs.len() - k,
        {
            lts.record_use(node.inputs[k].resource, p);
            proof {
                assert(uses.subrange(0, k + 1).drop_last() =~= uses.subrange(0, k as int));
                assert(uses.subrange(0, k + 1).last() == node.inputs@[k as int].resource);
            }
            k = k + 1;
        }
        let mut k: usize = 0;
        while k < node.outputs.len()
            invariant
                node == &nodes@[i as int],
                uses == node_uses(nodes@[i as int]),
                n_in == node.inputs@.len(),
                k <= node.outputs@.len(),
                lts.state() == use_all(start, uses.subrange(0, n_in + k), p as u32),
            decreases node.outputs.len() - k,
        {
            lts.record_use(node.outputs[k].resource, p);
            proof {
                assert(uses.subrange(0, n_in + k + 1).drop_last() =~= uses.subrange(0, n_in + k));
                assert(uses.subrange(0, n_in + k + 1).last() == node.outputs@[k as int].resource);
            }
            k = k + 1;
        }
        proof {
            assert(uses.subrange(0, (n_in + node.outputs@.len()) as int) =~= uses);
            assert(order@.subrange(0, p + 1).drop_last() =~= order@.subrange(0, p as int));
        }
        p = p + 1;
    }
    assert(order@.subrange(0, order@.len() as int) =~= order@);
    lts
}

/// Every use along an execution order, in the order they are recorded: for
/// each node in `order`, its inputs then its outputs, each paired with the
/// node's position in `order` (as a `u32`).
pub open spec fn uses_seq<E>(nodes: Seq<Node<E>>, order: Seq<usize>) -> Seq<(ResourceHandle, u32)>
    decreases order.len(),
{
    if order.len() == 0 {
        Seq::empty()
    } else {
        uses_seq(nodes, order.drop_last()) + node_uses(nodes[order.last() as int]).map_values(
            |r: ResourceHandle| (r, (order.len() - 1) as u32),
        )
    }
}

/// The lifetime of `r` in a sequence of uses: from the position of its first
/// use to the position of its last use; `None` when it is not used.
pub open spec fn lifetime_in(us: Seq<(ResourceHandle, u32)>, r: ResourceHandle) -> Option<ResourceLifetime>
    decreases us.len(),
{
    if us.len() == 0 {
        None
    } else {
        let before = lifetime_in(us.drop_last(), r);
        if us.last().0 == r {
            match before {
                Some(lt) => Some(ResourceLifetime { first_use: lt.first_use, last_use: us.last().1 }),
                None => Some(ResourceLifetime { first_use: us.last().1, last_use: us.last().1 }),
            }
        } else {
            before
        }
    }
}

/// The slot key a resource handle carries.
pub open spec fn resource_key(r: ResourceHandle) -> u64 {
    match r {
        ResourceHandle::Texture(h) => h.key(),
        ResourceHandle::Buffer(h) => h.key(),
    }
}

/// Two distinct resources of the same kind used in `us` never share a slot
/// index. This holds when every resource comes from one graph's registries.
pub open spec fn slots_distinct(us: Seq<(ResourceHandle, u32)>) -> bool {
    forall|a: int, b: int|
        0 <= a < us.len() && 0 <= b < us.len() && (us[a].0 is Texture) == (us[b].0 is Texture) && us[a].0
            != us[b].0 ==> slot_index(resource_key(#[trigger] us[a].0)) != slot_index(resource_key(#[trigger] us[b].0))
}

/// The lifetime maps after the uses `us`, in order, starting from `state`.
pub open spec fn fold_uses(state: LifetimeState, us: Seq<(ResourceHandle, u32)>) -> LifetimeState
    decreases us.len(),
{
    if us.len() == 0 {
        state
    } else {
        use_resource(fold_uses(state, us.drop_last()), us.last().0, us.last().1)
    }
}

proof fn lemma_fold_concat(state: LifetimeState, a: Seq<(ResourceHandle, u32)>, b: Seq<(ResourceHandle, u32)>)
    ensures
        fold_uses(state, a + b) == fold_uses(fold_uses(state, a), b),
    decreases b.len(),
{
    if b.len() == 0 {
        assert(a + b =~= a);
    } else {
        assert((a + b).drop_last() =~= a + b.drop_last());
        assert((a + b).last() == b.last());
        lemma_fold_concat(state, a, b.drop_last());
    }
}

proof fn lemma_use_all_is_fold(state: LifetimeState, rs: Seq<ResourceHandle>, i: u32)
    ensures
        use_all(state, rs, i) == fold_uses(state, rs.map_values(|r: ResourceHandle| (r, i))),
    decreases rs.len(),
{
    if rs.len() > 0 {
        assert(rs.map_values(|r: ResourceHandle| (r, i)).drop_last() =~= rs.drop_last().map_values(
            |r: ResourceHandle| (r, i),
        ));
        lemma_use_all_is_fold(state, rs.drop_last(), i);
    }
}

/// The lifetime state along an order is the fold of its sequence of uses.
proof fn lemma_state_is_fold<E>(nodes: Seq<Node<E>>, order: Seq<usize>)
    ensures
        lifetime_state(nodes, order) == fold_uses((Map::empty(), Map::empty()), uses_seq(nodes, order)),
    decreases order.len(),
{
    if order.len() > 0 {
        lemma_state_is_fold(nodes, order.drop_last());
        let rs = node_uses(nodes[order.last() as int]);
        let i = (order.len() - 1) as u32;
        lemma_use_all_is_fold(lifetime_state(nodes, order.drop_last()), rs, i);
        lemma_fold_concat(
            (Map::empty(), Map::empty()),
            uses_seq(nodes, order.drop_last()),
            rs.map_values(|r: ResourceHandle| (r, i)),
        );
    }
}

/// A resource with a lifetime in `us` is used in `us`.
proof fn lemma_lifetime_means_used(us: Seq<(ResourceHandle, u32)>, r: ResourceHandle)
    ensures
        lifetime_in(us, r) is Some ==> exists|a: int| 0 <= a < us.len() && #[trigger] us[a].0 == r,
    decreases us.len(),
{
    if us.len() > 0 {
        lemma_lifetime_means_used(us.drop_last(), r);
        if lifetime_in(us.drop_last(), r) is Some {
            let a = choose|a: int| 0 <= a < us.drop_last().len() && #[trigger] us.drop_last()[a].0 == r;
            assert(us[a].0 == r);
        }
        if us.last().0 == r {
            assert(us[us.len() - 1].0 == r);
        }
    }
}

/// Each entry of the texture map was put there by a texture used in `us`
/// (with its slot index and version), and likewise for buffers.
spec fn entries_from_uses(us: Seq<(ResourceHandle, u32)>, state: LifetimeState) -> bool {
    &&& forall|i: u32|
        #[trigger] state.0.dom().contains(i) ==> exists|a: int|
            0 <= a < us.len() && #[trigger] us[a].0 is Texture && slot_index(resource_key(us[a].0)) == i
                && slot_version(resource_key(us[a].0)) == state.0[i].0
    &&& forall|i: u32|
        #[trigger] state.1.dom().contains(i) ==> exists|a: int|
            0 <= a < us.len() && #[trigger] us[a].0 is Buffer && slot_index(resource_key(us[a].0)) == i
                && slot_version(resource_key(us[a].0)) == state.1[i].0
}

/// Handles of one kind with the same key are the same handle.
proof fn lemma_same_kind_same_key(a: ResourceHandle, b: ResourceHandle)
    ensures
        (a is Texture) == (b is Texture) && resource_key(a) == resource_key(b) ==> a == b,
{
    match (a, b) {
        (ResourceHandle::Texture(x), ResourceHandle::Texture(y)) => lemma_texture_key_injective(x, y),
        (ResourceHandle::Buffer(x), ResourceHandle::Buffer(y)) => lemma_buffer_key_injective(x, y),
        _ => {},
    }
}

proof fn lemma_fold_lifetimes(us: Seq<(ResourceHandle, u32)>)
    requires
        slots_distinct(us),
    ensures
        forall|r: ResourceHandle| #[trigger] state_lifetime(fold_uses((Map::empty(), Map::empty()), us), r)
            == lifetime_in(us, r),
        entries_from_uses(us, fold_uses((Map::empty(), Map::empty()), us)),
    decreases us.len(),
{
    let empty: LifetimeState = (Map::empty(), Map::empty());
    if us.len() == 0 {
        return;
    }
    let prev = us.drop_last();
    assert(slots_distinct(prev)) by {
        assert forall|a: int, b: int|
            0 <= a < prev.len() && 0 <= b < prev.len() && (prev[a].0 is Texture) == (prev[b].0 is Texture)
                && prev[a].0 != prev[b].0 implies slot_index(resource_key(#[trigger] prev[a].0)) != slot_index(
            resource_key(#[trigger] prev[b].0),
        ) by {
            assert(prev[a] == us[a] && prev[b] == us[b]);
        }
    }
    lemma_fold_lifetimes(prev);
    let s0 = fold_uses(empty, prev);
    let (r0, t) = us.last();
    let last = us.len() - 1;
    assert(us[last] == (r0, t));
    let k0 = resource_key(r0);
    let i0 = slot_index(k0) as u32;
    let s1 = fold_uses(empty, us);
    assert(s1 == use_resource(s0, r0, t));
    let m = if r0 is Texture { s0.0 } else { s0.1 };
    // The entry at the slot of `k0`, if any, was put there by `r0` itself.
    assert(m.dom().contains(i0) ==> m[i0].0 == slot_version(k0)) by {
        if m.dom().contains(i0) {
            let a = choose|a: int|
                0 <= a < prev.len() && (if r0 is Texture { prev[a].0 is Texture } else { prev[a].0 is Buffer })
                    && slot_index(resource_key(prev[a].0)) == i0 && slot_version(resource_key(prev[a].0)) == m[i0].0;
            assert(prev[a] == us[a]);
            if us[a].0 != r0 {
                assert(slot_index(resource_key(us[a].0)) != slot_index(resource_key(us[last].0)));
            }
        }
    }
    let v = match sparse_lookup(m, k0) {
        Some(lt) => (lt.0, t),
        None => (t, t),
    };
    let m1 = m.insert(i0, (slot_version(k0) as u32, v));
    assert(use_key(m, k0, t) == m1);
    assert forall|r: ResourceHandle| #[trigger] state_lifetime(s1, r) == lifetime_in(us, r) by {
        assert(state_lifetime(s0, r) == lifetime_in(prev, r));
        lemma_same_kind_same_key(r, r0);
        if (r is Texture) == (r0 is Texture) && r != r0 {
            let k = resource_key(r);
            lemma_key_from_slot(k, k0);
            if slot_index(k) == slot_index(k0) {
                lemma_lifetime_means_used(prev, r);
                if lifetime_in(prev, r) is Some {
                    let a = choose|a: int| 0 <= a < prev.len() && #[trigger] prev[a].0 == r;
                    assert(prev[a] == us[a]);
                    assert(slot_index(resource_key(us[a].0)) != slot_index(resource_key(us[last].0)));
                }
            }
        }
    }
    assert(entries_from_uses(us, s1)) by {
        assert forall|i: u32| #[trigger] s1.0.dom().contains(i) implies exists|a: int|
            0 <= a < us.len() && #[trigger] us[a].0 is Texture && slot_index(resource_key(us[a].0)) == i
                && slot_version(resource_key(us[a].0)) == s1.0[i].0 by {
            if r0 is Texture && i == i0 {
                assert(us[last].0 is Texture);
            } else {
                let a = choose|a: int|
                    0 <= a < prev.len() && #[trigger] prev[a].0 is Texture && slot_index(resource_key(prev[a].0)) == i
                        && slot_version(resource_key(prev[a].0)) == s0.0[i].0;
                assert(prev[a] == us[a]);
            }
        }
        assert forall|i: u32| #[trigger] s1.1.dom().contains(i) implies exists|a: int|
            0 <= a < us.len() && #[trigger] us[a].0 is Buffer && slot_index(resource_key(us[a].0)) == i
                && slot_version(resource_key(us[a].0)) == s1.1[i].0 by {
            if r0 is Buffer && i == i0 {
                assert(us[last].0 is Buffer);
            } else {
                let a = choose|a: int|
                    0 <= a < prev.len() && #[trigger] prev[a].0 is Buffer && slot_index(resource_key(prev[a].0)) == i
                        && slot_version(resource_key(prev[a].0)) == s0.1[i].0;
                assert(prev[a] == us[a]);
            }
        }
    }
}

/// Lifetime analysis gives each resource the span from the position of its
/// first use to the position of its last use along the order (and nothing to
/// unused resources), whenever distinct resources of one kind occupy distinct
/// slots.
pub proof fn lemma_lifetimes_are_first_and_last_uses<E>(nodes: Seq<Node<E>>, order: Seq<usize>, r: ResourceHandle)
    requires
        slots_distinct(uses_seq(nodes, order)),
    ensures
        state_lifetime(lifetime_state(nodes, order), r) == lifetime_in(uses_seq(nodes, order), r),
{
    lemma_state_is_fold(nodes, order);
    lemma_fold_lifetimes(uses_seq(nodes, order));
}

/// Each use in the sequence of uses along `order` is a use of one of the
/// nodes that `order` lists.
pub proof fn lemma_uses_seq_member<E>(nodes: Seq<Node<E>>, order: Seq<usize>, a: int)
    requires
        0 <= a < uses_seq(nodes, order).len(),
    ensures
        exists|p: int| 0 <= p < order.len() && node_uses(nodes[#[trigger] order[p] as int]).contains(uses_seq(nodes, order)[a].0),
    decreases order.len(),
{
    let prev = uses_seq(nodes, order.drop_last());
    let rs = node_uses(nodes[order.last() as int]);
    let i = (order.len() - 1) as u32;
    if a < prev.len() {
        lemma_uses_seq_member(nodes, order.drop_last(), a);
        let p = choose|p: int| 0 <= p < order.drop_last().len() && node_uses(nodes[#[trigger] order.drop_last()[p] as int]).contains(prev[a].0);
        assert(order[p] == order.drop_last()[p]);
    } else {
        let q = a - prev.len();
        assert(uses_seq(nodes, order)[a] == rs.map_values(|r: ResourceHandle| (r, i))[q]);
        assert(rs[q] == uses_seq(nodes, order)[a].0);
        assert(order[order.len() - 1] == order.last());
    }
}

/// The node at position `p` of `order` uses `r`.
pub open spec fn used_at<E>(nodes: Seq<Node<E>>, order: Seq<usize>, r: ResourceHandle, p: int) -> bool {
    0 <= p < order.len() && node_uses(nodes[order[p] as int]).contains(r)
}

/// `lt` is the lifetime of `r` along `order`: `None` when no node uses `r`,
/// else the first and the last position at which a node uses it.
pub open spec fn is_lifetime_along<E>(
    nodes: Seq<Node<E>>,
    order: Seq<usize>,
    r: ResourceHandle,
    lt: Option<ResourceLifetime>,
) -> bool {
    match lt {
        None => forall|p: int| !#[trigger] used_at(nodes, order, r, p),
        Some(lt) => {
            &&& lt.first_use <= lt.last_use
            &&& used_at(nodes, order, r, lt.first_use as int)
            &&& used_at(nodes, order, r, lt.last_use as int)
            &&& forall|p: int| #[trigger] used_at(nodes, order, r, p) ==> lt.first_use <= p <= lt.last_use
        },
    }
}

/// Appending uses all at position `t` extends the lifetime of `r` to `t`
/// when `r` is among them.
proof fn lemma_lifetime_append(a: Seq<(ResourceHandle, u32)>, rs: Seq<ResourceHandle>, t: u32, r: ResourceHandle)
    ensures
        lifetime_in(a + rs.map_values(|x: ResourceHandle| (x, t)), r) == (if rs.contains(r) {
            Some(
                ResourceLifetime {
                    first_use: match lifetime_in(a, r) {
                        Some(lt) => lt.first_use,
                        None => t,
                    },
                    last_use: t,
                },
            )
        } else {
            lifetime_in(a, r)
        }),
    decreases rs.len(),
{
    let us = a + rs.map_values(|x: ResourceHandle| (x, t));
    if rs.len() == 0 {
        assert(us =~= a);
    } else {
        let front = rs.drop_last();
        lemma_lifetime_append(a, front, t, r);
        assert(us.drop_last() =~= a + front.map_values(|x: ResourceHandle| (x, t)));
        assert(us.last() == (rs.last(), t));
        assert(rs.contains(r) <==> (front.contains(r) || rs.last() == r)) by {
            if rs.contains(r) {
                let i = choose|i: int| 0 <= i < rs.len() && rs[i] == r;
                if i < front.len() {
                    assert(front[i] == r);
                }
            }
            if front.contains(r) {
                let i = choose|i: int| 0 <= i < front.len() && front[i] == r;
                assert(rs[i] == r);
            }
            if rs.last() == r {
                assert(rs[rs.len() - 1] == r);
            }
        }
    }
}

/// Along `order`, the lifetime of `r` runs from the first position at which a
/// node uses it to the last; a resource no node uses has none. Positions are
/// counted in a `u32`, so `order` is at most that long.
pub proof fn lemma_lifetime_spans_uses<E>(nodes: Seq<Node<E>>, order: Seq<usize>, r: ResourceHandle)
    requires
        order.len() <= u32::MAX + 1,
    ensures
        is_lifetime_along(nodes, order, r, lifetime_in(uses_seq(nodes, order), r)),
    decreases order.len(),
{
    if order.len() == 0 {
        return;
    }
    let prev = order.drop_last();
    let last = order.len() - 1;
    let rs = node_uses(nodes[order.last() as int]);
    lemma_lifetime_spans_uses(nodes, prev, r);
    lemma_lifetime_append(uses_seq(nodes, prev), rs, last as u32, r);
    assert(order[last] == order.last());
    assert forall|p: int| 0 <= p < last implies #[trigger] used_at(nodes, order, r, p) == used_at(nodes, prev, r, p) by {
        assert(order[p] == prev[p]);
    }
    assert(used_at(nodes, order, r, last) == rs.contains(r));
    assert forall|p: int| #[trigger] used_at(nodes, order, r, p) implies p == last || used_at(nodes, prev, r, p) by {
        if p < last {
            assert(order[p] == prev[p]);
        }
    }
    let lt = lifetime_in(uses_seq(nodes, order), r);
    if let Some(prev_lt) = lifetime_in(uses_seq(nodes, prev), r) {
        assert(used_at(nodes, order, r, prev_lt.first_use as int)) by {
            assert(order[prev_lt.first_use as int] == prev[prev_lt.first_use as int]);
        }
        assert(used_at(nodes, order, r, prev_lt.last_use as int)) by {
            assert(order[prev_lt.last_use as int] == prev[prev_lt.last_use as int]);
        }
    }
}

} // verus!
