use vstd::prelude::*;

use crate::node::Node;

verus! {

#[verifier::external_type_specification]
#[verifier::external_body]
pub struct ExDefaultKey(slotmap::DefaultKey);

/// Which slot a generational key addresses; a function of the key's bits
/// alone.
pub uninterp spec fn key_index(k: slotmap::DefaultKey) -> nat;

/// What the arena holds, in insertion order.
pub uninterp spec fn arena_nodes(m: &NodeArena) -> Seq<Node>;

/// Generational arena the graph stores its nodes in. Verus refuses a direct
/// declaration of slotmap::SlotMap (its key-trait bound), so the map lives in
/// this opaque struct; `arena_nodes` names what it holds, in insertion order,
/// and the methods below say how each slotmap call moves that sequence.
/// Nothing here ever removes a value: every contract relies on that.
#[verifier::external_body]
pub struct NodeArena {
    inner: slotmap::SlotMap<slotmap::DefaultKey, Node>,
}

impl NodeArena {
    /// Relies on slotmap::SlotMap::with_key: a freshly built map holds no
    /// values.
    #[verifier::external_body]
    pub fn new() -> (m: NodeArena)
        ensures
            arena_nodes(&m) == Seq::<Node>::empty(),
    {
        NodeArena { inner: slotmap::SlotMap::with_key() }
    }

    /// Relies on slotmap::SlotMap::insert: with no value ever removed, insert
    /// occupies the next fresh slot and hands back that slot's key.
    #[verifier::external_body]
    pub fn insert(&mut self, v: Node) -> (k: slotmap::DefaultKey)
        ensures
            arena_nodes(final(self)) == arena_nodes(old(self)).push(v),
            key_index(k) == arena_nodes(old(self)).len(),
    {
        self.inner.insert(v)
    }

    /// Relies on slotmap::SlotMap::get: the key's slot index and version
    /// decide whether and where the lookup lands; with no removals every
    /// occupied slot keeps its first version.
    #[verifier::external_body]
    pub fn get(&self, k: slotmap::DefaultKey) -> (r: Option<&Node>)
        ensures
            r is Some <==> key_index(k) < arena_nodes(self).len(),
            r matches Some(v) ==> *v == arena_nodes(self)[key_index(k) as int],
    {
        self.inner.get(k)
    }

    /// Relies on slotmap::SlotMap::get_mut, with the same slot model as get;
    /// writes the given value through the returned reference.
    #[verifier::external_body]
    pub fn set(&mut self, k: slotmap::DefaultKey, v: Node) -> (ok: bool)
        ensures
            ok <==> key_index(k) < arena_nodes(old(self)).len(),
            ok ==> arena_nodes(final(self)) == arena_nodes(old(self)).update(
                key_index(k) as int,
                v,
            ),
            !ok ==> arena_nodes(final(self)) == arena_nodes(old(self)),
    {
        match self.inner.get_mut(k) {
            Some(slot) => {
                *slot = v;
                true
            },
            None => false,
        }
    }

    /// Relies on slotmap::SlotMap::len: the number of values the map holds.
    #[verifier::external_body]
    pub fn len(&self) -> (n: usize)
        ensures
            n == arena_nodes(self).len(),
    {
        self.inner.len()
    }
}

/// Stable, generation-checked reference to a graph node: the raw arena key
/// together with the node's position in insertion order. The two always
/// agree; the position carries the ordering the graph's proofs lean on.
#[derive(Clone, Copy, Debug)]
pub struct NodeKey {
    raw: slotmap::DefaultKey,
    slot: usize,
}

impl NodeKey {
    #[verifier::type_invariant]
    pub closed spec fn key_wf(self) -> bool {
        self.slot as nat == key_index(self.raw)
    }

    /// The node's position in the owning arena's insertion order.
    pub closed spec fn slot_view(self) -> nat {
        self.slot as nat
    }

    /// The position fits the machine word it is stored in.
    pub proof fn lemma_slot_bound(self)
        ensures
            self.slot_view() <= usize::MAX,
    {
    }

    pub(crate) fn from_parts(raw: slotmap::DefaultKey, slot: usize) -> (r: NodeKey)
        requires
            slot as nat == key_index(raw),
        ensures
            r.slot_view() == slot,
    {
        NodeKey { raw, slot }
    }

    pub fn slot(&self) -> (r: usize)
        ensures
            r == self.slot_view(),
    {
        self.slot
    }

    pub(crate) fn raw(&self) -> (r: slotmap::DefaultKey)
        ensures
            key_index(r) == self.slot_view(),
    {
        proof {
            use_type_invariant(*self);
        }
        self.raw
    }
}

} // verus!
