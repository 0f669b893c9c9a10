//! Stable-key storage of tree nodes, on a slot map.
//!
//! A node key is the integer form of the slot map's key
//! (`KeyData::as_ffi`), which identifies one live slot and version.

use slotmap::{DefaultKey, Key, KeyData, SlotMap};
use vstd::prelude::*;

verus! {

/// One element of the tree: its parent, its children in creation order, its
/// position among its siblings and an optional debug name.
pub struct Node {
    pub parent: Option<u64>,
    pub children: Vec<u64>,
    pub child_idx: usize,
    pub name: Option<String>,
    pub depth: Ghost<nat>,
}

/// What a node holds, as plain values.
pub struct NodeView {
    pub parent: Option<u64>,
    pub children: Seq<u64>,
    pub child_idx: usize,
    pub name: Option<Seq<char>>,
    pub depth: nat,
}

impl View for Node {
    type V = NodeView;

    open spec fn view(&self) -> NodeView {
        NodeView {
            parent: self.parent,
            children: self.children@,
            child_idx: self.child_idx,
            name: match self.name {
                Some(s) => Some(s@),
                None => None,
            },
            depth: self.depth@,
        }
    }
}

/// The slot map that stores the tree, seen only through the functions below.
#[verifier::external_body]
pub struct NodeSlots {
    slots: SlotMap<DefaultKey, Node>,
}

/// The live nodes of a slot map, by integer key.
pub uninterp spec fn slot_nodes(m: NodeSlots) -> Map<u64, NodeView>;

/// Relies on `SlotMap::new`: a new slot map holds nothing.
#[verifier::external_body]
pub(crate) fn slots_new() -> (r: NodeSlots)
    ensures
        slot_nodes(r).dom() == Set::<u64>::empty(),
{
    NodeSlots { slots: SlotMap::new() }
}

/// Relies on `SlotMap::len`: the number of live elements.
#[verifier::external_body]
pub(crate) fn slots_len(m: &NodeSlots) -> (r: usize)
    ensures
        r == slot_nodes(*m).len(),
{
    m.slots.len()
}

/// Relies on `SlotMap::insert`: the value is stored under a fresh key, which
/// is returned. It panics only when `u32::MAX` slots exist and none is free,
/// which cannot happen while fewer than `u32::MAX - 1` elements are live.
#[verifier::external_body]
pub(crate) fn slots_insert(m: &mut NodeSlots, node: Node) -> (k: u64)
    requires
        slot_nodes(*old(m)).len() < u32::MAX - 1,
    ensures
        !slot_nodes(*old(m)).contains_key(k),
        slot_nodes(*final(m)) == slot_nodes(*old(m)).insert(k, node@),
{
    m.slots.insert(node).data().as_ffi()
}

/// Relies on `SlotMap`'s `Index`: the value under a live key.
#[verifier::external_body]
pub(crate) fn slots_get(m: &NodeSlots, k: u64) -> (r: &Node)
    requires
        slot_nodes(*m).contains_key(k),
    ensures
        r@ == slot_nodes(*m)[k],
{
    &m.slots[DefaultKey::from(KeyData::from_ffi(k))]
}

/// Relies on `SlotMap`'s `IndexMut` and `core::mem::replace`: the value under
/// a live key is swapped for `node` and handed back.
#[verifier::external_body]
pub(crate) fn slots_replace(m: &mut NodeSlots, k: u64, node: Node) -> (r: Node)
    requires
        slot_nodes(*old(m)).contains_key(k),
    ensures
        r@ == slot_nodes(*old(m))[k],
        slot_nodes(*final(m)) == slot_nodes(*old(m)).insert(k, node@),
{
    core::mem::replace(&mut m.slots[DefaultKey::from(KeyData::from_ffi(k))], node)
}

/// Relies on `SlotMap::get` and `KeyData::from_ffi`: a key read back from its
/// integer form is the same key, so a live integer key finds its own node and
/// gets itself back; an integer that finds no live node gets `None`.
#[verifier::external_body]
pub(crate) fn slots_key_of(m: &NodeSlots, k: u64) -> (r: Option<u64>)
    ensures
        slot_nodes(*m).contains_key(k) ==> r == Some(k),
        r is Some ==> slot_nodes(*m).contains_key(r.unwrap()),
{
    let key = DefaultKey::from(KeyData::from_ffi(k));
    m.slots.get(key).map(|_| key.data().as_ffi())
}

/// Relies on `SlotMap::remove`: a live key's value leaves the map.
#[verifier::external_body]
pub(crate) fn slots_remove(m: &mut NodeSlots, k: u64) -> (r: Option<Node>)
    requires
        slot_nodes(*old(m)).contains_key(k),
    ensures
        r is Some && r.unwrap()@ == slot_nodes(*old(m))[k],
        slot_nodes(*final(m)) == slot_nodes(*old(m)).remove(k),
{
    m.slots.remove(DefaultKey::from(KeyData::from_ffi(k)))
}

} // verus!
