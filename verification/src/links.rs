//! Link descriptors over the composition graph: each names one way of
//! walking from a structure to its edges or from an edge to a structure, and
//! its `follow` method performs that join against the store.

use vstd::prelude::*;

use crate::component;
use crate::store::edges_of;
use crate::store::lemma_filter_first;
use crate::store::lemma_filter_none;
use crate::store::lemma_filter_push;
use crate::store::lookup_structure;
use crate::store::opt_view;
use crate::store::Store;
use crate::structure;

verus! {

/// From a structure to the edges that use it as a component: where it is
/// built into other structures.
pub struct ComponentOf;

/// From a structure to its outgoing edges: what it is built from.
pub struct Components;

/// From an edge to the structure it names as the component.
pub struct ComponentStructure;

/// From an edge to the structure that owns it.
pub struct StructureComponent;

/// The edges of the store whose component id is `id`.
fn edges_with_component(store: &Store, id: u32) -> (r: Vec<component::Model>)
    ensures
        r@ == store@.components.filter(|e: component::Model| e.component_id == id),
{
    let v = store.component_rows();
    proof {
        assert(v@.map_values(|m: component::Model| m@) =~= v@);
    }
    let ghost pred = |e: component::Model| e.component_id == id;
    let n = v.len();
    let mut r: Vec<component::Model> = Vec::new();
    let mut i: usize = 0;
    proof {
        assert(v@.subrange(0, 0) =~= Seq::<component::Model>::empty());
        assert(Seq::<component::Model>::empty().filter(pred) =~= Seq::<component::Model>::empty())
            by {
            reveal(Seq::filter);
        }
        assert(r@ =~= Seq::<component::Model>::empty());
    }
    while i < n
        invariant
            i <= n,
            n == v@.len(),
            v@ == store@.components,
            pred == (|e: component::Model| e.component_id == id),
            r@ == v@.subrange(0, i as int).filter(pred),
        decreases n - i,
    {
        proof {
            lemma_filter_push(v@.subrange(0, i as int), pred, v@[i as int]);
            assert(v@.subrange(0, i as int).push(v@[i as int]) =~= v@.subrange(0, i + 1));
        }
        if v[i].component_id == id {
            r.push(v[i]);
        }
        i += 1;
    }
    proof {
        assert(v@.subrange(0, n as int) =~= v@);
    }
    r
}

/// The edges of the store whose owning structure is `id`.
fn edges_with_structure(store: &Store, id: u32) -> (r: Vec<component::Model>)
    ensures
        r@ == edges_of(store@.components, id),
{
    let v = store.component_rows();
    proof {
        assert(v@.map_values(|m: component::Model| m@) =~= v@);
    }
    let ghost pred = |e: component::Model| e.structure_id == id;
    let n = v.len();
    let mut r: Vec<component::Model> = Vec::new();
    let mut i: usize = 0;
    proof {
        assert(v@.subrange(0, 0) =~= Seq::<component::Model>::empty());
        assert(Seq::<component::Model>::empty().filter(pred) =~= Seq::<component::Model>::empty())
            by {
            reveal(Seq::filter);
        }
        assert(r@ =~= Seq::<component::Model>::empty());
    }
    while i < n
        invariant
            i <= n,
            n == v@.len(),
            v@ == store@.components,
            pred == (|e: component::Model| e.structure_id == id),
            r@ == v@.subrange(0, i as int).filter(pred),
        decreases n - i,
    {
        proof {
            lemma_filter_push(v@.subrange(0, i as int), pred, v@[i as int]);
            assert(v@.subrange(0, i as int).push(v@[i as int]) =~= v@.subrange(0, i + 1));
        }
        if v[i].structure_id == id {
            r.push(v[i]);
        }
        i += 1;
    }
    proof {
        assert(v@.subrange(0, n as int) =~= v@);
    }
    r
}

/// The first structure of the store with this id, if any.
fn structure_with_id(store: &Store, id: u32) -> (r: Option<structure::Model>)
    ensures
        opt_view(r) == lookup_structure(store@.structures, id),
{
    let v = store.structure_rows();
    let ghost ss = store@.structures;
    let n = v.len();
    let mut i: usize = 0;
    proof {
        assert(v@.map_values(|m: structure::Model| m@).len() == v@.len());
    }
    while i < n
        invariant
            i <= n,
            n == v@.len(),
            n == ss.len(),
            ss == store@.structures,
            v@.map_values(|m: structure::Model| m@) == ss,
            forall|k: int| 0 <= k < n ==> #[trigger] ss[k] == v@[k]@,
            forall|k: int| 0 <= k < i ==> (#[trigger] ss[k]).id != id,
        decreases n - i,
    {
        if v[i].id == id {
            proof {
                lemma_filter_first(ss, |m: structure::ModelV| m.id == id, i as int);
            }
            return Some(v[i].duplicate());
        }
        i += 1;
    }
    proof {
        lemma_filter_none(ss, |m: structure::ModelV| m.id == id);
    }
    None
}

impl ComponentOf {
    /// The edges in which this structure is used as a component, in stored
    /// order.
    pub fn follow(&self, store: &Store, structure_id: u32) -> (r: Vec<component::Model>)
        ensures
            r@ == store@.components.filter(
                |e: component::Model| e.component_id == structure_id,
            ),
    {
        edges_with_component(store, structure_id)
    }
}

impl Components {
    /// The outgoing edges of this structure, in stored order.
    pub fn follow(&self, store: &Store, structure_id: u32) -> (r: Vec<component::Model>)
        ensures
            r@ == edges_of(store@.components, structure_id),
    {
        edges_with_structure(store, structure_id)
    }
}

impl ComponentStructure {
    /// The structure an edge names as its component, if it exists.
    pub fn follow(&self, store: &Store, edge: &component::Model) -> (r: Option<structure::Model>)
        ensures
            opt_view(r) == lookup_structure(store@.structures, edge.component_id),
    {
        structure_with_id(store, edge.component_id)
    }
}

impl StructureComponent {
    /// The structure that owns an edge, if it exists.
    pub fn follow(&self, store: &Store, edge: &component::Model) -> (r: Option<structure::Model>)
        ensures
            opt_view(r) == lookup_structure(store@.structures, edge.structure_id),
    {
        structure_with_id(store, edge.structure_id)
    }
}

} // verus!
