//! The in-memory relational store: the four tables as ordered rows, with the
//! integrity rules of the catalogue — ids unique and stable, names and
//! canonical line notations unique when present, deletes blocked while a
//! structure is referenced as a component, and cascading deletes of a removed
//! structure's attributes and outgoing edges.
//!
//! The structures, properties and images tables are kept ordered by their
//! integer key, the order an id-keyed relational scan returns rows in; the
//! components table keeps insertion order, as a table with a composite key
//! does.

use vstd::prelude::*;
use vstd::pervasive::VecAdditionalExecFns;

use crate::component;
use crate::image;
use crate::property;
use crate::structure;
use crate::text::contains_seq;
use crate::text::contains_sub;
use crate::text::view_opt;
use crate::Error;

verus! {

/// The views of an optional record.
pub open spec fn opt_view<T: View>(o: Option<T>) -> Option<T::V> {
    match o {
        Some(x) => Some(x@),
        None => None,
    }
}

// ---------------------------------------------------------------------------
// The store and its invariant
// ---------------------------------------------------------------------------

/// The relational store.
pub struct Store {
    pub(crate) structures: Vec<structure::Model>,
    pub(crate) components: Vec<component::Model>,
    pub(crate) properties: Vec<property::Model>,
    pub(crate) images: Vec<image::Model>,
}

/// The mathematical value of the store: the four tables as row sequences.
#[verifier::ext_equal]
pub ghost struct StoreV {
    pub structures: Seq<structure::ModelV>,
    pub components: Seq<component::Model>,
    pub properties: Seq<property::ModelV>,
    pub images: Seq<image::ModelV>,
}

impl View for Store {
    type V = StoreV;

    closed spec fn view(&self) -> StoreV {
        StoreV {
            structures: self.structures@.map_values(|m: structure::Model| m@),
            components: self.components@.map_values(|m: component::Model| m@),
            properties: self.properties@.map_values(|m: property::Model| m@),
            images: self.images@.map_values(|m: image::Model| m@),
        }
    }
}

/// The store with no rows.
pub open spec fn empty_store() -> StoreV {
    StoreV {
        structures: Seq::empty(),
        components: Seq::empty(),
        properties: Seq::empty(),
        images: Seq::empty(),
    }
}

/// Structure rows are ordered by strictly ascending id.
pub open spec fn structures_sorted(ss: Seq<structure::ModelV>) -> bool {
    forall|i: int, j: int|
        0 <= i < j < ss.len() ==> (#[trigger] ss[i]).id < (#[trigger] ss[j]).id
}

/// No two structure rows share a present name.
pub open spec fn names_unique(ss: Seq<structure::ModelV>) -> bool {
    forall|i: int, j: int|
        0 <= i < j < ss.len() ==> !((#[trigger] ss[i]).name is Some && ss[i].name == (
        #[trigger] ss[j]).name)
}

/// No two structure rows share a present canonical line notation.
pub open spec fn smiles_unique(ss: Seq<structure::ModelV>) -> bool {
    forall|i: int, j: int|
        0 <= i < j < ss.len() ==> !((#[trigger] ss[i]).smiles is Some && ss[i].smiles == (
        #[trigger] ss[j]).smiles)
}

/// No two edges share the composite key.
pub open spec fn components_unique(cs: Seq<component::Model>) -> bool {
    forall|i: int, j: int|
        0 <= i < j < cs.len() ==> !((#[trigger] cs[i]).structure_id == (
        #[trigger] cs[j]).structure_id && cs[i].component_id == cs[j].component_id)
}

/// Property rows are ordered by strictly ascending structure id.
pub open spec fn properties_sorted(ps: Seq<property::ModelV>) -> bool {
    forall|i: int, j: int|
        0 <= i < j < ps.len() ==> (#[trigger] ps[i]).structure_id < (
        #[trigger] ps[j]).structure_id
}

/// Image rows are ordered by strictly ascending structure id.
pub open spec fn images_sorted(ims: Seq<image::ModelV>) -> bool {
    forall|i: int, j: int|
        0 <= i < j < ims.len() ==> (#[trigger] ims[i]).structure_id < (
        #[trigger] ims[j]).structure_id
}

/// The store's invariant.
pub open spec fn inv(s: StoreV) -> bool {
    &&& structures_sorted(s.structures)
    &&& names_unique(s.structures)
    &&& smiles_unique(s.structures)
    &&& s.structures.len() <= u32::MAX as nat
    &&& components_unique(s.components)
    &&& properties_sorted(s.properties)
    &&& images_sorted(s.images)
}

// ---------------------------------------------------------------------------
// Lookups, specified
// ---------------------------------------------------------------------------

/// Some structure row has this id.
pub open spec fn contains_id(ss: Seq<structure::ModelV>, id: u32) -> bool {
    exists|i: int| 0 <= i < ss.len() && (#[trigger] ss[i]).id == id
}

/// Some structure row has this present name.
pub open spec fn name_taken(ss: Seq<structure::ModelV>, name: Option<Seq<char>>) -> bool {
    name is Some && exists|i: int| 0 <= i < ss.len() && (#[trigger] ss[i]).name == name
}

/// Some structure row other than `id`'s has this present name.
pub open spec fn name_taken_by_other(
    ss: Seq<structure::ModelV>,
    id: u32,
    name: Option<Seq<char>>,
) -> bool {
    name is Some && exists|i: int|
        0 <= i < ss.len() && (#[trigger] ss[i]).id != id && ss[i].name == name
}

/// Some structure row has this present canonical line notation.
pub open spec fn smiles_taken(ss: Seq<structure::ModelV>, smiles: Option<Seq<char>>) -> bool {
    smiles is Some && exists|i: int| 0 <= i < ss.len() && (#[trigger] ss[i]).smiles == smiles
}

/// Some structure row other than `id`'s has this present canonical line
/// notation.
pub open spec fn smiles_taken_by_other(
    ss: Seq<structure::ModelV>,
    id: u32,
    smiles: Option<Seq<char>>,
) -> bool {
    smiles is Some && exists|i: int|
        0 <= i < ss.len() && (#[trigger] ss[i]).id != id && ss[i].smiles == smiles
}

/// Some edge names this id as its component.
pub open spec fn references_exist(cs: Seq<component::Model>, id: u32) -> bool {
    exists|i: int| 0 <= i < cs.len() && (#[trigger] cs[i]).component_id == id
}

/// Some edge has this composite key.
pub open spec fn contains_edge(cs: Seq<component::Model>, sid: u32, cid: u32) -> bool {
    exists|i: int|
        0 <= i < cs.len() && (#[trigger] cs[i]).structure_id == sid && cs[i].component_id == cid
}

/// Some property row has this structure id.
pub open spec fn contains_prop(ps: Seq<property::ModelV>, id: u32) -> bool {
    exists|i: int| 0 <= i < ps.len() && (#[trigger] ps[i]).structure_id == id
}

/// Some image row has this structure id.
pub open spec fn contains_image(ims: Seq<image::ModelV>, id: u32) -> bool {
    exists|i: int| 0 <= i < ims.len() && (#[trigger] ims[i]).structure_id == id
}

/// The first structure row with this id, if any.
pub open spec fn lookup_structure(ss: Seq<structure::ModelV>, id: u32) -> Option<
    structure::ModelV,
> {
    let ms = ss.filter(|m: structure::ModelV| m.id == id);
    if ms.len() == 0 {
        None
    } else {
        Some(ms[0])
    }
}

/// The first property row with this structure id, if any.
pub open spec fn lookup_property(ps: Seq<property::ModelV>, id: u32) -> Option<property::ModelV> {
    let ms = ps.filter(|p: property::ModelV| p.structure_id == id);
    if ms.len() == 0 {
        None
    } else {
        Some(ms[0])
    }
}

/// The first image row with this structure id, if any.
pub open spec fn lookup_image(ims: Seq<image::ModelV>, id: u32) -> Option<image::ModelV> {
    let ms = ims.filter(|im: image::ModelV| im.structure_id == id);
    if ms.len() == 0 {
        None
    } else {
        Some(ms[0])
    }
}

/// The outgoing edges of a structure, in stored order.
pub open spec fn edges_of(cs: Seq<component::Model>, id: u32) -> Seq<component::Model> {
    cs.filter(|e: component::Model| e.structure_id == id)
}

// ---------------------------------------------------------------------------
// Filter toolkit
// ---------------------------------------------------------------------------

/// Filtering a sequence grown by one element.
pub proof fn lemma_filter_push<A>(s: Seq<A>, pred: spec_fn(A) -> bool, x: A)
    ensures
        s.push(x).filter(pred) == if pred(x) {
            s.filter(pred).push(x)
        } else {
            s.filter(pred)
        },
{
    reveal(Seq::filter);
    assert(s.push(x).drop_last() =~= s);
    assert(s.push(x).last() == x);
}

/// A filter of an all-rejected sequence is empty.
pub proof fn lemma_filter_none<A>(s: Seq<A>, pred: spec_fn(A) -> bool)
    requires
        forall|k: int| 0 <= k < s.len() ==> !pred(#[trigger] s[k]),
    ensures
        s.filter(pred).len() == 0,
    decreases s.len(),
{
    reveal(Seq::filter);
    if s.len() > 0 {
        assert(forall|k: int| 0 <= k < s.drop_last().len() ==> s.drop_last()[k] == s[k]);
        lemma_filter_none(s.drop_last(), pred);
    }
}

/// The first accepted element heads the filter.
pub proof fn lemma_filter_first<A>(s: Seq<A>, pred: spec_fn(A) -> bool, i: int)
    requires
        0 <= i < s.len(),
        pred(s[i]),
        forall|k: int| 0 <= k < i ==> !pred(#[trigger] s[k]),
    ensures
        s.filter(pred).len() > 0,
        s.filter(pred)[0] == s[i],
    decreases s.len(),
{
    reveal(Seq::filter);
    if i == s.len() - 1 {
        lemma_filter_none(s.drop_last(), pred);
    } else {
        assert(forall|k: int| 0 <= k < s.drop_last().len() ==> s.drop_last()[k] == s[k]);
        lemma_filter_first(s.drop_last(), pred, i);
    }
}

/// Every element of a filter is an element of the sequence.
pub proof fn lemma_filter_members<A>(s: Seq<A>, pred: spec_fn(A) -> bool)
    ensures
        forall|j: int|
            0 <= j < s.filter(pred).len() ==> exists|k: int|
                0 <= k < s.len() && #[trigger] s.filter(pred)[j] == s[k],
    decreases s.len(),
{
    reveal(Seq::filter);
    if s.len() > 0 {
        lemma_filter_members(s.drop_last(), pred);
        let f = s.filter(pred);
        let fd = s.drop_last().filter(pred);
        assert forall|j: int| 0 <= j < f.len() implies exists|k: int|
            0 <= k < s.len() && #[trigger] f[j] == s[k] by {
            if j < fd.len() {
                let k = choose|k: int| 0 <= k < s.drop_last().len() && fd[j] == s.drop_last()[k];
                assert(f[j] == s[k]);
            } else {
                assert(f[j] == s[s.len() - 1]);
            }
        }
    }
}

// ---------------------------------------------------------------------------
// Creating structures, specified
// ---------------------------------------------------------------------------

/// The id the store assigns to the next created structure: one past the
/// largest id in use, starting from one.
pub open spec fn next_id(s: StoreV) -> int {
    if s.structures.len() == 0 {
        1
    } else {
        s.structures.last().id + 1
    }
}

/// A creation succeeds when neither unique key collides and the table can
/// still assign an id and count its rows.
pub open spec fn create_ok(s: StoreV, name: Option<Seq<char>>, smiles: Option<Seq<char>>) -> bool {
    &&& !name_taken(s.structures, name)
    &&& !smiles_taken(s.structures, smiles)
    &&& next_id(s) <= u32::MAX
    &&& s.structures.len() < u32::MAX as nat
}

/// What creating a structure does: appends a fresh row with the assigned id,
/// or leaves the store unchanged and reports the constraint violation.
pub open spec fn spec_create(
    s: StoreV,
    name: Option<Seq<char>>,
    formula: Seq<char>,
    smiles: Option<Seq<char>>,
    charge: i8,
) -> (StoreV, Result<u32, Error>) {
    if create_ok(s, name, smiles) {
        let id = next_id(s) as u32;
        (
            StoreV {
                structures: s.structures.push(
                    structure::ModelV { id, name, formula, smiles, charge },
                ),
                components: s.components,
                properties: s.properties,
                images: s.images,
            },
            Ok(id),
        )
    } else {
        (s, Err(Error::ConstraintViolation))
    }
}



// ---------------------------------------------------------------------------
// The store, executable
// ---------------------------------------------------------------------------

impl Store {
    /// The store's invariant, as seen by callers.
    pub open spec fn wf(&self) -> bool {
        inv(self@)
    }

    /// An empty store, as schema bootstrap leaves it.
    pub fn new() -> (r: Store)
        ensures
            r@ == empty_store(),
            r.wf(),
    {
        let r = Store {
            structures: Vec::new(),
            components: Vec::new(),
            properties: Vec::new(),
            images: Vec::new(),
        };
        proof {
            assert(r@ =~= empty_store());
        }
        r
    }

    /// Empties the store, as dropping and recreating the backing tables does.
    pub fn reset_database(&mut self)
        ensures
            final(self)@ == empty_store(),
            final(self).wf(),
    {
        *self = Store::new();
    }

    /// The number of structure rows.
    pub fn structure_count(&self) -> (r: u32)
        requires
            self.wf(),
        ensures
            r as nat == self@.structures.len(),
    {
        proof {
            assert(self@.structures.len() == self.structures@.len());
        }
        self.structures.len() as u32
    }

    /// Whether some structure row carries this present name.
    fn name_is_taken(&self, name: &Option<String>) -> (r: bool)
        ensures
            r == name_taken(self@.structures, view_opt(*name)),
    {
        let nm = match name {
            None => {
                return false;
            },
            Some(nm) => nm,
        };
        proof {
            assert(view_opt(*name) == Some(nm@));
        }
        let n = self.structures.len();
        let mut i: usize = 0;
        while i < n
            invariant
                i <= n,
                n == self@.structures.len(),
                n == self.structures@.len(),
                forall|k: int|
                    0 <= k < n ==> #[trigger] self@.structures[k] == self.structures@[k]@,
                view_opt(*name) == Some(nm@),
                forall|k: int| 0 <= k < i ==> (#[trigger] self@.structures[k]).name != Some(nm@),
            decreases n - i,
        {
            if let Some(other) = &self.structures[i].name {
                if *other == *nm {
                    proof {
                        assert(self@.structures[i as int] == self.structures@[i as int]@);
                        assert(self@.structures[i as int].name == Some(nm@));
                    }
                    return true;
                }
            }
            i += 1;
        }
        false
    }

    /// Whether some structure row carries this present canonical line
    /// notation.
    fn smiles_is_taken(&self, smiles: &Option<String>) -> (r: bool)
        ensures
            r == smiles_taken(self@.structures, view_opt(*smiles)),
    {
        let sm = match smiles {
            None => {
                return false;
            },
            Some(sm) => sm,
        };
        proof {
            assert(view_opt(*smiles) == Some(sm@));
        }
        let n = self.structures.len();
        let mut i: usize = 0;
        while i < n
            invariant
                i <= n,
                n == self@.structures.len(),
                n == self.structures@.len(),
                forall|k: int|
                    0 <= k < n ==> #[trigger] self@.structures[k] == self.structures@[k]@,
                view_opt(*smiles) == Some(sm@),
                forall|k: int| 0 <= k < i ==> (#[trigger] self@.structures[k]).smiles != Some(sm@),
            decreases n - i,
        {
            if let Some(other) = &self.structures[i].smiles {
                if *other == *sm {
                    proof {
                        assert(self@.structures[i as int] == self.structures@[i as int]@);
                        assert(self@.structures[i as int].smiles == Some(sm@));
                    }
                    return true;
                }
            }
            i += 1;
        }
        false
    }

    /// The position of the structure row with this id, if any.
    fn find_structure_index(&self, id: u32) -> (r: Option<usize>)
        ensures
            match r {
                Some(i) => i < self@.structures.len() && (#[trigger] self@.structures[i as int]).id
                    == id && forall|k: int|
                    0 <= k < i ==> (#[trigger] self@.structures[k]).id != id,
                None => forall|k: int|
                    0 <= k < self@.structures.len() ==> (#[trigger] self@.structures[k]).id != id,
            },
    {
        let n = self.structures.len();
        let mut i: usize = 0;
        while i < n
            invariant
                i <= n,
                n == self@.structures.len(),
                n == self.structures@.len(),
                forall|k: int|
                    0 <= k < n ==> #[trigger] self@.structures[k] == self.structures@[k]@,
                forall|k: int| 0 <= k < i ==> (#[trigger] self@.structures[k]).id != id,
            decreases n - i,
        {
            if self.structures[i].id == id {
                return Some(i);
            }
            i += 1;
        }
        None
    }

    /// Creates a structure: assigns the next id and appends the row, or
    /// reports the constraint violation and leaves the store unchanged.
    pub fn create_structure(
        &mut self,
        name: Option<String>,
        formula: String,
        smiles: Option<String>,
        charge: i8,
    ) -> (r: Result<u32, Error>)
        requires
            old(self).wf(),
        ensures
            final(self).wf(),
            final(self)@ == spec_create(
                old(self)@,
                view_opt(name),
                formula@,
                view_opt(smiles),
                charge,
            ).0,
            r == spec_create(old(self)@, view_opt(name), formula@, view_opt(smiles), charge).1,
    {
        let ghost s0 = self@;
        if self.name_is_taken(&name) {
            return Err(Error::ConstraintViolation);
        }
        if self.smiles_is_taken(&smiles) {
            return Err(Error::ConstraintViolation);
        }
        let n = self.structures.len();
        proof {
            assert(s0.structures.len() == self.structures@.len());
        }
        if n >= u32::MAX as usize {
            return Err(Error::ConstraintViolation);
        }
        let id: u32 = if n == 0 {
            1
        } else {
            let last_id = self.structures[n - 1].id;
            proof {
                assert(s0.structures.last() == self.structures@[n - 1]@);
            }
            if last_id == u32::MAX {
                return Err(Error::ConstraintViolation);
            }
            last_id + 1
        };
        let m = structure::Model { id, name, formula, smiles, charge };
        proof {
            assert(next_id(s0) == id);
            assert(create_ok(s0, view_opt(m.name), view_opt(m.smiles)));
        }
        self.structures.push(m);
        proof {
            let s1 = self@;
            assert(s1.structures =~= s0.structures.push(
                structure::ModelV {
                    id,
                    name: view_opt(name),
                    formula: formula@,
                    smiles: view_opt(smiles),
                    charge,
                },
            ));
            assert(s1.components =~= s0.components);
            assert(s1.properties =~= s0.properties);
            assert(s1.images =~= s0.images);
            assert(s1 =~= spec_create(s0, view_opt(name), formula@, view_opt(smiles), charge).0);
            assert forall|k: int| 0 <= k < s0.structures.len() implies (
            #[trigger] s0.structures[k]).id < id by {
                if k < s0.structures.len() - 1 {
                    assert(s0.structures[k].id < s0.structures[s0.structures.len() - 1].id);
                }
            }
            assert(structures_sorted(s1.structures));
            assert(names_unique(s1.structures));
            assert(smiles_unique(s1.structures));
        }
        Ok(id)
    }
}


// ---------------------------------------------------------------------------
// Updating and removing structures, specified
// ---------------------------------------------------------------------------

/// What updating a structure does: replaces every field of the row with this
/// id, or reports why nothing changed. A missing row is reported before any
/// key collision, as a lookup-then-write sequence does.
pub open spec fn spec_update(
    s: StoreV,
    id: u32,
    name: Option<Seq<char>>,
    formula: Seq<char>,
    smiles: Option<Seq<char>>,
    charge: i8,
) -> (StoreV, Result<(), Error>) {
    if !contains_id(s.structures, id) {
        (s, Err(Error::NotFound))
    } else if name_taken_by_other(s.structures, id, name) || smiles_taken_by_other(
        s.structures,
        id,
        smiles,
    ) {
        (s, Err(Error::ConstraintViolation))
    } else {
        (
            StoreV {
                structures: s.structures.map_values(
                    |m: structure::ModelV|
                        if m.id == id {
                            structure::ModelV { id, name, formula, smiles, charge }
                        } else {
                            m
                        },
                ),
                components: s.components,
                properties: s.properties,
                images: s.images,
            },
            Ok(()),
        )
    }
}

/// What removing a structure does: refuses while any edge still uses the id
/// as a component, reports a missing row, and otherwise deletes the row
/// together with its outgoing edges, its property and its image.
pub open spec fn spec_remove(s: StoreV, id: u32) -> (StoreV, Result<(), Error>) {
    if references_exist(s.components, id) {
        (s, Err(Error::ReferencedByOther))
    } else if !contains_id(s.structures, id) {
        (s, Err(Error::NotFound))
    } else {
        (
            StoreV {
                structures: s.structures.filter(|m: structure::ModelV| m.id != id),
                components: s.components.filter(|e: component::Model| e.structure_id != id),
                properties: s.properties.filter(|p: property::ModelV| p.structure_id != id),
                images: s.images.filter(|im: image::ModelV| im.structure_id != id),
            },
            Ok(()),
        )
    }
}

// ---------------------------------------------------------------------------
// Filters preserve the tables' invariants
// ---------------------------------------------------------------------------

/// A filter has an accepted element exactly when the sequence has one.
pub proof fn lemma_filter_len_exists<A>(s: Seq<A>, pred: spec_fn(A) -> bool)
    ensures
        s.filter(pred).len() > 0 <==> exists|k: int| 0 <= k < s.len() && pred(#[trigger] s[k]),
{
    if s.filter(pred).len() > 0 {
        lemma_filter_members(s, pred);
        s.lemma_filter_pred(pred, 0);
        let k = choose|k: int| 0 <= k < s.len() && s.filter(pred)[0] == s[k];
        assert(pred(s[k]));
    }
    if exists|k: int| 0 <= k < s.len() && pred(#[trigger] s[k]) {
        let k = choose|k: int| 0 <= k < s.len() && pred(#[trigger] s[k]);
        s.lemma_filter_contains(pred, k);
    }
}

/// A filter of the structures table keeps it sorted and its keys unique.
pub(crate) proof fn lemma_filter_structures_inv(
    ss: Seq<structure::ModelV>,
    pred: spec_fn(structure::ModelV) -> bool,
)
    requires
        structures_sorted(ss),
        names_unique(ss),
        smiles_unique(ss),
    ensures
        structures_sorted(ss.filter(pred)),
        names_unique(ss.filter(pred)),
        smiles_unique(ss.filter(pred)),
    decreases ss.len(),
{
    reveal(Seq::filter);
    if ss.len() > 0 {
        let d = ss.drop_last();
        assert(forall|k: int| 0 <= k < d.len() ==> #[trigger] d[k] == ss[k]);
        lemma_filter_structures_inv(d, pred);
        lemma_filter_members(d, pred);
        let f = ss.filter(pred);
        let fd = d.filter(pred);
        if pred(ss.last()) {
            assert(f == fd.push(ss.last()));
            assert forall|i: int| 0 <= i < fd.len() implies exists|k: int|
                0 <= k < d.len() && #[trigger] fd[i] == ss[k] by {
                let k = choose|k: int| 0 <= k < d.len() && fd[i] == d[k];
                assert(fd[i] == ss[k]);
            }
            assert forall|i: int, j: int| 0 <= i < j < f.len() implies (#[trigger] f[i]).id < (
            #[trigger] f[j]).id by {
                if j < fd.len() {
                } else {
                    let k = choose|k: int| 0 <= k < d.len() && f[i] == ss[k];
                    assert(ss[k].id < ss[ss.len() - 1].id);
                }
            }
            assert forall|i: int, j: int| 0 <= i < j < f.len() implies !((#[trigger] f[i]).name
                is Some && f[i].name == (#[trigger] f[j]).name) by {
                if j < fd.len() {
                } else {
                    let k = choose|k: int| 0 <= k < d.len() && f[i] == ss[k];
                    assert(!(ss[k].name is Some && ss[k].name == ss[ss.len() - 1].name));
                }
            }
            assert forall|i: int, j: int| 0 <= i < j < f.len() implies !((#[trigger] f[i]).smiles
                is Some && f[i].smiles == (#[trigger] f[j]).smiles) by {
                if j < fd.len() {
                } else {
                    let k = choose|k: int| 0 <= k < d.len() && f[i] == ss[k];
                    assert(!(ss[k].smiles is Some && ss[k].smiles == ss[ss.len() - 1].smiles));
                }
            }
        } else {
            assert(f == fd);
        }
    }
}

/// A filter of the components table keeps its composite keys unique.
proof fn lemma_filter_components_inv(
    cs: Seq<component::Model>,
    pred: spec_fn(component::Model) -> bool,
)
    requires
        components_unique(cs),
    ensures
        components_unique(cs.filter(pred)),
    decreases cs.len(),
{
    reveal(Seq::filter);
    if cs.len() > 0 {
        let d = cs.drop_last();
        assert(forall|k: int| 0 <= k < d.len() ==> #[trigger] d[k] == cs[k]);
        lemma_filter_components_inv(d, pred);
        lemma_filter_members(d, pred);
        let f = cs.filter(pred);
        let fd = d.filter(pred);
        if pred(cs.last()) {
            assert(f == fd.push(cs.last()));
            assert forall|i: int| 0 <= i < fd.len() implies exists|k: int|
                0 <= k < d.len() && #[trigger] fd[i] == cs[k] by {
                let k = choose|k: int| 0 <= k < d.len() && fd[i] == d[k];
                assert(fd[i] == cs[k]);
            }
            assert forall|i: int, j: int| 0 <= i < j < f.len() implies !((
            #[trigger] f[i]).structure_id == (#[trigger] f[j]).structure_id && f[i].component_id
                == f[j].component_id) by {
                if j < fd.len() {
                } else {
                    let k = choose|k: int| 0 <= k < d.len() && f[i] == cs[k];
                    assert(!(cs[k].structure_id == cs[cs.len() - 1].structure_id
                        && cs[k].component_id == cs[cs.len() - 1].component_id));
                }
            }
        } else {
            assert(f == fd);
        }
    }
}

/// A filter of the properties table keeps it sorted by structure id.
proof fn lemma_filter_properties_inv(
    ps: Seq<property::ModelV>,
    pred: spec_fn(property::ModelV) -> bool,
)
    requires
        properties_sorted(ps),
    ensures
        properties_sorted(ps.filter(pred)),
    decreases ps.len(),
{
    reveal(Seq::filter);
    if ps.len() > 0 {
        let d = ps.drop_last();
        assert(forall|k: int| 0 <= k < d.len() ==> #[trigger] d[k] == ps[k]);
        lemma_filter_properties_inv(d, pred);
        lemma_filter_members(d, pred);
        let f = ps.filter(pred);
        let fd = d.filter(pred);
        if pred(ps.last()) {
            assert(f == fd.push(ps.last()));
            assert forall|i: int| 0 <= i < fd.len() implies exists|k: int|
                0 <= k < d.len() && #[trigger] fd[i] == ps[k] by {
                let k = choose|k: int| 0 <= k < d.len() && fd[i] == d[k];
                assert(fd[i] == ps[k]);
            }
            assert forall|i: int, j: int| 0 <= i < j < f.len() implies (
            #[trigger] f[i]).structure_id < (#[trigger] f[j]).structure_id by {
                if j < fd.len() {
                } else {
                    let k = choose|k: int| 0 <= k < d.len() && f[i] == ps[k];
                    assert(ps[k].structure_id < ps[ps.len() - 1].structure_id);
                }
            }
        } else {
            assert(f == fd);
        }
    }
}

/// A filter of the images table keeps it sorted by structure id.
proof fn lemma_filter_images_inv(ims: Seq<image::ModelV>, pred: spec_fn(image::ModelV) -> bool)
    requires
        images_sorted(ims),
    ensures
        images_sorted(ims.filter(pred)),
    decreases ims.len(),
{
    reveal(Seq::filter);
    if ims.len() > 0 {
        let d = ims.drop_last();
        assert(forall|k: int| 0 <= k < d.len() ==> #[trigger] d[k] == ims[k]);
        lemma_filter_images_inv(d, pred);
        lemma_filter_members(d, pred);
        let f = ims.filter(pred);
        let fd = d.filter(pred);
        if pred(ims.last()) {
            assert(f == fd.push(ims.last()));
            assert forall|i: int| 0 <= i < fd.len() implies exists|k: int|
                0 <= k < d.len() && #[trigger] fd[i] == ims[k] by {
                let k = choose|k: int| 0 <= k < d.len() && fd[i] == d[k];
                assert(fd[i] == ims[k]);
            }
            assert forall|i: int, j: int| 0 <= i < j < f.len() implies (
            #[trigger] f[i]).structure_id < (#[trigger] f[j]).structure_id by {
                if j < fd.len() {
                } else {
                    let k = choose|k: int| 0 <= k < d.len() && f[i] == ims[k];
                    assert(ims[k].structure_id < ims[ims.len() - 1].structure_id);
                }
            }
        } else {
            assert(f == fd);
        }
    }
}


// ---------------------------------------------------------------------------
// Updating and removing structures, executable
// ---------------------------------------------------------------------------

/// The structure rows whose id is not `id`.
fn structures_without(v: &Vec<structure::Model>, id: u32) -> (r: Vec<structure::Model>)
    ensures
        r@.map_values(|m: structure::Model| m@) == v@.map_values(
            |m: structure::Model| m@,
        ).filter(|m: structure::ModelV| m.id != id),
{
    let ghost vv = v@.map_values(|m: structure::Model| m@);
    let ghost pred = |m: structure::ModelV| m.id != id;
    let n = v.len();
    let mut r: Vec<structure::Model> = Vec::new();
    let mut i: usize = 0;
    proof {
        assert(vv.subrange(0, 0) =~= Seq::<structure::ModelV>::empty());
        assert(r@.map_values(|m: structure::Model| m@) =~= Seq::<structure::ModelV>::empty());
        assert(Seq::<structure::ModelV>::empty().filter(pred) =~= Seq::<
            structure::ModelV,
        >::empty()) by {
            reveal(Seq::filter);
        }
    }
    while i < n
        invariant
            i <= n,
            n == v@.len(),
            vv == v@.map_values(|m: structure::Model| m@),
            pred == (|m: structure::ModelV| m.id != id),
            r@.map_values(|m: structure::Model| m@) == vv.subrange(0, i as int).filter(pred),
        decreases n - i,
    {
        proof {
            lemma_filter_push(vv.subrange(0, i as int), pred, vv[i as int]);
            assert(vv.subrange(0, i as int).push(vv[i as int]) =~= vv.subrange(0, i + 1));
        }
        if v[i].id != id {
            let ghost before = r@.map_values(|m: structure::Model| m@);
            r.push(v[i].duplicate());
            proof {
                assert(r@.map_values(|m: structure::Model| m@) =~= before.push(vv[i as int]));
            }
        }
        i += 1;
    }
    proof {
        assert(vv.subrange(0, n as int) =~= vv);
    }
    r
}

/// The edges whose owning structure is not `id`.
fn components_without(v: &Vec<component::Model>, id: u32) -> (r: Vec<component::Model>)
    ensures
        r@.map_values(|m: component::Model| m@) == v@.map_values(
            |m: component::Model| m@,
        ).filter(|e: component::Model| e.structure_id != id),
{
    let ghost vv = v@.map_values(|m: component::Model| m@);
    let ghost pred = |e: component::Model| e.structure_id != id;
    let n = v.len();
    let mut r: Vec<component::Model> = Vec::new();
    let mut i: usize = 0;
    proof {
        assert(vv.subrange(0, 0) =~= Seq::<component::Model>::empty());
        assert(r@.map_values(|m: component::Model| m@) =~= Seq::<component::Model>::empty());
        assert(Seq::<component::Model>::empty().filter(pred) =~= Seq::<
            component::Model,
        >::empty()) by {
            reveal(Seq::filter);
        }
    }
    while i < n
        invariant
            i <= n,
            n == v@.len(),
            vv == v@.map_values(|m: component::Model| m@),
            pred == (|e: component::Model| e.structure_id != id),
            r@.map_values(|m: component::Model| m@) == vv.subrange(0, i as int).filter(pred),
        decreases n - i,
    {
        proof {
            lemma_filter_push(vv.subrange(0, i as int), pred, vv[i as int]);
            assert(vv.subrange(0, i as int).push(vv[i as int]) =~= vv.subrange(0, i + 1));
        }
        if v[i].structure_id != id {
            let ghost before = r@.map_values(|m: component::Model| m@);
            r.push(v[i]);
            proof {
                assert(r@.map_values(|m: component::Model| m@) =~= before.push(vv[i as int]));
            }
        }
        i += 1;
    }
    proof {
        assert(vv.subrange(0, n as int) =~= vv);
    }
    r
}

/// The property rows whose structure id is not `id`.
fn properties_without(v: &Vec<property::Model>, id: u32) -> (r: Vec<property::Model>)
    ensures
        r@.map_values(|m: property::Model| m@) == v@.map_values(
            |m: property::Model| m@,
        ).filter(|p: property::ModelV| p.structure_id != id),
{
    let ghost vv = v@.map_values(|m: property::Model| m@);
    let ghost pred = |p: property::ModelV| p.structure_id != id;
    let n = v.len();
    let mut r: Vec<property::Model> = Vec::new();
    let mut i: usize = 0;
    proof {
        assert(vv.subrange(0, 0) =~= Seq::<property::ModelV>::empty());
        assert(r@.map_values(|m: property::Model| m@) =~= Seq::<property::ModelV>::empty());
        assert(Seq::<property::ModelV>::empty().filter(pred) =~= Seq::<
            property::ModelV,
        >::empty()) by {
            reveal(Seq::filter);
        }
    }
    while i < n
        invariant
            i <= n,
            n == v@.len(),
            vv == v@.map_values(|m: property::Model| m@),
            pred == (|p: property::ModelV| p.structure_id != id),
            r@.map_values(|m: property::Model| m@) == vv.subrange(0, i as int).filter(pred),
        decreases n - i,
    {
        proof {
            lemma_filter_push(vv.subrange(0, i as int), pred, vv[i as int]);
            assert(vv.subrange(0, i as int).push(vv[i as int]) =~= vv.subrange(0, i + 1));
        }
        if v[i].structure_id != id {
            let ghost before = r@.map_values(|m: property::Model| m@);
            r.push(v[i].duplicate());
            proof {
                assert(r@.map_values(|m: property::Model| m@) =~= before.push(vv[i as int]));
            }
        }
        i += 1;
    }
    proof {
        assert(vv.subrange(0, n as int) =~= vv);
    }
    r
}

/// The image rows whose structure id is not `id`.
fn images_without(v: &Vec<image::Model>, id: u32) -> (r: Vec<image::Model>)
    ensures
        r@.map_values(|m: image::Model| m@) == v@.map_values(|m: image::Model| m@).filter(
            |im: image::ModelV| im.structure_id != id,
        ),
{
    let ghost vv = v@.map_values(|m: image::Model| m@);
    let ghost pred = |im: image::ModelV| im.structure_id != id;
    let n = v.len();
    let mut r: Vec<image::Model> = Vec::new();
    let mut i: usize = 0;
    proof {
        assert(vv.subrange(0, 0) =~= Seq::<image::ModelV>::empty());
        assert(r@.map_values(|m: image::Model| m@) =~= Seq::<image::ModelV>::empty());
        assert(Seq::<image::ModelV>::empty().filter(pred) =~= Seq::<image::ModelV>::empty()) by {
            reveal(Seq::filter);
        }
    }
    while i < n
        invariant
            i <= n,
            n == v@.len(),
            vv == v@.map_values(|m: image::Model| m@),
            pred == (|im: image::ModelV| im.structure_id != id),
            r@.map_values(|m: image::Model| m@) == vv.subrange(0, i as int).filter(pred),
        decreases n - i,
    {
        proof {
            lemma_filter_push(vv.subrange(0, i as int), pred, vv[i as int]);
            assert(vv.subrange(0, i as int).push(vv[i as int]) =~= vv.subrange(0, i + 1));
        }
        if v[i].structure_id != id {
            let ghost before = r@.map_values(|m: image::Model| m@);
            r.push(v[i].duplicate());
            proof {
                assert(r@.map_values(|m: image::Model| m@) =~= before.push(vv[i as int]));
            }
        }
        i += 1;
    }
    proof {
        assert(vv.subrange(0, n as int) =~= vv);
    }
    r
}

impl Store {
    /// Whether a structure row other than `id`'s carries this present name.
    fn name_taken_by_other_exec(&self, id: u32, name: &Option<String>) -> (r: bool)
        ensures
            r == name_taken_by_other(self@.structures, id, view_opt(*name)),
    {
        let nm = match name {
            None => {
                return false;
            },
            Some(nm) => nm,
        };
        let n = self.structures.len();
        let mut i: usize = 0;
        while i < n
            invariant
                i <= n,
                n == self@.structures.len(),
                n == self.structures@.len(),
                view_opt(*name) == Some(nm@),
                forall|k: int|
                    0 <= k < n ==> #[trigger] self@.structures[k] == self.structures@[k]@,
                forall|k: int|
                    0 <= k < i ==> !((#[trigger] self@.structures[k]).id != id
                        && self@.structures[k].name == Some(nm@)),
            decreases n - i,
        {
            if self.structures[i].id != id {
                if let Some(other) = &self.structures[i].name {
                    if *other == *nm {
                        proof {
                            assert(self@.structures[i as int] == self.structures@[i as int]@);
                            assert(self@.structures[i as int].name == Some(nm@));
                        }
                        return true;
                    }
                }
            }
            i += 1;
        }
        false
    }

    /// Whether a structure row other than `id`'s carries this present
    /// canonical line notation.
    fn smiles_taken_by_other_exec(&self, id: u32, smiles: &Option<String>) -> (r: bool)
        ensures
            r == smiles_taken_by_other(self@.structures, id, view_opt(*smiles)),
    {
        let sm = match smiles {
            None => {
                return false;
            },
            Some(sm) => sm,
        };
        let n = self.structures.len();
        let mut i: usize = 0;
        while i < n
            invariant
                i <= n,
                n == self@.structures.len(),
                n == self.structures@.len(),
                view_opt(*smiles) == Some(sm@),
                forall|k: int|
                    0 <= k < n ==> #[trigger] self@.structures[k] == self.structures@[k]@,
                forall|k: int|
                    0 <= k < i ==> !((#[trigger] self@.structures[k]).id != id
                        && self@.structures[k].smiles == Some(sm@)),
            decreases n - i,
        {
            if self.structures[i].id != id {
                if let Some(other) = &self.structures[i].smiles {
                    if *other == *sm {
                        proof {
                            assert(self@.structures[i as int] == self.structures@[i as int]@);
                            assert(self@.structures[i as int].smiles == Some(sm@));
                        }
                        return true;
                    }
                }
            }
            i += 1;
        }
        false
    }

    /// Updates a structure: replaces every field of the row with this id
    /// atomically, or reports why nothing changed.
    pub fn update_structure(
        &mut self,
        id: u32,
        name: Option<String>,
        formula: String,
        smiles: Option<String>,
        charge: i8,
    ) -> (r: Result<(), Error>)
        requires
            old(self).wf(),
        ensures
            final(self).wf(),
            final(self)@ == spec_update(
                old(self)@,
                id,
                view_opt(name),
                formula@,
                view_opt(smiles),
                charge,
            ).0,
            r == spec_update(old(self)@, id, view_opt(name), formula@, view_opt(smiles), charge).1,
    {
        let ghost s0 = self@;
        let i = match self.find_structure_index(id) {
            None => {
                proof {
                    assert(!contains_id(s0.structures, id));
                }
                return Err(Error::NotFound);
            },
            Some(i) => i,
        };
        proof {
            assert(contains_id(s0.structures, id));
        }
        if self.name_taken_by_other_exec(id, &name) {
            return Err(Error::ConstraintViolation);
        }
        if self.smiles_taken_by_other_exec(id, &smiles) {
            return Err(Error::ConstraintViolation);
        }
        let m = structure::Model { id, name, formula, smiles, charge };
        let ghost mv = m@;
        self.structures.set(i, m);
        proof {
            let s1 = self@;
            let mapped = s0.structures.map_values(
                |w: structure::ModelV|
                    if w.id == id {
                        structure::ModelV {
                            id,
                            name: mv.name,
                            formula: mv.formula,
                            smiles: mv.smiles,
                            charge,
                        }
                    } else {
                        w
                    },
            );
            assert forall|k: int| 0 <= k < s0.structures.len() && k != i implies (
            #[trigger] s0.structures[k]).id != id by {
                if k < i {
                } else {
                    assert(s0.structures[i as int].id < s0.structures[k].id);
                }
            }
            assert(s1.structures =~= mapped);
            assert(s1.components =~= s0.components);
            assert(s1.properties =~= s0.properties);
            assert(s1.images =~= s0.images);
            assert(s1 =~= spec_update(s0, id, mv.name, mv.formula, mv.smiles, charge).0);
            assert(structures_sorted(s1.structures)) by {
                assert(forall|k: int|
                    0 <= k < s1.structures.len() ==> (#[trigger] s1.structures[k]).id
                        == s0.structures[k].id);
            }
            assert(names_unique(s1.structures)) by {
                assert forall|a: int, b: int| 0 <= a < b < s1.structures.len() implies !((
                #[trigger] s1.structures[a]).name is Some && s1.structures[a].name == (
                #[trigger] s1.structures[b]).name) by {
                    if a != i && b != i {
                        assert(!(s0.structures[a].name is Some && s0.structures[a].name
                            == s0.structures[b].name));
                    }
                }
            }
            assert(smiles_unique(s1.structures)) by {
                assert forall|a: int, b: int| 0 <= a < b < s1.structures.len() implies !((
                #[trigger] s1.structures[a]).smiles is Some && s1.structures[a].smiles == (
                #[trigger] s1.structures[b]).smiles) by {
                    if a != i && b != i {
                        assert(!(s0.structures[a].smiles is Some && s0.structures[a].smiles
                            == s0.structures[b].smiles));
                    }
                }
            }
        }
        Ok(())
    }

    /// How many edges use this id as their component.
    pub fn count_referencing(&self, component_id: u32) -> (r: usize)
        ensures
            r as int == self@.components.filter(
                |e: component::Model| e.component_id == component_id,
            ).len(),
            (r > 0) == references_exist(self@.components, component_id),
    {
        let ghost pred = |e: component::Model| e.component_id == component_id;
        let n = self.components.len();
        let mut count: usize = 0;
        let mut i: usize = 0;
        proof {
            assert(self@.components.subrange(0, 0) =~= Seq::<component::Model>::empty());
            assert(Seq::<component::Model>::empty().filter(pred).len() == 0) by {
                reveal(Seq::filter);
            }
        }
        while i < n
            invariant
                i <= n,
                n == self@.components.len(),
                n == self.components@.len(),
                pred == (|e: component::Model| e.component_id == component_id),
                forall|k: int|
                    0 <= k < n ==> #[trigger] self@.components[k] == self.components@[k]@,
                count <= i,
                count as int == self@.components.subrange(0, i as int).filter(pred).len(),
            decreases n - i,
        {
            proof {
                lemma_filter_push(self@.components.subrange(0, i as int), pred, self@.components[i as int]);
                assert(self@.components.subrange(0, i as int).push(self@.components[i as int])
                    =~= self@.components.subrange(0, i + 1));
            }
            if self.components[i].component_id == component_id {
                count += 1;
            }
            i += 1;
        }
        proof {
            assert(self@.components.subrange(0, n as int) =~= self@.components);
            lemma_filter_len_exists(self@.components, pred);
        }
        count
    }

    /// Removes a structure: refuses with `ReferencedByOther` while any edge
    /// still uses the id as a component, reports `NotFound` for a missing
    /// row, and otherwise deletes the row, its outgoing edges, its property
    /// and its image as one logical unit.
    pub fn remove_structure(&mut self, id: u32) -> (r: Result<(), Error>)
        requires
            old(self).wf(),
        ensures
            final(self).wf(),
            final(self)@ == spec_remove(old(self)@, id).0,
            r == spec_remove(old(self)@, id).1,
    {
        let ghost s0 = self@;
        if self.count_referencing(id) > 0 {
            return Err(Error::ReferencedByOther);
        }
        if let None = self.find_structure_index(id) {
            proof {
                assert(!contains_id(s0.structures, id));
            }
            return Err(Error::NotFound);
        }
        proof {
            assert(contains_id(s0.structures, id));
        }
        let new_structures = structures_without(&self.structures, id);
        let new_components = components_without(&self.components, id);
        let new_properties = properties_without(&self.properties, id);
        let new_images = images_without(&self.images, id);
        self.structures = new_structures;
        self.components = new_components;
        self.properties = new_properties;
        self.images = new_images;
        proof {
            let s1 = self@;
            assert(s1 =~= spec_remove(s0, id).0);
            lemma_filter_structures_inv(s0.structures, |m: structure::ModelV| m.id != id);
            lemma_filter_components_inv(s0.components, |e: component::Model| e.structure_id != id);
            lemma_filter_properties_inv(s0.properties, |p: property::ModelV| p.structure_id != id);
            lemma_filter_images_inv(s0.images, |im: image::ModelV| im.structure_id != id);
            s0.structures.lemma_filter_len(|m: structure::ModelV| m.id != id);
        }
        Ok(())
    }
}


// ---------------------------------------------------------------------------
// Edges and attributes, specified
// ---------------------------------------------------------------------------

/// What setting an edge does: updates the count of the edge with this
/// composite key, or appends a fresh edge.
pub open spec fn spec_set_component(s: StoreV, sid: u32, cid: u32, count: u32) -> StoreV {
    let e = component::Model { structure_id: sid, component_id: cid, count };
    if contains_edge(s.components, sid, cid) {
        StoreV {
            structures: s.structures,
            components: s.components.map_values(
                |w: component::Model|
                    if w.structure_id == sid && w.component_id == cid {
                        e
                    } else {
                        w
                    },
            ),
            properties: s.properties,
            images: s.images,
        }
    } else {
        StoreV {
            structures: s.structures,
            components: s.components.push(e),
            properties: s.properties,
            images: s.images,
        }
    }
}

/// What deleting an edge does: removes the edge with this composite key, or
/// reports that it was absent.
pub open spec fn spec_delete_component(s: StoreV, sid: u32, cid: u32) -> (
    StoreV,
    Result<(), Error>,
) {
    if !contains_edge(s.components, sid, cid) {
        (s, Err(Error::NotFound))
    } else {
        (
            StoreV {
                structures: s.structures,
                components: s.components.filter(
                    |e: component::Model| !(e.structure_id == sid && e.component_id == cid),
                ),
                properties: s.properties,
                images: s.images,
            },
            Ok(()),
        )
    }
}

/// A property row inserted where its structure id belongs in the ordered
/// table.
pub open spec fn insert_property_sorted(ps: Seq<property::ModelV>, p: property::ModelV) -> Seq<
    property::ModelV,
>
    decreases ps.len(),
{
    if ps.len() == 0 {
        seq![p]
    } else if p.structure_id < ps[0].structure_id {
        seq![p] + ps
    } else {
        seq![ps[0]] + insert_property_sorted(ps.skip(1), p)
    }
}

/// An image row inserted where its structure id belongs in the ordered table.
pub open spec fn insert_image_sorted(ims: Seq<image::ModelV>, im: image::ModelV) -> Seq<
    image::ModelV,
>
    decreases ims.len(),
{
    if ims.len() == 0 {
        seq![im]
    } else if im.structure_id < ims[0].structure_id {
        seq![im] + ims
    } else {
        seq![ims[0]] + insert_image_sorted(ims.skip(1), im)
    }
}

/// A structure row inserted where its id belongs in the ordered table.
pub open spec fn insert_structure_sorted(ss: Seq<structure::ModelV>, m: structure::ModelV) -> Seq<
    structure::ModelV,
>
    decreases ss.len(),
{
    if ss.len() == 0 {
        seq![m]
    } else if m.id < ss[0].id {
        seq![m] + ss
    } else {
        seq![ss[0]] + insert_structure_sorted(ss.skip(1), m)
    }
}

/// What setting a property does: fully replaces the row with this structure
/// id — fields left unset become absent, not kept — or inserts a fresh row.
pub open spec fn spec_set_property(s: StoreV, p: property::ModelV) -> StoreV {
    if contains_prop(s.properties, p.structure_id) {
        StoreV {
            structures: s.structures,
            components: s.components,
            properties: s.properties.map_values(
                |w: property::ModelV|
                    if w.structure_id == p.structure_id {
                        p
                    } else {
                        w
                    },
            ),
            images: s.images,
        }
    } else {
        StoreV {
            structures: s.structures,
            components: s.components,
            properties: insert_property_sorted(s.properties, p),
            images: s.images,
        }
    }
}

/// What setting an image does: fully replaces the row with this structure id,
/// or inserts a fresh row.
pub open spec fn spec_set_image(s: StoreV, im: image::ModelV) -> StoreV {
    if contains_image(s.images, im.structure_id) {
        StoreV {
            structures: s.structures,
            components: s.components,
            properties: s.properties,
            images: s.images.map_values(
                |w: image::ModelV|
                    if w.structure_id == im.structure_id {
                        im
                    } else {
                        w
                    },
            ),
        }
    } else {
        StoreV {
            structures: s.structures,
            components: s.components,
            properties: s.properties,
            images: insert_image_sorted(s.images, im),
        }
    }
}

// ---------------------------------------------------------------------------
// Fresh inserts for bulk import, specified
// ---------------------------------------------------------------------------

/// A fresh structure row is accepted when no key collides and the table can
/// still count its rows.
pub open spec fn insert_structure_ok(s: StoreV, m: structure::ModelV) -> bool {
    &&& !contains_id(s.structures, m.id)
    &&& !name_taken(s.structures, m.name)
    &&& !smiles_taken(s.structures, m.smiles)
    &&& s.structures.len() < u32::MAX as nat
}

/// What a fresh structure insert does: places the row by its id, or reports
/// the constraint violation.
pub open spec fn spec_insert_structure(s: StoreV, m: structure::ModelV) -> (
    StoreV,
    Result<(), Error>,
) {
    if insert_structure_ok(s, m) {
        (
            StoreV {
                structures: insert_structure_sorted(s.structures, m),
                components: s.components,
                properties: s.properties,
                images: s.images,
            },
            Ok(()),
        )
    } else {
        (s, Err(Error::ConstraintViolation))
    }
}

/// What a fresh edge insert does: appends the edge, or reports the collision
/// on the composite key.
pub open spec fn spec_insert_component(s: StoreV, e: component::Model) -> (
    StoreV,
    Result<(), Error>,
) {
    if contains_edge(s.components, e.structure_id, e.component_id) {
        (s, Err(Error::ConstraintViolation))
    } else {
        (
            StoreV {
                structures: s.structures,
                components: s.components.push(e),
                properties: s.properties,
                images: s.images,
            },
            Ok(()),
        )
    }
}

/// What a fresh property insert does: places the row by its structure id, or
/// reports the collision on the key.
pub open spec fn spec_insert_property(s: StoreV, p: property::ModelV) -> (
    StoreV,
    Result<(), Error>,
) {
    if contains_prop(s.properties, p.structure_id) {
        (s, Err(Error::ConstraintViolation))
    } else {
        (
            StoreV {
                structures: s.structures,
                components: s.components,
                properties: insert_property_sorted(s.properties, p),
                images: s.images,
            },
            Ok(()),
        )
    }
}

/// What a fresh image insert does: places the row by its structure id, or
/// reports the collision on the key.
pub open spec fn spec_insert_image(s: StoreV, im: image::ModelV) -> (StoreV, Result<(), Error>) {
    if contains_image(s.images, im.structure_id) {
        (s, Err(Error::ConstraintViolation))
    } else {
        (
            StoreV {
                structures: s.structures,
                components: s.components,
                properties: s.properties,
                images: insert_image_sorted(s.images, im),
            },
            Ok(()),
        )
    }
}

// ---------------------------------------------------------------------------
// Sorted insertion, positionally
// ---------------------------------------------------------------------------

/// Inserting a structure row splits the table at the first greater id.
pub proof fn lemma_insert_structure_sorted_at(
    ss: Seq<structure::ModelV>,
    m: structure::ModelV,
    i: int,
)
    requires
        0 <= i <= ss.len(),
        forall|k: int| 0 <= k < i ==> (#[trigger] ss[k]).id < m.id,
        forall|k: int| i <= k < ss.len() ==> (#[trigger] ss[k]).id > m.id,
    ensures
        insert_structure_sorted(ss, m) == ss.subrange(0, i) + seq![m] + ss.subrange(
            i,
            ss.len() as int,
        ),
    decreases ss.len(),
{
    if i == 0 {
        if ss.len() == 0 {
            assert(insert_structure_sorted(ss, m) =~= ss.subrange(0, 0) + seq![m] + ss.subrange(
                0,
                0,
            ));
        } else {
            assert(m.id < ss[0].id);
            assert(insert_structure_sorted(ss, m) =~= ss.subrange(0, 0) + seq![m] + ss.subrange(
                0,
                ss.len() as int,
            ));
        }
    } else {
        assert(ss[0].id < m.id);
        let d = ss.skip(1);
        assert(forall|k: int| 0 <= k < i - 1 ==> (#[trigger] d[k]).id < m.id);
        assert(forall|k: int| i - 1 <= k < d.len() ==> (#[trigger] d[k]).id > m.id);
        lemma_insert_structure_sorted_at(d, m, i - 1);
        assert(d.subrange(0, i - 1) =~= ss.subrange(1, i));
        assert(d.subrange(i - 1, d.len() as int) =~= ss.subrange(i, ss.len() as int));
        assert(insert_structure_sorted(ss, m) =~= ss.subrange(0, i) + seq![m] + ss.subrange(
            i,
            ss.len() as int,
        ));
    }
}

/// Inserting a property row splits the table at the first greater key.
pub proof fn lemma_insert_property_sorted_at(ps: Seq<property::ModelV>, p: property::ModelV, i: int)
    requires
        0 <= i <= ps.len(),
        forall|k: int| 0 <= k < i ==> (#[trigger] ps[k]).structure_id < p.structure_id,
        forall|k: int| i <= k < ps.len() ==> (#[trigger] ps[k]).structure_id > p.structure_id,
    ensures
        insert_property_sorted(ps, p) == ps.subrange(0, i) + seq![p] + ps.subrange(
            i,
            ps.len() as int,
        ),
    decreases ps.len(),
{
    if i == 0 {
        if ps.len() == 0 {
            assert(insert_property_sorted(ps, p) =~= ps.subrange(0, 0) + seq![p] + ps.subrange(
                0,
                0,
            ));
        } else {
            assert(p.structure_id < ps[0].structure_id);
            assert(insert_property_sorted(ps, p) =~= ps.subrange(0, 0) + seq![p] + ps.subrange(
                0,
                ps.len() as int,
            ));
        }
    } else {
        assert(ps[0].structure_id < p.structure_id);
        let d = ps.skip(1);
        assert(forall|k: int| 0 <= k < i - 1 ==> (#[trigger] d[k]).structure_id < p.structure_id);
        assert(forall|k: int|
            i - 1 <= k < d.len() ==> (#[trigger] d[k]).structure_id > p.structure_id);
        lemma_insert_property_sorted_at(d, p, i - 1);
        assert(d.subrange(0, i - 1) =~= ps.subrange(1, i));
        assert(d.subrange(i - 1, d.len() as int) =~= ps.subrange(i, ps.len() as int));
        assert(insert_property_sorted(ps, p) =~= ps.subrange(0, i) + seq![p] + ps.subrange(
            i,
            ps.len() as int,
        ));
    }
}

/// Inserting an image row splits the table at the first greater key.
pub proof fn lemma_insert_image_sorted_at(ims: Seq<image::ModelV>, im: image::ModelV, i: int)
    requires
        0 <= i <= ims.len(),
        forall|k: int| 0 <= k < i ==> (#[trigger] ims[k]).structure_id < im.structure_id,
        forall|k: int| i <= k < ims.len() ==> (#[trigger] ims[k]).structure_id > im.structure_id,
    ensures
        insert_image_sorted(ims, im) == ims.subrange(0, i) + seq![im] + ims.subrange(
            i,
            ims.len() as int,
        ),
    decreases ims.len(),
{
    if i == 0 {
        if ims.len() == 0 {
            assert(insert_image_sorted(ims, im) =~= ims.subrange(0, 0) + seq![im] + ims.subrange(
                0,
                0,
            ));
        } else {
            assert(im.structure_id < ims[0].structure_id);
            assert(insert_image_sorted(ims, im) =~= ims.subrange(0, 0) + seq![im] + ims.subrange(
                0,
                ims.len() as int,
            ));
        }
    } else {
        assert(ims[0].structure_id < im.structure_id);
        let d = ims.skip(1);
        assert(forall|k: int|
            0 <= k < i - 1 ==> (#[trigger] d[k]).structure_id < im.structure_id);
        assert(forall|k: int|
            i - 1 <= k < d.len() ==> (#[trigger] d[k]).structure_id > im.structure_id);
        lemma_insert_image_sorted_at(d, im, i - 1);
        assert(d.subrange(0, i - 1) =~= ims.subrange(1, i));
        assert(d.subrange(i - 1, d.len() as int) =~= ims.subrange(i, ims.len() as int));
        assert(insert_image_sorted(ims, im) =~= ims.subrange(0, i) + seq![im] + ims.subrange(
            i,
            ims.len() as int,
        ));
    }
}


// ---------------------------------------------------------------------------
// Edges and attributes, executable
// ---------------------------------------------------------------------------

/// The edges whose composite key is not `(sid, cid)`.
fn components_without_edge(v: &Vec<component::Model>, sid: u32, cid: u32) -> (r: Vec<
    component::Model,
>)
    ensures
        r@.map_values(|m: component::Model| m@) == v@.map_values(
            |m: component::Model| m@,
        ).filter(|e: component::Model| !(e.structure_id == sid && e.component_id == cid)),
{
    let ghost vv = v@.map_values(|m: component::Model| m@);
    let ghost pred = |e: component::Model| !(e.structure_id == sid && e.component_id == cid);
    let n = v.len();
    let mut r: Vec<component::Model> = Vec::new();
    let mut i: usize = 0;
    proof {
        assert(vv.subrange(0, 0) =~= Seq::<component::Model>::empty());
        assert(r@.map_values(|m: component::Model| m@) =~= Seq::<component::Model>::empty());
        assert(Seq::<component::Model>::empty().filter(pred) =~= Seq::<
            component::Model,
        >::empty()) by {
            reveal(Seq::filter);
        }
    }
    while i < n
        invariant
            i <= n,
            n == v@.len(),
            vv == v@.map_values(|m: component::Model| m@),
            pred == (|e: component::Model| !(e.structure_id == sid && e.component_id == cid)),
            r@.map_values(|m: component::Model| m@) == vv.subrange(0, i as int).filter(pred),
        decreases n - i,
    {
        proof {
            lemma_filter_push(vv.subrange(0, i as int), pred, vv[i as int]);
            assert(vv.subrange(0, i as int).push(vv[i as int]) =~= vv.subrange(0, i + 1));
        }
        if !(v[i].structure_id == sid && v[i].component_id == cid) {
            let ghost before = r@.map_values(|m: component::Model| m@);
            r.push(v[i]);
            proof {
                assert(r@.map_values(|m: component::Model| m@) =~= before.push(vv[i as int]));
            }
        }
        i += 1;
    }
    proof {
        assert(vv.subrange(0, n as int) =~= vv);
    }
    r
}

impl Store {
    /// The position of the edge with this composite key, if any.
    fn find_component_index(&self, sid: u32, cid: u32) -> (r: Option<usize>)
        ensures
            match r {
                Some(i) => i < self@.components.len() && (#[trigger] self@.components[
                    i as int
                ]).structure_id == sid && self@.components[i as int].component_id == cid && forall|
                    k: int,
                |
                    0 <= k < i ==> !((#[trigger] self@.components[k]).structure_id == sid
                        && self@.components[k].component_id == cid),
                None => forall|k: int|
                    0 <= k < self@.components.len() ==> !((
                    #[trigger] self@.components[k]).structure_id == sid
                        && self@.components[k].component_id == cid),
            },
    {
        let n = self.components.len();
        let mut i: usize = 0;
        while i < n
            invariant
                i <= n,
                n == self@.components.len(),
                n == self.components@.len(),
                forall|k: int|
                    0 <= k < n ==> #[trigger] self@.components[k] == self.components@[k]@,
                forall|k: int|
                    0 <= k < i ==> !((#[trigger] self@.components[k]).structure_id == sid
                        && self@.components[k].component_id == cid),
            decreases n - i,
        {
            if self.components[i].structure_id == sid && self.components[i].component_id == cid {
                return Some(i);
            }
            i += 1;
        }
        None
    }

    /// The position of the property row with this structure id, if any.
    fn find_property_index(&self, id: u32) -> (r: Option<usize>)
        ensures
            match r {
                Some(i) => i < self@.properties.len() && (#[trigger] self@.properties[
                    i as int
                ]).structure_id == id && forall|k: int|
                    0 <= k < i ==> (#[trigger] self@.properties[k]).structure_id != id,
                None => forall|k: int|
                    0 <= k < self@.properties.len() ==> (
                    #[trigger] self@.properties[k]).structure_id != id,
            },
    {
        let n = self.properties.len();
        let mut i: usize = 0;
        while i < n
            invariant
                i <= n,
                n == self@.properties.len(),
                n == self.properties@.len(),
                forall|k: int|
                    0 <= k < n ==> #[trigger] self@.properties[k] == self.properties@[k]@,
                forall|k: int| 0 <= k < i ==> (#[trigger] self@.properties[k]).structure_id != id,
            decreases n - i,
        {
            if self.properties[i].structure_id == id {
                return Some(i);
            }
            i += 1;
        }
        None
    }

    /// The position of the image row with this structure id, if any.
    fn find_image_index(&self, id: u32) -> (r: Option<usize>)
        ensures
            match r {
                Some(i) => i < self@.images.len() && (#[trigger] self@.images[
                    i as int
                ]).structure_id == id && forall|k: int|
                    0 <= k < i ==> (#[trigger] self@.images[k]).structure_id != id,
                None => forall|k: int|
                    0 <= k < self@.images.len() ==> (#[trigger] self@.images[k]).structure_id
                        != id,
            },
    {
        let n = self.images.len();
        let mut i: usize = 0;
        while i < n
            invariant
                i <= n,
                n == self@.images.len(),
                n == self.images@.len(),
                forall|k: int| 0 <= k < n ==> #[trigger] self@.images[k] == self.images@[k]@,
                forall|k: int| 0 <= k < i ==> (#[trigger] self@.images[k]).structure_id != id,
            decreases n - i,
        {
            if self.images[i].structure_id == id {
                return Some(i);
            }
            i += 1;
        }
        None
    }

    /// Sets an edge: updates the count of the edge with this composite key,
    /// or appends a fresh edge.
    pub fn set_component(&mut self, structure_id: u32, component_id: u32, count: u32)
        requires
            old(self).wf(),
        ensures
            final(self).wf(),
            final(self)@ == spec_set_component(old(self)@, structure_id, component_id, count),
    {
        let ghost s0 = self@;
        let e = component::Model { structure_id, component_id, count };
        match self.find_component_index(structure_id, component_id) {
            Some(i) => {
                self.components.set(i, e);
                proof {
                    let s1 = self@;
                    assert forall|k: int|
                        0 <= k < s0.components.len() && k != i implies !((
                    #[trigger] s0.components[k]).structure_id == structure_id
                        && s0.components[k].component_id == component_id) by {
                        if k > i {
                            assert(!(s0.components[i as int].structure_id
                                == s0.components[k].structure_id
                                && s0.components[i as int].component_id
                                == s0.components[k].component_id));
                        }
                    }
                    assert(s1.components =~= s0.components.map_values(
                        |w: component::Model|
                            if w.structure_id == structure_id && w.component_id == component_id {
                                e
                            } else {
                                w
                            },
                    ));
                    assert(s1.structures =~= s0.structures);
                    assert(s1.properties =~= s0.properties);
                    assert(s1.images =~= s0.images);
                    assert(s1 =~= spec_set_component(s0, structure_id, component_id, count));
                    assert(components_unique(s1.components)) by {
                        assert forall|a: int, b: int|
                            0 <= a < b < s1.components.len() implies !((
                        #[trigger] s1.components[a]).structure_id == (
                        #[trigger] s1.components[b]).structure_id && s1.components[a].component_id
                            == s1.components[b].component_id) by {
                            if a != i && b != i {
                                assert(!(s0.components[a].structure_id
                                    == s0.components[b].structure_id
                                    && s0.components[a].component_id
                                    == s0.components[b].component_id));
                            }
                        }
                    }
                }
            },
            None => {
                self.components.push(e);
                proof {
                    let s1 = self@;
                    assert(s1.components =~= s0.components.push(e));
                    assert(s1.structures =~= s0.structures);
                    assert(s1.properties =~= s0.properties);
                    assert(s1.images =~= s0.images);
                    assert(s1 =~= spec_set_component(s0, structure_id, component_id, count));
                    assert(components_unique(s1.components));
                }
            },
        }
    }

    /// Deletes the edge with this composite key, or reports that it was
    /// absent.
    pub fn delete_component(&mut self, structure_id: u32, component_id: u32) -> (r: Result<
        (),
        Error,
    >)
        requires
            old(self).wf(),
        ensures
            final(self).wf(),
            final(self)@ == spec_delete_component(old(self)@, structure_id, component_id).0,
            r == spec_delete_component(old(self)@, structure_id, component_id).1,
    {
        let ghost s0 = self@;
        if let None = self.find_component_index(structure_id, component_id) {
            proof {
                assert(!contains_edge(s0.components, structure_id, component_id));
            }
            return Err(Error::NotFound);
        }
        proof {
            assert(contains_edge(s0.components, structure_id, component_id));
        }
        let new_components = components_without_edge(&self.components, structure_id, component_id);
        self.components = new_components;
        proof {
            let s1 = self@;
            assert(s1 =~= spec_delete_component(s0, structure_id, component_id).0);
            lemma_filter_components_inv(
                s0.components,
                |e: component::Model| !(e.structure_id == structure_id && e.component_id
                    == component_id),
            );
        }
        Ok(())
    }

    /// The position where a fresh property row with this key belongs.
    fn property_insert_pos(&self, id: u32) -> (r: usize)
        requires
            self.wf(),
            !contains_prop(self@.properties, id),
        ensures
            r <= self@.properties.len(),
            forall|k: int| 0 <= k < r ==> (#[trigger] self@.properties[k]).structure_id < id,
            forall|k: int|
                r <= k < self@.properties.len() ==> (#[trigger] self@.properties[k]).structure_id
                    > id,
    {
        let n = self.properties.len();
        let mut i: usize = 0;
        while i < n
            invariant
                i <= n,
                n == self@.properties.len(),
                n == self.properties@.len(),
                properties_sorted(self@.properties),
                !contains_prop(self@.properties, id),
                forall|k: int|
                    0 <= k < n ==> #[trigger] self@.properties[k] == self.properties@[k]@,
                forall|k: int| 0 <= k < i ==> (#[trigger] self@.properties[k]).structure_id < id,
            decreases n - i,
        {
            if self.properties[i].structure_id > id {
                proof {
                    assert forall|k: int|
                        i <= k < n implies (#[trigger] self@.properties[k]).structure_id > id by {
                        if k > i {
                            assert(self@.properties[i as int].structure_id
                                < self@.properties[k].structure_id);
                        }
                    }
                }
                return i;
            }
            proof {
                assert(self@.properties[i as int].structure_id != id);
            }
            i += 1;
        }
        n
    }

    /// The position where a fresh image row with this key belongs.
    fn image_insert_pos(&self, id: u32) -> (r: usize)
        requires
            self.wf(),
            !contains_image(self@.images, id),
        ensures
            r <= self@.images.len(),
            forall|k: int| 0 <= k < r ==> (#[trigger] self@.images[k]).structure_id < id,
            forall|k: int|
                r <= k < self@.images.len() ==> (#[trigger] self@.images[k]).structure_id > id,
    {
        let n = self.images.len();
        let mut i: usize = 0;
        while i < n
            invariant
                i <= n,
                n == self@.images.len(),
                n == self.images@.len(),
                images_sorted(self@.images),
                !contains_image(self@.images, id),
                forall|k: int| 0 <= k < n ==> #[trigger] self@.images[k] == self.images@[k]@,
                forall|k: int| 0 <= k < i ==> (#[trigger] self@.images[k]).structure_id < id,
            decreases n - i,
        {
            if self.images[i].structure_id > id {
                proof {
                    assert forall|k: int|
                        i <= k < n implies (#[trigger] self@.images[k]).structure_id > id by {
                        if k > i {
                            assert(self@.images[i as int].structure_id
                                < self@.images[k].structure_id);
                        }
                    }
                }
                return i;
            }
            proof {
                assert(self@.images[i as int].structure_id != id);
            }
            i += 1;
        }
        n
    }

    /// The position where a fresh structure row with this id belongs.
    fn structure_insert_pos(&self, id: u32) -> (r: usize)
        requires
            self.wf(),
            !contains_id(self@.structures, id),
        ensures
            r <= self@.structures.len(),
            forall|k: int| 0 <= k < r ==> (#[trigger] self@.structures[k]).id < id,
            forall|k: int|
                r <= k < self@.structures.len() ==> (#[trigger] self@.structures[k]).id > id,
    {
        let n = self.structures.len();
        let mut i: usize = 0;
        while i < n
            invariant
                i <= n,
                n == self@.structures.len(),
                n == self.structures@.len(),
                structures_sorted(self@.structures),
                !contains_id(self@.structures, id),
                forall|k: int|
                    0 <= k < n ==> #[trigger] self@.structures[k] == self.structures@[k]@,
                forall|k: int| 0 <= k < i ==> (#[trigger] self@.structures[k]).id < id,
            decreases n - i,
        {
            if self.structures[i].id > id {
                proof {
                    assert forall|k: int|
                        i <= k < n implies (#[trigger] self@.structures[k]).id > id by {
                        if k > i {
                            assert(self@.structures[i as int].id < self@.structures[k].id);
                        }
                    }
                }
                return i;
            }
            proof {
                assert(self@.structures[i as int].id != id);
            }
            i += 1;
        }
        n
    }

    /// Sets a property bundle: fully replaces the row with this structure id
    /// — fields left unset become absent, not kept — or inserts a fresh row.
    pub fn set_property(&mut self, m: property::Model)
        requires
            old(self).wf(),
        ensures
            final(self).wf(),
            final(self)@ == spec_set_property(old(self)@, m@),
    {
        let ghost s0 = self@;
        let ghost mv = m@;
        let sid = m.structure_id;
        match self.find_property_index(sid) {
            Some(i) => {
                self.properties.set(i, m);
                proof {
                    let s1 = self@;
                    assert forall|k: int|
                        0 <= k < s0.properties.len() && k != i implies (
                    #[trigger] s0.properties[k]).structure_id != sid by {
                        if k > i {
                            assert(s0.properties[i as int].structure_id
                                < s0.properties[k].structure_id);
                        }
                    }
                    assert(s1.properties =~= s0.properties.map_values(
                        |w: property::ModelV|
                            if w.structure_id == sid {
                                mv
                            } else {
                                w
                            },
                    ));
                    assert(s1.structures =~= s0.structures);
                    assert(s1.components =~= s0.components);
                    assert(s1.images =~= s0.images);
                    assert(s1 =~= spec_set_property(s0, mv));
                    assert(properties_sorted(s1.properties)) by {
                        assert(forall|k: int|
                            0 <= k < s1.properties.len() ==> (
                            #[trigger] s1.properties[k]).structure_id
                                == s0.properties[k].structure_id);
                    }
                }
            },
            None => {
                proof {
                    assert(!contains_prop(s0.properties, sid));
                }
                let pos = self.property_insert_pos(sid);
                self.properties.insert(pos, m);
                proof {
                    let s1 = self@;
                    let n = s0.properties.len() as int;
                    lemma_insert_property_sorted_at(s0.properties, mv, pos as int);
                    assert(s1.properties =~= s0.properties.subrange(0, pos as int) + seq![mv]
                        + s0.properties.subrange(pos as int, n));
                    assert(s1.structures =~= s0.structures);
                    assert(s1.components =~= s0.components);
                    assert(s1.images =~= s0.images);
                    assert(s1 =~= spec_set_property(s0, mv));
                    let t = s1.properties;
                    assert(properties_sorted(t)) by {
                        assert forall|a: int, b: int| 0 <= a < b < t.len() implies (
                        #[trigger] t[a]).structure_id < (#[trigger] t[b]).structure_id by {
                            assert(forall|k: int| 0 <= k < pos ==> t[k] == s0.properties[k]);
                            assert(t[pos as int] == mv);
                            assert(forall|k: int|
                                pos < k < t.len() ==> t[k] == s0.properties[k - 1]);
                        }
                    }
                }
            },
        }
    }

    /// Sets a structure's image: fully replaces the row with this structure
    /// id, or inserts a fresh row.
    pub fn set_image(&mut self, structure_id: u32, image: Vec<u8>, filename: String)
        requires
            old(self).wf(),
        ensures
            final(self).wf(),
            final(self)@ == spec_set_image(
                old(self)@,
                image::ModelV { structure_id, filename: filename@, image: image@ },
            ),
    {
        let ghost s0 = self@;
        let m = image::Model { structure_id, filename, image };
        let ghost mv = m@;
        match self.find_image_index(structure_id) {
            Some(i) => {
                self.images.set(i, m);
                proof {
                    let s1 = self@;
                    assert forall|k: int|
                        0 <= k < s0.images.len() && k != i implies (
                    #[trigger] s0.images[k]).structure_id != structure_id by {
                        if k > i {
                            assert(s0.images[i as int].structure_id < s0.images[k].structure_id);
                        }
                    }
                    assert(s1.images =~= s0.images.map_values(
                        |w: image::ModelV|
                            if w.structure_id == structure_id {
                                mv
                            } else {
                                w
                            },
                    ));
                    assert(s1.structures =~= s0.structures);
                    assert(s1.components =~= s0.components);
                    assert(s1.properties =~= s0.properties);
                    assert(s1 =~= spec_set_image(s0, mv));
                    assert(images_sorted(s1.images)) by {
                        assert(forall|k: int|
                            0 <= k < s1.images.len() ==> (#[trigger] s1.images[k]).structure_id
                                == s0.images[k].structure_id);
                    }
                }
            },
            None => {
                proof {
                    assert(!contains_image(s0.images, structure_id));
                }
                let pos = self.image_insert_pos(structure_id);
                self.images.insert(pos, m);
                proof {
                    let s1 = self@;
                    let n = s0.images.len() as int;
                    lemma_insert_image_sorted_at(s0.images, mv, pos as int);
                    assert(s1.images =~= s0.images.subrange(0, pos as int) + seq![mv]
                        + s0.images.subrange(pos as int, n));
                    assert(s1.structures =~= s0.structures);
                    assert(s1.components =~= s0.components);
                    assert(s1.properties =~= s0.properties);
                    assert(s1 =~= spec_set_image(s0, mv));
                    let t = s1.images;
                    assert(images_sorted(t)) by {
                        assert forall|a: int, b: int| 0 <= a < b < t.len() implies (
                        #[trigger] t[a]).structure_id < (#[trigger] t[b]).structure_id by {
                            assert(forall|k: int| 0 <= k < pos ==> t[k] == s0.images[k]);
                            assert(t[pos as int] == mv);
                            assert(forall|k: int| pos < k < t.len() ==> t[k] == s0.images[k - 1]);
                        }
                    }
                }
            },
        }
    }

    /// Inserts a fresh structure row as bulk import does: the id comes with
    /// the row, and any key collision is a constraint violation.
    pub fn insert_structure(&mut self, m: structure::Model) -> (r: Result<(), Error>)
        requires
            old(self).wf(),
        ensures
            final(self).wf(),
            final(self)@ == spec_insert_structure(old(self)@, m@).0,
            r == spec_insert_structure(old(self)@, m@).1,
    {
        let ghost s0 = self@;
        let ghost mv = m@;
        if let Some(_) = self.find_structure_index(m.id) {
            return Err(Error::ConstraintViolation);
        }
        proof {
            assert(!contains_id(s0.structures, mv.id));
        }
        if self.name_is_taken(&m.name) {
            return Err(Error::ConstraintViolation);
        }
        if self.smiles_is_taken(&m.smiles) {
            return Err(Error::ConstraintViolation);
        }
        if self.structures.len() >= u32::MAX as usize {
            proof {
                assert(s0.structures.len() == self.structures@.len());
            }
            return Err(Error::ConstraintViolation);
        }
        let pos = self.structure_insert_pos(m.id);
        self.structures.insert(pos, m);
        proof {
            let s1 = self@;
            let n = s0.structures.len() as int;
            lemma_insert_structure_sorted_at(s0.structures, mv, pos as int);
            assert(s1.structures =~= s0.structures.subrange(0, pos as int) + seq![mv]
                + s0.structures.subrange(pos as int, n));
            assert(s1.components =~= s0.components);
            assert(s1.properties =~= s0.properties);
            assert(s1.images =~= s0.images);
            assert(insert_structure_ok(s0, mv));
            assert(s1 =~= spec_insert_structure(s0, mv).0);
            let t = s1.structures;
            assert(forall|k: int| 0 <= k < pos ==> t[k] == s0.structures[k]);
            assert(t[pos as int] == mv);
            assert(forall|k: int| pos < k < t.len() ==> t[k] == s0.structures[k - 1]);
            assert(structures_sorted(t)) by {
                assert forall|a: int, b: int| 0 <= a < b < t.len() implies (#[trigger] t[a]).id < (
                #[trigger] t[b]).id by {}
            }
            assert(names_unique(t)) by {
                assert forall|a: int, b: int| 0 <= a < b < t.len() implies !((
                #[trigger] t[a]).name is Some && t[a].name == (#[trigger] t[b]).name) by {
                    if a != pos && b != pos {
                        let a0 = if a < pos { a } else { a - 1 };
                        let b0 = if b < pos { b } else { b - 1 };
                        assert(!(s0.structures[a0].name is Some && s0.structures[a0].name
                            == s0.structures[b0].name));
                    }
                }
            }
            assert(smiles_unique(t)) by {
                assert forall|a: int, b: int| 0 <= a < b < t.len() implies !((
                #[trigger] t[a]).smiles is Some && t[a].smiles == (#[trigger] t[b]).smiles) by {
                    if a != pos && b != pos {
                        let a0 = if a < pos { a } else { a - 1 };
                        let b0 = if b < pos { b } else { b - 1 };
                        assert(!(s0.structures[a0].smiles is Some && s0.structures[a0].smiles
                            == s0.structures[b0].smiles));
                    }
                }
            }
        }
        Ok(())
    }

    /// Inserts a fresh edge as bulk import does: a collision on the composite
    /// key is a constraint violation.
    pub fn insert_component(&mut self, m: component::Model) -> (r: Result<(), Error>)
        requires
            old(self).wf(),
        ensures
            final(self).wf(),
            final(self)@ == spec_insert_component(old(self)@, m@).0,
            r == spec_insert_component(old(self)@, m@).1,
    {
        let ghost s0 = self@;
        if let Some(_) = self.find_component_index(m.structure_id, m.component_id) {
            return Err(Error::ConstraintViolation);
        }
        self.components.push(m);
        proof {
            let s1 = self@;
            assert(s1.components =~= s0.components.push(m));
            assert(s1.structures =~= s0.structures);
            assert(s1.properties =~= s0.properties);
            assert(s1.images =~= s0.images);
            assert(s1 =~= spec_insert_component(s0, m).0);
            assert(components_unique(s1.components));
        }
        Ok(())
    }

    /// Inserts a fresh property row as bulk import does: a collision on the
    /// key is a constraint violation.
    pub fn insert_property(&mut self, m: property::Model) -> (r: Result<(), Error>)
        requires
            old(self).wf(),
        ensures
            final(self).wf(),
            final(self)@ == spec_insert_property(old(self)@, m@).0,
            r == spec_insert_property(old(self)@, m@).1,
    {
        let ghost s0 = self@;
        let ghost mv = m@;
        let sid = m.structure_id;
        if let Some(_) = self.find_property_index(sid) {
            return Err(Error::ConstraintViolation);
        }
        proof {
            assert(!contains_prop(s0.properties, sid));
        }
        let pos = self.property_insert_pos(sid);
        self.properties.insert(pos, m);
        proof {
            let s1 = self@;
            let n = s0.properties.len() as int;
            lemma_insert_property_sorted_at(s0.properties, mv, pos as int);
            assert(s1.properties =~= s0.properties.subrange(0, pos as int) + seq![mv]
                + s0.properties.subrange(pos as int, n));
            assert(s1.structures =~= s0.structures);
            assert(s1.components =~= s0.components);
            assert(s1.images =~= s0.images);
            assert(s1 =~= spec_insert_property(s0, mv).0);
            let t = s1.properties;
            assert(properties_sorted(t)) by {
                assert(forall|k: int| 0 <= k < pos ==> t[k] == s0.properties[k]);
                assert(t[pos as int] == mv);
                assert(forall|k: int| pos < k < t.len() ==> t[k] == s0.properties[k - 1]);
                assert forall|a: int, b: int| 0 <= a < b < t.len() implies (
                #[trigger] t[a]).structure_id < (#[trigger] t[b]).structure_id by {}
            }
        }
        Ok(())
    }

    /// Inserts a fresh image row as bulk import does: a collision on the key
    /// is a constraint violation.
    pub fn insert_image(&mut self, m: image::Model) -> (r: Result<(), Error>)
        requires
            old(self).wf(),
        ensures
            final(self).wf(),
            final(self)@ == spec_insert_image(old(self)@, m@).0,
            r == spec_insert_image(old(self)@, m@).1,
    {
        let ghost s0 = self@;
        let ghost mv = m@;
        let sid = m.structure_id;
        if let Some(_) = self.find_image_index(sid) {
            return Err(Error::ConstraintViolation);
        }
        proof {
            assert(!contains_image(s0.images, sid));
        }
        let pos = self.image_insert_pos(sid);
        self.images.insert(pos, m);
        proof {
            let s1 = self@;
            let n = s0.images.len() as int;
            lemma_insert_image_sorted_at(s0.images, mv, pos as int);
            assert(s1.images =~= s0.images.subrange(0, pos as int) + seq![mv] + s0.images.subrange(
                pos as int,
                n,
            ));
            assert(s1.structures =~= s0.structures);
            assert(s1.components =~= s0.components);
            assert(s1.properties =~= s0.properties);
            assert(s1 =~= spec_insert_image(s0, mv).0);
            let t = s1.images;
            assert(images_sorted(t)) by {
                assert(forall|k: int| 0 <= k < pos ==> t[k] == s0.images[k]);
                assert(t[pos as int] == mv);
                assert(forall|k: int| pos < k < t.len() ==> t[k] == s0.images[k - 1]);
                assert forall|a: int, b: int| 0 <= a < b < t.len() implies (
                #[trigger] t[a]).structure_id < (#[trigger] t[b]).structure_id by {}
            }
        }
        Ok(())
    }
}


// ---------------------------------------------------------------------------
// Search and detail, specified
// ---------------------------------------------------------------------------

/// Whether a structure matches the search filter: charge within the inclusive
/// bounds, and, when a keyword is given, the keyword occurring in the
/// formula, the canonical line notation or the name.
pub open spec fn matches_search(
    m: structure::ModelV,
    keyword: Option<Seq<char>>,
    max_charge: i8,
    min_charge: i8,
) -> bool {
    &&& min_charge <= m.charge <= max_charge
    &&& match keyword {
        None => true,
        Some(kw) => contains_seq(m.formula, kw) || (m.smiles is Some && contains_seq(
            m.smiles.unwrap(),
            kw,
        )) || (m.name is Some && contains_seq(m.name.unwrap(), kw)),
    }
}

/// The rows of a page: the matching rows in stored (ascending id) order, with
/// `lo` rows skipped and at most `hi - lo` taken.
pub open spec fn page_window(ms: Seq<structure::ModelV>, lo: int, hi: int) -> Seq<
    structure::ModelV,
>
    recommends
        0 <= lo <= hi,
{
    let l = if lo > ms.len() {
        ms.len() as int
    } else {
        lo
    };
    let h = if hi > ms.len() {
        ms.len() as int
    } else {
        hi
    };
    ms.subrange(l, h)
}

/// What a search returns: the matching structures in ascending id order,
/// windowed to the requested page. The final page may be shorter, and a page
/// past the matches is empty; a search never fails.
pub open spec fn spec_search(
    s: StoreV,
    page_size: u32,
    page_number: u32,
    keyword: Option<Seq<char>>,
    max_charge: i8,
    min_charge: i8,
) -> Seq<structure::ModelV> {
    let ms = s.structures.filter(
        |m: structure::ModelV| matches_search(m, keyword, max_charge, min_charge),
    );
    let lo = (page_size as int) * (page_number as int);
    page_window(ms, lo, lo + page_size as int)
}

/// Everything `get_structure_detail` returns about one structure.
#[verifier::ext_equal]
pub ghost struct DetailV {
    pub structure: structure::ModelV,
    pub property: Option<property::ModelV>,
    pub image: Option<image::ModelV>,
    pub components: Seq<(component::Model, Option<structure::ModelV>)>,
}

/// What the detail of a structure is: the row itself, its optional property
/// and image, and its outgoing edges each paired with the referenced
/// structure — or `None` for an edge whose component no longer exists.
pub open spec fn spec_get_detail(s: StoreV, id: u32) -> Result<DetailV, Error> {
    match lookup_structure(s.structures, id) {
        None => Err(Error::NotFound),
        Some(m) => Ok(
            DetailV {
                structure: m,
                property: lookup_property(s.properties, id),
                image: lookup_image(s.images, id),
                components: edges_of(s.components, id).map_values(
                    |e: component::Model| (e, lookup_structure(s.structures, e.component_id)),
                ),
            },
        ),
    }
}

// ---------------------------------------------------------------------------
// Search and detail, executable
// ---------------------------------------------------------------------------

/// Whether a structure row matches the search filter.
fn matches_exec(m: &structure::Model, keyword: &Option<String>, max_charge: i8, min_charge: i8) -> (r:
    bool)
    ensures
        r == matches_search(m@, view_opt(*keyword), max_charge, min_charge),
{
    if !(min_charge <= m.charge && m.charge <= max_charge) {
        return false;
    }
    match keyword {
        None => true,
        Some(kw) => {
            if contains_sub(m.formula.as_str(), kw.as_str()) {
                return true;
            }
            if let Some(sm) = &m.smiles {
                if contains_sub(sm.as_str(), kw.as_str()) {
                    return true;
                }
            }
            if let Some(nm) = &m.name {
                if contains_sub(nm.as_str(), kw.as_str()) {
                    return true;
                }
            }
            false
        },
    }
}

impl Store {
    /// Searches structures: keyword and charge-range filter, ascending id
    /// order, and an offset window of `page_size` rows starting `page_size *
    /// page_number` matches in. Returns an empty page, never an error, when
    /// nothing matches.
    pub fn search_structure(
        &self,
        page_size: u32,
        page_number: u32,
        keyword: Option<String>,
        max_charge: i8,
        min_charge: i8,
    ) -> (r: Vec<structure::Model>)
        ensures
            r@.map_values(|m: structure::Model| m@) == spec_search(
                self@,
                page_size,
                page_number,
                view_opt(keyword),
                max_charge,
                min_charge,
            ),
    {
        let ghost kw = view_opt(keyword);
        let ghost pred = |m: structure::ModelV| matches_search(m, kw, max_charge, min_charge);
        proof {
            vstd::arithmetic::mul::lemma_mul_upper_bound(
                page_size as int,
                u32::MAX as int,
                page_number as int,
                u32::MAX as int,
            );
        }
        let lo: u64 = (page_size as u64) * (page_number as u64);
        let hi: u64 = lo + (page_size as u64);
        let n = self.structures.len();
        let mut r: Vec<structure::Model> = Vec::new();
        let mut matched: u64 = 0;
        let mut i: usize = 0;
        proof {
            assert(self@.structures.subrange(0, 0) =~= Seq::<structure::ModelV>::empty());
            assert(Seq::<structure::ModelV>::empty().filter(pred).len() == 0) by {
                reveal(Seq::filter);
            }
            assert(r@.map_values(|m: structure::Model| m@) =~= Seq::<
                structure::ModelV,
            >::empty());
            assert(page_window(Seq::<structure::ModelV>::empty(), lo as int, hi as int) =~= Seq::<
                structure::ModelV,
            >::empty());
        }
        while i < n
            invariant
                i <= n,
                n == self@.structures.len(),
                n == self.structures@.len(),
                n <= usize::MAX,
                lo == (page_size as int) * (page_number as int),
                hi == lo + page_size as int,
                kw == view_opt(keyword),
                pred == (|m: structure::ModelV| matches_search(m, kw, max_charge, min_charge)),
                forall|k: int|
                    0 <= k < n ==> #[trigger] self@.structures[k] == self.structures@[k]@,
                matched <= i,
                matched as int == self@.structures.subrange(0, i as int).filter(pred).len(),
                r@.map_values(|m: structure::Model| m@) == page_window(
                    self@.structures.subrange(0, i as int).filter(pred),
                    lo as int,
                    hi as int,
                ),
            decreases n - i,
    {
            let ghost fs = self@.structures.subrange(0, i as int).filter(pred);
            let ghost mv = self@.structures[i as int];
            proof {
                lemma_filter_push(self@.structures.subrange(0, i as int), pred, mv);
                assert(self@.structures.subrange(0, i as int).push(mv) =~= self@.structures.subrange(
                    0,
                    i + 1,
                ));
            }
            if matches_exec(&self.structures[i], &keyword, max_charge, min_charge) {
                if matched >= lo && matched < hi {
                    let ghost before = r@.map_values(|m: structure::Model| m@);
                    r.push(self.structures[i].duplicate());
                    proof {
                        assert(r@.map_values(|m: structure::Model| m@) =~= before.push(mv));
                        assert(fs.push(mv).subrange(lo as int, fs.len() as int + 1) =~= fs.subrange(
                            lo as int,
                            fs.len() as int,
                        ).push(mv));
                        assert(page_window(fs.push(mv), lo as int, hi as int) =~= page_window(
                            fs,
                            lo as int,
                            hi as int,
                        ).push(mv));
                    }
                } else {
                    proof {
                        if matched < lo {
                            assert(page_window(fs.push(mv), lo as int, hi as int) =~= page_window(
                                fs,
                                lo as int,
                                hi as int,
                            ));
                        } else {
                            assert(fs.push(mv).subrange(lo as int, hi as int) =~= fs.subrange(
                                lo as int,
                                hi as int,
                            ));
                            assert(page_window(fs.push(mv), lo as int, hi as int) =~= page_window(
                                fs,
                                lo as int,
                                hi as int,
                            ));
                        }
                    }
                }
                matched += 1;
            }
            i += 1;
        }
        proof {
            assert(self@.structures.subrange(0, n as int) =~= self@.structures);
        }
        r
    }

    /// The full detail of one structure: the row, its optional property and
    /// image, and its outgoing edges each paired with the referenced
    /// component structure, or `None` where that structure does not exist.
    /// Fails with `NotFound` when no structure has the id.
    pub fn get_structure_detail(&self, id: u32) -> (r: Result<
        (
            structure::Model,
            Option<property::Model>,
            Option<image::Model>,
            Vec<(component::Model, Option<structure::Model>)>,
        ),
        Error,
    >)
        ensures
            match r {
                Err(e) => spec_get_detail(self@, id) == Err::<DetailV, Error>(e),
                Ok(t) => spec_get_detail(self@, id) is Ok && {
                    let d = spec_get_detail(self@, id).unwrap();
                    &&& t.0@ == d.structure
                    &&& opt_view(t.1) == d.property
                    &&& opt_view(t.2) == d.image
                    &&& t.3@.map_values(
                        |p: (component::Model, Option<structure::Model>)| (p.0, opt_view(p.1)),
                    ) == d.components
                },
            },
    {
        let ghost ss = self@.structures;
        let i = match self.find_structure_index(id) {
            None => {
                proof {
                    lemma_filter_none(ss, |m: structure::ModelV| m.id == id);
                }
                return Err(Error::NotFound);
            },
            Some(i) => i,
        };
        proof {
            lemma_filter_first(ss, |m: structure::ModelV| m.id == id, i as int);
        }
        let found = self.structures[i].duplicate();
        let prop = match self.find_property_index(id) {
            None => {
                proof {
                    lemma_filter_none(self@.properties, |p: property::ModelV| p.structure_id == id);
                }
                None
            },
            Some(j) => {
                proof {
                    lemma_filter_first(
                        self@.properties,
                        |p: property::ModelV| p.structure_id == id,
                        j as int,
                    );
                }
                Some(self.properties[j].duplicate())
            },
        };
        let img = match self.find_image_index(id) {
            None => {
                proof {
                    lemma_filter_none(self@.images, |im: image::ModelV| im.structure_id == id);
                }
                None
            },
            Some(j) => {
                proof {
                    lemma_filter_first(
                        self@.images,
                        |im: image::ModelV| im.structure_id == id,
                        j as int,
                    );
                }
                Some(self.images[j].duplicate())
            },
        };
        let ghost epred = |e: component::Model| e.structure_id == id;
        let ghost emap = |e: component::Model| (e, lookup_structure(ss, e.component_id));
        let n = self.components.len();
        let mut out: Vec<(component::Model, Option<structure::Model>)> = Vec::new();
        let mut k: usize = 0;
        proof {
            assert(self@.components.subrange(0, 0) =~= Seq::<component::Model>::empty());
            assert(Seq::<component::Model>::empty().filter(epred) =~= Seq::<
                component::Model,
            >::empty()) by {
                reveal(Seq::filter);
            }
            assert(out@.map_values(
                |p: (component::Model, Option<structure::Model>)| (p.0, opt_view(p.1)),
            ) =~= Seq::<component::Model>::empty().filter(epred).map_values(emap));
        }
        while k < n
            invariant
                k <= n,
                n == self@.components.len(),
                n == self.components@.len(),
                ss == self@.structures,
                epred == (|e: component::Model| e.structure_id == id),
                emap == (|e: component::Model| (e, lookup_structure(ss, e.component_id))),
                forall|q: int|
                    0 <= q < n ==> #[trigger] self@.components[q] == self.components@[q]@,
                out@.map_values(
                    |p: (component::Model, Option<structure::Model>)| (p.0, opt_view(p.1)),
                ) == self@.components.subrange(0, k as int).filter(epred).map_values(emap),
            decreases n - k,
        {
            let ghost cpre = self@.components.subrange(0, k as int);
            let ghost ev = self@.components[k as int];
            proof {
                lemma_filter_push(cpre, epred, ev);
                assert(cpre.push(ev) =~= self@.components.subrange(0, k + 1));
            }
            let e = self.components[k];
            if e.structure_id == id {
                let linked = match self.find_structure_index(e.component_id) {
                    None => {
                        proof {
                            lemma_filter_none(ss, |m: structure::ModelV| m.id == ev.component_id);
                        }
                        None
                    },
                    Some(q) => {
                        proof {
                            lemma_filter_first(
                                ss,
                                |m: structure::ModelV| m.id == ev.component_id,
                                q as int,
                            );
                        }
                        Some(self.structures[q].duplicate())
                    },
                };
                let ghost before = out@.map_values(
                    |p: (component::Model, Option<structure::Model>)| (p.0, opt_view(p.1)),
                );
                out.push((e, linked));
                proof {
                    assert(out@.map_values(
                        |p: (component::Model, Option<structure::Model>)| (p.0, opt_view(p.1)),
                    ) =~= before.push((ev, lookup_structure(ss, ev.component_id))));
                    assert(cpre.filter(epred).map_values(emap).push(emap(ev)) =~= cpre.push(
                        ev,
                    ).filter(epred).map_values(emap));
                }
            } else {
                proof {
                    assert(cpre.push(ev).filter(epred).map_values(emap) =~= cpre.filter(
                        epred,
                    ).map_values(emap));
                }
            }
            k += 1;
        }
        proof {
            assert(self@.components.subrange(0, n as int) =~= self@.components);
        }
        Ok((found, prop, img, out))
    }

    /// The structure rows, in stored order.
    pub fn structure_rows(&self) -> (r: &Vec<structure::Model>)
        ensures
            r@.map_values(|m: structure::Model| m@) == self@.structures,
    {
        &self.structures
    }

    /// The edge rows, in stored order.
    pub fn component_rows(&self) -> (r: &Vec<component::Model>)
        ensures
            r@.map_values(|m: component::Model| m@) == self@.components,
    {
        &self.components
    }

    /// The property rows, in stored order.
    pub fn property_rows(&self) -> (r: &Vec<property::Model>)
        ensures
            r@.map_values(|m: property::Model| m@) == self@.properties,
    {
        &self.properties
    }

    /// The image rows, in stored order.
    pub fn image_rows(&self) -> (r: &Vec<image::Model>)
        ensures
            r@.map_values(|m: image::Model| m@) == self@.images,
    {
        &self.images
    }
}

} // verus!
