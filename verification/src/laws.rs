//! Laws of the store, stated and proved over the specified transitions: what
//! a fresh creation reads back as, how duplicate unique keys are rejected,
//! when a removal is blocked and what its cascade leaves behind, and how a
//! property upsert fully replaces the previous record.

use vstd::prelude::*;

use crate::property;
use crate::store::contains_edge;
use crate::store::contains_id;
use crate::store::contains_image;
use crate::store::contains_prop;
use crate::store::create_ok;
use crate::store::edges_of;
use crate::store::insert_property_sorted;
use crate::store::inv;
use crate::store::lemma_filter_first;
use crate::store::lemma_filter_len_exists;
use crate::store::lemma_filter_none;
use crate::store::lookup_property;
use crate::store::name_taken;
use crate::store::next_id;
use crate::store::properties_sorted;
use crate::store::smiles_taken;
use crate::store::spec_create;
use crate::store::spec_delete_component;
use crate::store::spec_get_detail;
use crate::store::spec_remove;
use crate::store::spec_set_property;
use crate::store::DetailV;
use crate::store::StoreV;
use crate::structure;
use crate::Error;

verus! {

/// Law: a freshly created structure reads back exactly as written — the
/// assigned id with the given fields — and with no property, no image and no
/// component edges, provided no stray attribute or edge rows already carry
/// the id the store is about to assign.
pub proof fn lemma_create_then_get_detail(
    s: StoreV,
    name: Option<Seq<char>>,
    formula: Seq<char>,
    smiles: Option<Seq<char>>,
    charge: i8,
)
    requires
        inv(s),
        create_ok(s, name, smiles),
        !contains_prop(s.properties, next_id(s) as u32),
        !contains_image(s.images, next_id(s) as u32),
        edges_of(s.components, next_id(s) as u32).len() == 0,
    ensures
        spec_create(s, name, formula, smiles, charge).1 == Ok::<u32, Error>(next_id(s) as u32),
        spec_get_detail(spec_create(s, name, formula, smiles, charge).0, next_id(s) as u32)
            == Ok::<DetailV, Error>(
            DetailV {
                structure: structure::ModelV {
                    id: next_id(s) as u32,
                    name,
                    formula,
                    smiles,
                    charge,
                },
                property: None,
                image: None,
                components: Seq::empty(),
            },
        ),
{
    let id = next_id(s) as u32;
    let s2 = spec_create(s, name, formula, smiles, charge).0;
    let rec = structure::ModelV { id, name, formula, smiles, charge };
    assert(s2.structures == s.structures.push(rec));
    assert forall|k: int| 0 <= k < s.structures.len() implies (#[trigger] s.structures[k]).id
        != id by {
        if s.structures.len() > 0 {
            if k < s.structures.len() - 1 {
                assert(s.structures[k].id < s.structures[s.structures.len() - 1].id);
            }
        }
    }
    let pred = |m: structure::ModelV| m.id == id;
    assert(forall|k: int|
        0 <= k < s2.structures.len() - 1 ==> !pred(#[trigger] s2.structures[k]));
    assert(s2.structures[s2.structures.len() - 1] == rec);
    lemma_filter_first(s2.structures, pred, s2.structures.len() - 1);
    assert(crate::store::lookup_structure(s2.structures, id) == Some(rec));
    assert forall|k: int| 0 <= k < s2.properties.len() implies (
    #[trigger] s2.properties[k]).structure_id != id by {}
    lemma_filter_none(s2.properties, |p: property::ModelV| p.structure_id == id);
    assert forall|k: int| 0 <= k < s2.images.len() implies (#[trigger] s2.images[k]).structure_id
        != id by {}
    lemma_filter_none(s2.images, |im: crate::image::ModelV| im.structure_id == id);
    assert(edges_of(s2.components, id).len() == 0);
    assert(edges_of(s2.components, id) =~= Seq::<crate::component::Model>::empty());
    assert(edges_of(s2.components, id).map_values(
        |e: crate::component::Model| (e, crate::store::lookup_structure(s2.structures, e.component_id)),
    ) =~= Seq::<(crate::component::Model, Option<structure::ModelV>)>::empty());
    assert(spec_get_detail(s2, id) == Ok::<DetailV, Error>(
        DetailV { structure: rec, property: None, image: None, components: Seq::empty() },
    ));
}

/// Law: after a structure is created with a present name, creating another
/// with the same name fails with a constraint violation and leaves the store
/// unchanged; and likewise for a present canonical line notation.
pub proof fn lemma_duplicate_key_rejected(
    s: StoreV,
    name: Option<Seq<char>>,
    formula: Seq<char>,
    smiles: Option<Seq<char>>,
    charge: i8,
    name2: Option<Seq<char>>,
    formula2: Seq<char>,
    smiles2: Option<Seq<char>>,
    charge2: i8,
)
    requires
        create_ok(s, name, smiles),
    ensures
        name is Some ==> spec_create(
            spec_create(s, name, formula, smiles, charge).0,
            name,
            formula2,
            smiles2,
            charge2,
        ) == (
            spec_create(s, name, formula, smiles, charge).0,
            Err::<u32, Error>(Error::ConstraintViolation),
        ),
        smiles is Some ==> spec_create(
            spec_create(s, name, formula, smiles, charge).0,
            name2,
            formula2,
            smiles,
            charge2,
        ) == (
            spec_create(s, name, formula, smiles, charge).0,
            Err::<u32, Error>(Error::ConstraintViolation),
        ),
{
    let s2 = spec_create(s, name, formula, smiles, charge).0;
    let last = s2.structures.len() - 1;
    assert(s2.structures[last].name == name);
    assert(s2.structures[last].smiles == smiles);
    if name is Some {
        assert(name_taken(s2.structures, name));
    }
    if smiles is Some {
        assert(smiles_taken(s2.structures, smiles));
    }
}

/// Law: removing a structure fails with `ReferencedByOther` exactly while
/// some edge names its id as a component, and leaves the store unchanged.
pub proof fn lemma_remove_blocked_iff_referenced(s: StoreV, id: u32)
    ensures
        spec_remove(s, id).1 == Err::<(), Error>(Error::ReferencedByOther)
            <==> crate::store::references_exist(s.components, id),
        crate::store::references_exist(s.components, id) ==> spec_remove(s, id).0 == s,
{
    if !crate::store::references_exist(s.components, id) {
        if !contains_id(s.structures, id) {
            assert(spec_remove(s, id).1 == Err::<(), Error>(Error::NotFound));
        } else {
            assert(spec_remove(s, id).1 == Ok::<(), Error>(()));
        }
    }
}

/// Law: when the one edge that still uses a structure as a component is
/// deleted, removing the structure succeeds and cascades — afterwards its
/// detail lookup reports `NotFound`, and no structure, edge, property or
/// image row for its id remains.
pub proof fn lemma_remove_cascades_after_unblocking(s: StoreV, sid: u32, id: u32)
    requires
        inv(s),
        contains_id(s.structures, id),
        contains_edge(s.components, sid, id),
        forall|k: int|
            0 <= k < s.components.len() && (#[trigger] s.components[k]).component_id == id
                ==> s.components[k].structure_id == sid,
    ensures
        spec_remove(s, id).1 == Err::<(), Error>(Error::ReferencedByOther),
        spec_delete_component(s, sid, id).1 == Ok::<(), Error>(()),
        ({
            let s2 = spec_delete_component(s, sid, id).0;
            let s3 = spec_remove(s2, id).0;
            &&& spec_remove(s2, id).1 == Ok::<(), Error>(())
            &&& spec_get_detail(s3, id) == Err::<DetailV, Error>(Error::NotFound)
            &&& !contains_id(s3.structures, id)
            &&& edges_of(s3.components, id).len() == 0
            &&& !crate::store::references_exist(s3.components, id)
            &&& !contains_prop(s3.properties, id)
            &&& !contains_image(s3.images, id)
        }),
{
    broadcast use vstd::seq_lib::group_seq_lib_default;

    assert(crate::store::references_exist(s.components, id));
    let s2 = spec_delete_component(s, sid, id).0;
    let dpred = |e: crate::component::Model| !(e.structure_id == sid && e.component_id == id);
    assert(s2.components == s.components.filter(dpred));
    crate::store::lemma_filter_members(s.components, dpred);
    assert forall|k: int| 0 <= k < s2.components.len() implies (
    #[trigger] s2.components[k]).component_id != id by {
        let j = choose|j: int| 0 <= j < s.components.len() && s2.components[k] == s.components[j];
        assert(dpred(s2.components[k]));
    }
    assert(!crate::store::references_exist(s2.components, id));
    assert(contains_id(s2.structures, id));
    let s3 = spec_remove(s2, id).0;
    assert(spec_remove(s2, id).1 == Ok::<(), Error>(()));
    let spred = |m: structure::ModelV| m.id != id;
    assert(s3.structures == s2.structures.filter(spred));
    assert forall|k: int| 0 <= k < s3.structures.len() implies (#[trigger] s3.structures[k]).id
        != id by {
        s2.structures.lemma_filter_pred(spred, k);
    }
    assert(!contains_id(s3.structures, id));
    lemma_filter_none(s3.structures, |m: structure::ModelV| m.id == id);
    assert(spec_get_detail(s3, id) == Err::<DetailV, Error>(Error::NotFound));
    let cpred = |e: crate::component::Model| e.structure_id != id;
    assert forall|k: int| 0 <= k < s3.components.len() implies (
    #[trigger] s3.components[k]).structure_id != id && s3.components[k].component_id != id by {
        s2.components.lemma_filter_pred(cpred, k);
        crate::store::lemma_filter_members(s2.components, cpred);
        let j = choose|j: int|
            0 <= j < s2.components.len() && s3.components[k] == s2.components[j];
        assert(s2.components[j].component_id != id);
    }
    lemma_filter_none(s3.components, |e: crate::component::Model| e.structure_id == id);
    assert(edges_of(s3.components, id).len() == 0);
    assert(!crate::store::references_exist(s3.components, id));
    let ppred = |p: property::ModelV| p.structure_id != id;
    assert forall|k: int| 0 <= k < s3.properties.len() implies (
    #[trigger] s3.properties[k]).structure_id != id by {
        s2.properties.lemma_filter_pred(ppred, k);
    }
    assert(!contains_prop(s3.properties, id));
    let ipred = |im: crate::image::ModelV| im.structure_id != id;
    assert forall|k: int| 0 <= k < s3.images.len() implies (
    #[trigger] s3.images[k]).structure_id != id by {
        s2.images.lemma_filter_pred(ipred, k);
    }
    assert(!contains_image(s3.images, id));
}

/// A property row placed by `insert_property_sorted` keeps the table sorted.
proof fn lemma_insert_property_sorted_keeps(ps: Seq<property::ModelV>, p: property::ModelV)
    requires
        properties_sorted(ps),
        !contains_prop(ps, p.structure_id),
    ensures
        properties_sorted(insert_property_sorted(ps, p)),
        insert_property_sorted(ps, p).len() == ps.len() + 1,
    decreases ps.len(),
{
    if ps.len() == 0 {
    } else if p.structure_id < ps[0].structure_id {
        let t = seq![p] + ps;
        assert forall|i: int, j: int| 0 <= i < j < t.len() implies (#[trigger] t[i]).structure_id
            < (#[trigger] t[j]).structure_id by {
            if i > 0 {
                assert(ps[i - 1].structure_id < ps[j - 1].structure_id);
            } else if j > 1 {
                assert(ps[0].structure_id <= ps[j - 1].structure_id);
            }
        }
    } else {
        let d = ps.skip(1);
        assert(ps[0].structure_id != p.structure_id);
        assert(forall|k: int| 0 <= k < d.len() ==> #[trigger] d[k] == ps[k + 1]);
        assert(!contains_prop(d, p.structure_id)) by {
            if contains_prop(d, p.structure_id) {
                let i = choose|i: int|
                    0 <= i < d.len() && (#[trigger] d[i]).structure_id == p.structure_id;
                assert(ps[i + 1].structure_id == p.structure_id);
            }
        }
        lemma_insert_property_sorted_keeps(d, p);
        let r = insert_property_sorted(d, p);
        let t = seq![ps[0]] + r;
        assert(insert_property_sorted(ps, p) == t);
        assert forall|k: int| 0 <= k < r.len() implies ps[0].structure_id < (
        #[trigger] r[k]).structure_id by {
            lemma_insert_property_sorted_members(d, p, k);
        }
        assert forall|i: int, j: int| 0 <= i < j < t.len() implies (#[trigger] t[i]).structure_id
            < (#[trigger] t[j]).structure_id by {
            if i > 0 {
                assert(r[i - 1].structure_id < r[j - 1].structure_id);
            }
        }
    }
}

/// Every row of a sorted insertion is the inserted row or one of the old
/// rows.
proof fn lemma_insert_property_sorted_members(ps: Seq<property::ModelV>, p: property::ModelV, k: int)
    requires
        0 <= k < insert_property_sorted(ps, p).len(),
    ensures
        insert_property_sorted(ps, p)[k] == p || exists|j: int|
            0 <= j < ps.len() && insert_property_sorted(ps, p)[k] == #[trigger] ps[j],
    decreases ps.len(),
{
    if ps.len() == 0 {
    } else if p.structure_id < ps[0].structure_id {
        if k > 0 {
            assert(insert_property_sorted(ps, p)[k] == ps[k - 1]);
        }
    } else {
        if k > 0 {
            lemma_insert_property_sorted_members(ps.skip(1), p, k - 1);
            let r = insert_property_sorted(ps.skip(1), p);
            if r[k - 1] == p {
            } else {
                let j = choose|j: int| 0 <= j < ps.skip(1).len() && r[k - 1] == ps.skip(1)[j];
                assert(insert_property_sorted(ps, p)[k] == ps[j + 1]);
            }
        }
    }
}

/// The replaced row is what a keyed lookup finds after a full replace.
proof fn lemma_lookup_property_replace(
    ps: Seq<property::ModelV>,
    mapped: Seq<property::ModelV>,
    q: property::ModelV,
)
    requires
        properties_sorted(ps),
        contains_prop(ps, q.structure_id),
        mapped.len() == ps.len(),
        forall|k: int|
            0 <= k < ps.len() ==> #[trigger] mapped[k] == (if ps[k].structure_id
                == q.structure_id {
                q
            } else {
                ps[k]
            }),
    ensures
        lookup_property(mapped, q.structure_id) == Some(q),
{
    let sid = q.structure_id;
    let i = choose|i: int| 0 <= i < ps.len() && (#[trigger] ps[i]).structure_id == sid;
    assert forall|k: int| 0 <= k < i implies (#[trigger] mapped[k]).structure_id != sid by {
        assert(ps[k].structure_id < ps[i].structure_id);
    }
    assert(mapped[i] == q);
    lemma_filter_first(mapped, |w: property::ModelV| w.structure_id == sid, i);
}

/// The inserted row is what a keyed lookup finds after a fresh insert.
proof fn lemma_lookup_property_insert(ps: Seq<property::ModelV>, p: property::ModelV)
    requires
        properties_sorted(ps),
        !contains_prop(ps, p.structure_id),
    ensures
        lookup_property(insert_property_sorted(ps, p), p.structure_id) == Some(p),
    decreases ps.len(),
{
    let sid = p.structure_id;
    let pred = |w: property::ModelV| w.structure_id == sid;
    if ps.len() == 0 {
        lemma_filter_first(insert_property_sorted(ps, p), pred, 0);
    } else if p.structure_id < ps[0].structure_id {
        assert((seq![p] + ps)[0] == p);
        lemma_filter_first(seq![p] + ps, pred, 0);
    } else {
        let d = ps.skip(1);
        assert(ps[0].structure_id != sid);
        assert(forall|k: int| 0 <= k < d.len() ==> #[trigger] d[k] == ps[k + 1]);
        assert(!contains_prop(d, sid)) by {
            if contains_prop(d, sid) {
                let i = choose|i: int| 0 <= i < d.len() && (#[trigger] d[i]).structure_id == sid;
                assert(ps[i + 1].structure_id == sid);
            }
        }
        lemma_lookup_property_insert(d, p);
        let r = insert_property_sorted(d, p);
        let t = seq![ps[0]] + r;
        assert(insert_property_sorted(ps, p) == t);
        assert(seq![ps[0]].filter(pred) =~= Seq::<property::ModelV>::empty()) by {
            reveal_with_fuel(Seq::filter, 2);
            assert(seq![ps[0]].drop_last() =~= Seq::<property::ModelV>::empty());
            assert(!pred(ps[0]));
        }
        Seq::filter_distributes_over_add(seq![ps[0]], r, pred);
        assert(t.filter(pred) =~= r.filter(pred));
    }
}

/// Law: setting a property then looking it up returns exactly the record
/// set, and setting it again with a different record fully replaces the
/// first — fields left unset in the second record read back absent, not as
/// their previous values. The detail lookup returns this keyed lookup.
pub proof fn lemma_set_property_then_get(s: StoreV, p: property::ModelV, q: property::ModelV)
    requires
        inv(s),
        q.structure_id == p.structure_id,
    ensures
        lookup_property(spec_set_property(s, p).properties, p.structure_id) == Some(p),
        lookup_property(
            spec_set_property(spec_set_property(s, p), q).properties,
            q.structure_id,
        ) == Some(q),
{
    let sid = p.structure_id;
    let s2 = spec_set_property(s, p);
    if contains_prop(s.properties, sid) {
        assert(forall|k: int|
            0 <= k < s.properties.len() ==> #[trigger] s2.properties[k] == (if s.properties[k].structure_id
                == sid {
                p
            } else {
                s.properties[k]
            }));
        lemma_lookup_property_replace(s.properties, s2.properties, p);
        assert(properties_sorted(s2.properties)) by {
            assert(forall|k: int|
                0 <= k < s2.properties.len() ==> (#[trigger] s2.properties[k]).structure_id
                    == s.properties[k].structure_id);
        }
    } else {
        lemma_lookup_property_insert(s.properties, p);
        lemma_insert_property_sorted_keeps(s.properties, p);
    }
    assert(lookup_property(s2.properties, sid) == Some(p));
    assert(contains_prop(s2.properties, sid)) by {
        lemma_filter_len_exists(s2.properties, |w: property::ModelV| w.structure_id == sid);
    }
    let s3 = spec_set_property(s2, q);
    assert(forall|k: int|
        0 <= k < s2.properties.len() ==> #[trigger] s3.properties[k] == (if s2.properties[k].structure_id
            == sid {
            q
        } else {
            s2.properties[k]
        }));
    lemma_lookup_property_replace(s2.properties, s3.properties, q);
}


/// Law: a search page lists its structures in strictly ascending id order,
/// and never holds more than the requested page size.
pub proof fn lemma_search_page_ordered(
    s: StoreV,
    page_size: u32,
    page_number: u32,
    keyword: Option<Seq<char>>,
    max_charge: i8,
    min_charge: i8,
)
    requires
        inv(s),
    ensures
        ({
            let r = crate::store::spec_search(s, page_size, page_number, keyword, max_charge, min_charge);
            &&& r.len() <= page_size
            &&& forall|i: int, j: int| 0 <= i < j < r.len() ==> (#[trigger] r[i]).id < (#[trigger] r[j]).id
        }),
{
    let pred = |m: structure::ModelV| crate::store::matches_search(m, keyword, max_charge, min_charge);
    let ms = s.structures.filter(pred);
    crate::store::lemma_filter_structures_inv(s.structures, pred);
    let r = crate::store::spec_search(s, page_size, page_number, keyword, max_charge, min_charge);
    assert forall|i: int, j: int| 0 <= i < j < r.len() implies (#[trigger] r[i]).id < (
    #[trigger] r[j]).id by {
        let lo = (page_size as int) * (page_number as int);
        let l = if lo > ms.len() { ms.len() as int } else { lo };
        assert(r[i] == ms[l + i]);
        assert(r[j] == ms[l + j]);
    }
}

} // verus!
