use chembank::property;
use chembank::store::Store;
use chembank::Error;

fn empty_property(structure_id: u32) -> property::Model {
    property::Model {
        structure_id,
        decomp_temp: None,
        density: None,
        diss_temp: None,
        formation_enthalpy: None,
        impact_sensitive: None,
        friction_sensitivity: None,
        det_velocity: None,
        det_pressure: None,
        n_content: None,
        o_content: None,
        no_content: None,
        references: None,
        remarks: None,
    }
}

#[test]
fn create_then_detail_returns_input() {
    let mut store = Store::new();
    let id = store
        .create_structure(
            Some("Water".to_string()),
            "H2O".to_string(),
            Some("O".to_string()),
            0,
        )
        .unwrap();
    assert_eq!(id, 1);
    let (m, prop, img, comps) = store.get_structure_detail(id).unwrap();
    assert_eq!(m.id, 1);
    assert_eq!(m.name, Some("Water".to_string()));
    assert_eq!(m.formula, "H2O".to_string());
    assert_eq!(m.smiles, Some("O".to_string()));
    assert_eq!(m.charge, 0);
    assert!(prop.is_none());
    assert!(img.is_none());
    assert!(comps.is_empty());
}

#[test]
fn ids_ascend_from_one() {
    let mut store = Store::new();
    let a = store
        .create_structure(None, "CH4".to_string(), None, 0)
        .unwrap();
    let b = store
        .create_structure(None, "C2H6".to_string(), None, 0)
        .unwrap();
    assert_eq!(a, 1);
    assert_eq!(b, 2);
    assert_eq!(store.structure_count(), 2);
}

#[test]
fn duplicate_name_rejected() {
    let mut store = Store::new();
    store
        .create_structure(Some("TNT".to_string()), "C7H5N3O6".to_string(), None, 0)
        .unwrap();
    let r = store.create_structure(Some("TNT".to_string()), "other".to_string(), None, 1);
    assert_eq!(r, Err(Error::ConstraintViolation));
    assert_eq!(store.structure_count(), 1);
}

#[test]
fn duplicate_smiles_rejected() {
    let mut store = Store::new();
    store
        .create_structure(None, "C6H6".to_string(), Some("c1ccccc1".to_string()), 0)
        .unwrap();
    let r = store.create_structure(None, "benzene".to_string(), Some("c1ccccc1".to_string()), 0);
    assert_eq!(r, Err(Error::ConstraintViolation));
}

#[test]
fn absent_names_do_not_collide() {
    let mut store = Store::new();
    store.create_structure(None, "A".to_string(), None, 0).unwrap();
    store.create_structure(None, "B".to_string(), None, 0).unwrap();
    assert_eq!(store.structure_count(), 2);
}

#[test]
fn update_replaces_all_fields() {
    let mut store = Store::new();
    let id = store
        .create_structure(Some("old".to_string()), "X".to_string(), Some("S".to_string()), 1)
        .unwrap();
    store
        .update_structure(id, None, "Y".to_string(), None, -3)
        .unwrap();
    let (m, _, _, _) = store.get_structure_detail(id).unwrap();
    assert_eq!(m.name, None);
    assert_eq!(m.formula, "Y".to_string());
    assert_eq!(m.smiles, None);
    assert_eq!(m.charge, -3);
}

#[test]
fn update_missing_is_not_found() {
    let mut store = Store::new();
    let r = store.update_structure(9, None, "Z".to_string(), None, 0);
    assert_eq!(r, Err(Error::NotFound));
}

#[test]
fn update_to_taken_name_rejected() {
    let mut store = Store::new();
    store
        .create_structure(Some("one".to_string()), "A".to_string(), None, 0)
        .unwrap();
    let id2 = store
        .create_structure(Some("two".to_string()), "B".to_string(), None, 0)
        .unwrap();
    let r = store.update_structure(id2, Some("one".to_string()), "B".to_string(), None, 0);
    assert_eq!(r, Err(Error::ConstraintViolation));
}

#[test]
fn remove_blocked_while_referenced_then_cascades() {
    let mut store = Store::new();
    let a = store
        .create_structure(Some("composite".to_string()), "AB".to_string(), None, 0)
        .unwrap();
    let b = store
        .create_structure(Some("part".to_string()), "B".to_string(), None, 0)
        .unwrap();
    store.set_component(a, b, 2);
    assert_eq!(store.remove_structure(b), Err(Error::ReferencedByOther));
    store.delete_component(a, b).unwrap();
    assert_eq!(store.remove_structure(b), Ok(()));
    assert!(matches!(store.get_structure_detail(b), Err(Error::NotFound)));
    assert_eq!(store.structure_count(), 1);
}

#[test]
fn remove_cascades_attributes_and_edges() {
    let mut store = Store::new();
    let a = store
        .create_structure(None, "AB2".to_string(), None, 0)
        .unwrap();
    let b = store.create_structure(None, "B".to_string(), None, 0).unwrap();
    store.set_component(a, b, 2);
    let mut p = empty_property(a);
    p.density = Some("1.5".to_string());
    store.set_property(p);
    store.set_image(a, vec![1, 2, 3], "a.png".to_string());
    assert_eq!(store.remove_structure(a), Ok(()));
    assert!(matches!(store.get_structure_detail(a), Err(Error::NotFound)));
    // the part is free of references now and carries nothing of the composite
    let (_, prop, img, comps) = store.get_structure_detail(b).unwrap();
    assert!(prop.is_none());
    assert!(img.is_none());
    assert!(comps.is_empty());
    assert_eq!(store.remove_structure(b), Ok(()));
}

#[test]
fn remove_missing_is_not_found() {
    let mut store = Store::new();
    assert_eq!(store.remove_structure(4), Err(Error::NotFound));
}

#[test]
fn dangling_reference_still_blocks_removal() {
    let mut store = Store::new();
    let a = store.create_structure(None, "A".to_string(), None, 0).unwrap();
    // an edge may name a component that was never created
    store.set_component(a, 77, 1);
    let (_, _, _, comps) = store.get_structure_detail(a).unwrap();
    assert_eq!(comps.len(), 1);
    assert_eq!(comps[0].0.component_id, 77);
    assert!(comps[0].1.is_none());
}

#[test]
fn set_component_upserts_count() {
    let mut store = Store::new();
    let a = store.create_structure(None, "A".to_string(), None, 0).unwrap();
    let b = store.create_structure(None, "B".to_string(), None, 0).unwrap();
    store.set_component(a, b, 1);
    store.set_component(a, b, 5);
    let (_, _, _, comps) = store.get_structure_detail(a).unwrap();
    assert_eq!(comps.len(), 1);
    assert_eq!(comps[0].0.count, 5);
    let linked = comps[0].1.as_ref().unwrap();
    assert_eq!(linked.id, b);
}

#[test]
fn self_reference_is_representable() {
    let mut store = Store::new();
    let a = store.create_structure(None, "A".to_string(), None, 0).unwrap();
    store.set_component(a, a, 1);
    assert_eq!(store.remove_structure(a), Err(Error::ReferencedByOther));
    store.delete_component(a, a).unwrap();
    assert_eq!(store.remove_structure(a), Ok(()));
}

#[test]
fn delete_component_missing_is_not_found() {
    let mut store = Store::new();
    assert_eq!(store.delete_component(1, 2), Err(Error::NotFound));
}

#[test]
fn set_property_then_get_returns_exactly_it() {
    let mut store = Store::new();
    let id = store.create_structure(None, "X".to_string(), None, 0).unwrap();
    let mut p = empty_property(id);
    p.density = Some("1.23".to_string());
    store.set_property(p);
    let (_, prop, _, _) = store.get_structure_detail(id).unwrap();
    let prop = prop.unwrap();
    assert_eq!(prop.structure_id, id);
    assert_eq!(prop.density, Some("1.23".to_string()));
    assert_eq!(prop.decomp_temp, None);
    assert_eq!(prop.remarks, None);
}

#[test]
fn set_property_fully_replaces_previous_record() {
    let mut store = Store::new();
    let id = store.create_structure(None, "X".to_string(), None, 0).unwrap();
    let mut p = empty_property(id);
    p.density = Some("1.23".to_string());
    store.set_property(p);
    let mut q = empty_property(id);
    q.n_content = Some("37.5".to_string());
    store.set_property(q);
    let (_, prop, _, _) = store.get_structure_detail(id).unwrap();
    let prop = prop.unwrap();
    assert_eq!(prop.density, None);
    assert_eq!(prop.n_content, Some("37.5".to_string()));
}

#[test]
fn set_image_upserts() {
    let mut store = Store::new();
    let id = store.create_structure(None, "X".to_string(), None, 0).unwrap();
    store.set_image(id, vec![1, 2], "first.png".to_string());
    store.set_image(id, vec![9, 8, 7], "second.jpg".to_string());
    let (_, _, img, _) = store.get_structure_detail(id).unwrap();
    let img = img.unwrap();
    assert_eq!(img.filename, "second.jpg".to_string());
    assert_eq!(img.image, vec![9, 8, 7]);
}

#[test]
fn search_pages_in_ascending_id_order() {
    let mut store = Store::new();
    store
        .create_structure(Some("TNT".to_string()), "C7H5N3O6".to_string(), None, 0)
        .unwrap();
    store
        .create_structure(Some("RDX".to_string()), "C3H6N6O6".to_string(), None, 0)
        .unwrap();
    store
        .create_structure(Some("TNT-like".to_string()), "C7H5N3O5".to_string(), None, 0)
        .unwrap();
    let page0 = store.search_structure(2, 0, Some("TNT".to_string()), 0, 0);
    let names: Vec<Option<String>> = page0.iter().map(|m| m.name.clone()).collect();
    assert_eq!(
        names,
        vec![Some("TNT".to_string()), Some("TNT-like".to_string())]
    );
    let page1 = store.search_structure(2, 1, Some("TNT".to_string()), 0, 0);
    assert!(page1.is_empty());
}

#[test]
fn search_without_keyword_matches_all_in_charge_range() {
    let mut store = Store::new();
    store.create_structure(None, "A".to_string(), None, -2).unwrap();
    store.create_structure(None, "B".to_string(), None, 0).unwrap();
    store.create_structure(None, "C".to_string(), None, 3).unwrap();
    let all = store.search_structure(10, 0, None, 3, -2);
    assert_eq!(all.len(), 3);
    let mid = store.search_structure(10, 0, None, 2, -1);
    assert_eq!(mid.len(), 1);
    assert_eq!(mid[0].formula, "B".to_string());
}

#[test]
fn search_matches_keyword_in_smiles_and_name() {
    let mut store = Store::new();
    store
        .create_structure(Some("benzene".to_string()), "C6H6".to_string(), Some("c1ccccc1".to_string()), 0)
        .unwrap();
    let by_smiles = store.search_structure(10, 0, Some("ccc".to_string()), 0, 0);
    assert_eq!(by_smiles.len(), 1);
    let by_name = store.search_structure(10, 0, Some("enzen".to_string()), 0, 0);
    assert_eq!(by_name.len(), 1);
    let none = store.search_structure(10, 0, Some("xyz".to_string()), 0, 0);
    assert!(none.is_empty());
}

#[test]
fn search_never_fails_on_empty_store() {
    let store = Store::new();
    let r = store.search_structure(5, 0, Some("anything".to_string()), 127, -128);
    assert!(r.is_empty());
}

#[test]
fn search_last_page_is_shorter() {
    let mut store = Store::new();
    for i in 0..5 {
        store
            .create_structure(None, format!("F{}", i), None, 0)
            .unwrap();
    }
    let page = store.search_structure(2, 2, None, 0, 0);
    assert_eq!(page.len(), 1);
    assert_eq!(page[0].id, 5);
}

#[test]
fn reset_database_empties_the_store() {
    let mut store = Store::new();
    store.create_structure(None, "A".to_string(), None, 0).unwrap();
    store.reset_database();
    assert_eq!(store.structure_count(), 0);
}

#[test]
fn count_referencing_counts_incoming_edges() {
    let mut store = Store::new();
    let a = store.create_structure(None, "A".to_string(), None, 0).unwrap();
    let b = store.create_structure(None, "B".to_string(), None, 0).unwrap();
    let c = store.create_structure(None, "C".to_string(), None, 0).unwrap();
    store.set_component(a, c, 1);
    store.set_component(b, c, 4);
    assert_eq!(store.count_referencing(c), 2);
    assert_eq!(store.count_referencing(a), 0);
}

#[test]
fn error_messages_describe_the_failure() {
    assert!(Error::NotFound.message().contains("not found"));
    assert!(Error::ConstraintViolation.message().contains("constraint"));
    assert!(Error::ReferencedByOther.message().contains("component"));
    assert_ne!(Error::EmptyImageFolder.message(), Error::InvalidImageFolder.message());
}
