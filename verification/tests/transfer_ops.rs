use chembank::property;
use chembank::store::Store;
use chembank::transfer::{Folder, ImageDir, ImageFile};
use chembank::Error;

fn empty_property(structure_id: u32) -> property::Model {
    property::Model {
        structure_id,
        decomp_temp: None,
        density: None,
        diss_temp: None,
        formation_enthalpy: None,
        impact_sensitive: None,
        friction_sensitivity: None,
        det_velocity: None,
        det_pressure: None,
        n_content: None,
        o_content: None,
        no_content: None,
        references: None,
        remarks: None,
    }
}

fn sample_store() -> Store {
    let mut store = Store::new();
    store
        .create_structure(
            Some("salt, \"mixed\"".to_string()),
            "Na+Cl-".to_string(),
            Some("[Na+].[Cl-]".to_string()),
            0,
        )
        .unwrap();
    store
        .create_structure(None, "line\nbreak".to_string(), None, -128)
        .unwrap();
    store
        .create_structure(Some("plain".to_string()), "CH4".to_string(), None, 127)
        .unwrap();
    store.set_component(1, 2, 3);
    store.set_component(2, 1, 1);
    store.set_component(3, 3, 2);
    let mut p = empty_property(2);
    p.density = Some("1.77".to_string());
    p.remarks = Some("quote \" and comma , and\nnewline".to_string());
    store.set_property(p);
    store.set_image(1, vec![0, 255, 13, 10, 1], "mol.png".to_string());
    store.set_image(3, vec![], "empty.bin".to_string());
    store
}

#[test]
fn export_structures_table_exact_text() {
    let mut store = Store::new();
    store
        .create_structure(Some("Water".to_string()), "H2O".to_string(), Some("O".to_string()), 0)
        .unwrap();
    let folder = store.export_to_folder();
    assert_eq!(
        folder.structures,
        "\u{feff}id,name,formula,smiles,charge\n1,Water,H2O,O,0\n".to_string()
    );
    assert_eq!(
        folder.components,
        "\u{feff}structure_id,component_id,count\n".to_string()
    );
}

#[test]
fn export_quotes_fields_that_need_it() {
    let mut store = Store::new();
    store
        .create_structure(Some("a,b".to_string()), "say \"hi\"".to_string(), None, -1)
        .unwrap();
    let folder = store.export_to_folder();
    assert_eq!(
        folder.structures,
        "\u{feff}id,name,formula,smiles,charge\n1,\"a,b\",\"say \"\"hi\"\"\",,-1\n".to_string()
    );
}

#[test]
fn export_images_one_folder_per_id_ascending() {
    let mut store = Store::new();
    store.create_structure(None, "A".to_string(), None, 0).unwrap();
    store.create_structure(None, "B".to_string(), None, 0).unwrap();
    store.set_image(2, vec![2], "b.png".to_string());
    store.set_image(1, vec![1], "a.png".to_string());
    let folder = store.export_to_folder();
    assert_eq!(folder.images.len(), 2);
    assert_eq!(folder.images[0].name, "1".to_string());
    assert_eq!(folder.images[0].files.len(), 1);
    assert_eq!(folder.images[0].files[0].filename, "a.png".to_string());
    assert_eq!(folder.images[0].files[0].data, vec![1]);
    assert_eq!(folder.images[1].name, "2".to_string());
}

#[test]
fn round_trip_reproduces_every_record() {
    let store = sample_store();
    let folder = store.export_to_folder();
    let mut copy = Store::new();
    copy.import_from_folder(&folder).unwrap();
    assert_eq!(copy.structure_count(), 3);
    for id in 1..=3u32 {
        let (m0, p0, i0, c0) = store.get_structure_detail(id).unwrap();
        let (m1, p1, i1, c1) = copy.get_structure_detail(id).unwrap();
        assert_eq!(m0.id, m1.id);
        assert_eq!(m0.name, m1.name);
        assert_eq!(m0.formula, m1.formula);
        assert_eq!(m0.smiles, m1.smiles);
        assert_eq!(m0.charge, m1.charge);
        assert_eq!(p0.is_some(), p1.is_some());
        if let (Some(p0), Some(p1)) = (p0, p1) {
            assert_eq!(p0.density, p1.density);
            assert_eq!(p0.remarks, p1.remarks);
            assert_eq!(p0.n_content, p1.n_content);
        }
        assert_eq!(i0.is_some(), i1.is_some());
        if let (Some(i0), Some(i1)) = (i0, i1) {
            assert_eq!(i0.filename, i1.filename);
            assert_eq!(i0.image, i1.image);
        }
        assert_eq!(c0.len(), c1.len());
        for (e0, e1) in c0.iter().zip(c1.iter()) {
            assert_eq!(e0.0.structure_id, e1.0.structure_id);
            assert_eq!(e0.0.component_id, e1.0.component_id);
            assert_eq!(e0.0.count, e1.0.count);
        }
    }
    // and the copy exports the identical folder
    let folder2 = copy.export_to_folder();
    assert_eq!(folder.structures, folder2.structures);
    assert_eq!(folder.properties, folder2.properties);
    assert_eq!(folder.components, folder2.components);
    assert_eq!(folder.images.len(), folder2.images.len());
}

#[test]
fn second_import_collides_on_primary_keys() {
    let store = sample_store();
    let folder = store.export_to_folder();
    let mut copy = Store::new();
    copy.import_from_folder(&folder).unwrap();
    let r = copy.import_from_folder(&folder);
    assert_eq!(r, Err(Error::ConstraintViolation));
}

#[test]
fn import_skips_byte_order_mark_when_absent() {
    let mut store = Store::new();
    let folder = Folder {
        structures: "id,name,formula,smiles,charge\n7,seven,F7,,0\n".to_string(),
        properties: "\u{feff}structure_id,decomp_temp,density,diss_temp,formation_enthalpy,impact_sensitive,friction_sensitivity,det_velocity,det_pressure,n_content,o_content,no_content,references,remarks\n".to_string(),
        components: "structure_id,component_id,count\n".to_string(),
        images: vec![],
    };
    store.import_from_folder(&folder).unwrap();
    let (m, _, _, _) = store.get_structure_detail(7).unwrap();
    assert_eq!(m.name, Some("seven".to_string()));
}

#[test]
fn empty_tables_import_nothing() {
    let mut store = Store::new();
    let folder = Folder {
        structures: "".to_string(),
        properties: "".to_string(),
        components: "".to_string(),
        images: vec![],
    };
    store.import_from_folder(&folder).unwrap();
    assert_eq!(store.structure_count(), 0);
}

#[test]
fn malformed_row_is_rejected() {
    let mut store = Store::new();
    let folder = Folder {
        structures: "\u{feff}id,name,formula,smiles,charge\nnot-a-number,x,F,,0\n".to_string(),
        properties: "".to_string(),
        components: "".to_string(),
        images: vec![],
    };
    assert_eq!(store.import_from_folder(&folder), Err(Error::MalformedInput));
}

#[test]
fn wrong_header_is_rejected() {
    let mut store = Store::new();
    let folder = Folder {
        structures: "\u{feff}id,nom,formula,smiles,charge\n".to_string(),
        properties: "".to_string(),
        components: "".to_string(),
        images: vec![],
    };
    assert_eq!(store.import_from_folder(&folder), Err(Error::MalformedInput));
}

#[test]
fn earlier_rows_stay_when_a_later_row_fails() {
    let mut store = Store::new();
    let folder = Folder {
        structures: "\u{feff}id,name,formula,smiles,charge\n1,a,F1,,0\n1,b,F2,,0\n".to_string(),
        properties: "".to_string(),
        components: "".to_string(),
        images: vec![],
    };
    assert_eq!(store.import_from_folder(&folder), Err(Error::ConstraintViolation));
    assert_eq!(store.structure_count(), 1);
    let (m, _, _, _) = store.get_structure_detail(1).unwrap();
    assert_eq!(m.name, Some("a".to_string()));
}

#[test]
fn invalid_image_folder_name_is_rejected() {
    let mut store = Store::new();
    let folder = Folder {
        structures: "".to_string(),
        properties: "".to_string(),
        components: "".to_string(),
        images: vec![ImageDir {
            name: "not-a-number".to_string(),
            files: vec![ImageFile { filename: "x.png".to_string(), data: vec![1] }],
        }],
    };
    assert_eq!(store.import_from_folder(&folder), Err(Error::InvalidImageFolder));
}

#[test]
fn empty_image_folder_is_rejected() {
    let mut store = Store::new();
    let folder = Folder {
        structures: "".to_string(),
        properties: "".to_string(),
        components: "".to_string(),
        images: vec![ImageDir { name: "3".to_string(), files: vec![] }],
    };
    assert_eq!(store.import_from_folder(&folder), Err(Error::EmptyImageFolder));
}

#[test]
fn image_import_takes_the_first_file() {
    let mut store = Store::new();
    let folder = Folder {
        structures: "".to_string(),
        properties: "".to_string(),
        components: "".to_string(),
        images: vec![ImageDir {
            name: "5".to_string(),
            files: vec![
                ImageFile { filename: "first.png".to_string(), data: vec![1, 2] },
                ImageFile { filename: "second.png".to_string(), data: vec![3] },
            ],
        }],
    };
    store.import_from_folder(&folder).unwrap();
    // the image row exists even though structure 5 does not
    let folder2 = store.export_to_folder();
    assert_eq!(folder2.images.len(), 1);
    assert_eq!(folder2.images[0].name, "5".to_string());
    assert_eq!(folder2.images[0].files[0].filename, "first.png".to_string());
    assert_eq!(folder2.images[0].files[0].data, vec![1, 2]);
}

#[test]
fn imported_ids_steer_the_next_assigned_id() {
    let mut store = Store::new();
    let folder = Folder {
        structures: "\u{feff}id,name,formula,smiles,charge\n10,ten,F10,,0\n".to_string(),
        properties: "".to_string(),
        components: "".to_string(),
        images: vec![],
    };
    store.import_from_folder(&folder).unwrap();
    let id = store.create_structure(None, "next".to_string(), None, 0).unwrap();
    assert_eq!(id, 11);
}

#[test]
fn present_but_empty_text_reads_back_absent() {
    // an empty field cannot be told apart from an absent one in the tables,
    // so a present-but-empty value is the one shape a round trip re-reads as
    // absent
    let mut store = Store::new();
    store
        .create_structure(Some("".to_string()), "F".to_string(), None, 0)
        .unwrap();
    let folder = store.export_to_folder();
    let mut copy = Store::new();
    copy.import_from_folder(&folder).unwrap();
    let (m, _, _, _) = copy.get_structure_detail(1).unwrap();
    assert_eq!(m.name, None);
}
