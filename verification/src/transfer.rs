//! The bulk transfer pipeline: exporting the store to a folder of three
//! delimited tables and an image tree, and importing such a folder back by
//! fresh inserts. The tables carry a byte-order mark, a header row and one
//! row per entity; the image tree holds one subfolder per structure id with
//! exactly one file. Importing an exported folder into an empty store is
//! proved to reproduce every record.

use vstd::prelude::*;
use vstd::string::StrSliceExecFns;

use crate::component;
use crate::image;
use crate::property;
use crate::store::empty_store;
use crate::store::inv;
use crate::store::spec_insert_component;
use crate::store::spec_insert_image;
use crate::store::spec_insert_property;
use crate::store::spec_insert_structure;
use crate::store::Store;
use crate::store::StoreV;
use crate::structure;
use crate::table::encode_table;
use crate::table::encode_table_onto;
use crate::table::parse_record;
use crate::table::parse_record_exec;
use crate::text::push_char;
use crate::text::spec_parse_u32;
use crate::text::string_rows_eq;
use crate::text::u32_to_string;
use crate::text::dec_rep;
use crate::image::clone_bytes;
use crate::Error;

verus! {

// ---------------------------------------------------------------------------
// The folder
// ---------------------------------------------------------------------------

/// One file of an image subfolder: its name and its raw bytes.
pub struct ImageFile {
    pub filename: String,
    pub data: Vec<u8>,
}

/// The mathematical value of an image file.
#[verifier::ext_equal]
pub ghost struct ImageFileV {
    pub filename: Seq<char>,
    pub data: Seq<u8>,
}

impl View for ImageFile {
    type V = ImageFileV;

    open spec fn view(&self) -> ImageFileV {
        ImageFileV { filename: self.filename@, data: self.data@ }
    }
}

/// One subfolder of the image tree: its name and its files, in the order the
/// directory was enumerated.
pub struct ImageDir {
    pub name: String,
    pub files: Vec<ImageFile>,
}

/// The mathematical value of an image subfolder.
#[verifier::ext_equal]
pub ghost struct ImageDirV {
    pub name: Seq<char>,
    pub files: Seq<ImageFileV>,
}

impl View for ImageDir {
    type V = ImageDirV;

    open spec fn view(&self) -> ImageDirV {
        ImageDirV { name: self.name@, files: self.files@.map_values(|f: ImageFile| f@) }
    }
}

/// A transfer folder: the three delimited tables as text, and the image tree.
pub struct Folder {
    pub structures: String,
    pub properties: String,
    pub components: String,
    pub images: Vec<ImageDir>,
}

/// The mathematical value of a transfer folder.
#[verifier::ext_equal]
pub ghost struct FolderV {
    pub structures: Seq<char>,
    pub properties: Seq<char>,
    pub components: Seq<char>,
    pub images: Seq<ImageDirV>,
}

impl View for Folder {
    type V = FolderV;

    open spec fn view(&self) -> FolderV {
        FolderV {
            structures: self.structures@,
            properties: self.properties@,
            components: self.components@,
            images: self.images@.map_values(|d: ImageDir| d@),
        }
    }
}

// ---------------------------------------------------------------------------
// The byte-order mark
// ---------------------------------------------------------------------------

/// The byte-order mark character that opens each table.
pub open spec fn bom_char() -> char {
    '\u{feff}'
}

/// Writes the byte-order mark at the current end of a table.
pub fn write_bom(out: &mut String)
    ensures
        final(out)@ == old(out)@.push(bom_char()),
{
    push_char(out, '\u{feff}');
}

/// A table with its leading byte-order mark removed, when one is present.
pub open spec fn strip_bom(s: Seq<char>) -> Seq<char> {
    if s.len() > 0 && s[0] == bom_char() {
        s.skip(1)
    } else {
        s
    }
}

// ---------------------------------------------------------------------------
// Export, specified
// ---------------------------------------------------------------------------

/// The structures table text: byte-order mark, header row, one row per
/// structure in stored order.
pub open spec fn structures_table_rep(ss: Seq<structure::ModelV>) -> Seq<char> {
    seq![bom_char()] + encode_table(
        seq![structure::spec_header()] + ss.map_values(|m: structure::ModelV| structure::spec_row(m)),
    )
}

/// The properties table text: byte-order mark, header row, one row per
/// property in stored order.
pub open spec fn properties_table_rep(ps: Seq<property::ModelV>) -> Seq<char> {
    seq![bom_char()] + encode_table(
        seq![property::spec_header()] + ps.map_values(|p: property::ModelV| property::spec_row(p)),
    )
}

/// The components table text: byte-order mark, header row, one row per edge
/// in stored order.
pub open spec fn components_table_rep(cs: Seq<component::Model>) -> Seq<char> {
    seq![bom_char()] + encode_table(
        seq![component::spec_header()] + cs.map_values(|e: component::Model| component::spec_row(e)),
    )
}

/// The image subfolder of one image row: named by the decimal structure id
/// and holding exactly the one stored file.
pub open spec fn image_dir_of(im: image::ModelV) -> ImageDirV {
    ImageDirV {
        name: dec_rep(im.structure_id as nat),
        files: seq![ImageFileV { filename: im.filename, data: im.image }],
    }
}

/// What exporting the store produces: the three tables and one image
/// subfolder per image row, in ascending structure-id order.
pub open spec fn spec_export(s: StoreV) -> FolderV {
    FolderV {
        structures: structures_table_rep(s.structures),
        properties: properties_table_rep(s.properties),
        components: components_table_rep(s.components),
        images: s.images.map_values(|im: image::ModelV| image_dir_of(im)),
    }
}

// ---------------------------------------------------------------------------
// Export, executable
// ---------------------------------------------------------------------------

/// The rows of the structures table: the header, then one row per structure.
fn structure_table_rows(v: &Vec<structure::Model>) -> (r: Vec<Vec<String>>)
    ensures
        r.deep_view() == seq![structure::spec_header()] + v@.map_values(
            |m: structure::Model| m@,
        ).map_values(|mv: structure::ModelV| structure::spec_row(mv)),
        forall|k: int| 0 <= k < r@.len() ==> (#[trigger] r@[k])@.len() >= 1,
{
    let ghost vv = v@.map_values(|m: structure::Model| m@);
    let ghost goal = seq![structure::spec_header()] + vv.map_values(
        |mv: structure::ModelV| structure::spec_row(mv),
    );
    let n = v.len();
    let mut r: Vec<Vec<String>> = Vec::new();
    r.push(structure::Model::header());
    let mut i: usize = 0;
    proof {
        assert(r.deep_view() =~= goal.subrange(0, 1));
        assert(r@[0]@.len() == r@[0].deep_view().len());
    }
    while i < n
        invariant
            i <= n,
            n == v@.len(),
            vv == v@.map_values(|m: structure::Model| m@),
            goal == seq![structure::spec_header()] + vv.map_values(
                |mv: structure::ModelV| structure::spec_row(mv),
            ),
            goal.len() == n + 1,
            r.deep_view() == goal.subrange(0, i + 1),
            forall|k: int| 0 <= k < r@.len() ==> (#[trigger] r@[k])@.len() >= 1,
        decreases n - i,
    {
        let row = v[i].to_row();
        proof {
            assert(goal[i + 1] == structure::spec_row(vv[i as int]));
        }
        let ghost before_dv = r.deep_view();
        r.push(row);
        proof {
            assert(vv[i as int] == v@[i as int]@);
            assert(row.deep_view() == structure::spec_row(vv[i as int]));
            assert(row@.len() == row.deep_view().len());
            assert(r.deep_view() =~= before_dv.push(row.deep_view()));
            assert(r.deep_view() =~= goal.subrange(0, i + 2));
        }
        i += 1;
    }
    proof {
        assert(goal.subrange(0, n as int + 1) =~= goal);
    }
    r
}

/// The rows of the properties table: the header, then one row per property.
fn property_table_rows(v: &Vec<property::Model>) -> (r: Vec<Vec<String>>)
    ensures
        r.deep_view() == seq![property::spec_header()] + v@.map_values(
            |m: property::Model| m@,
        ).map_values(|mv: property::ModelV| property::spec_row(mv)),
        forall|k: int| 0 <= k < r@.len() ==> (#[trigger] r@[k])@.len() >= 1,
{
    let ghost vv = v@.map_values(|m: property::Model| m@);
    let ghost goal = seq![property::spec_header()] + vv.map_values(
        |mv: property::ModelV| property::spec_row(mv),
    );
    let n = v.len();
    let mut r: Vec<Vec<String>> = Vec::new();
    r.push(property::Model::header());
    let mut i: usize = 0;
    proof {
        assert(r.deep_view() =~= goal.subrange(0, 1));
        assert(r@[0]@.len() == r@[0].deep_view().len());
    }
    while i < n
        invariant
            i <= n,
            n == v@.len(),
            vv == v@.map_values(|m: property::Model| m@),
            goal == seq![property::spec_header()] + vv.map_values(
                |mv: property::ModelV| property::spec_row(mv),
            ),
            goal.len() == n + 1,
            r.deep_view() == goal.subrange(0, i + 1),
            forall|k: int| 0 <= k < r@.len() ==> (#[trigger] r@[k])@.len() >= 1,
        decreases n - i,
    {
        let row = v[i].to_row();
        proof {
            assert(goal[i + 1] == property::spec_row(vv[i as int]));
        }
        let ghost before_dv = r.deep_view();
        r.push(row);
        proof {
            assert(vv[i as int] == v@[i as int]@);
            assert(row.deep_view() == property::spec_row(vv[i as int]));
            assert(row@.len() == row.deep_view().len());
            assert(r.deep_view() =~= before_dv.push(row.deep_view()));
            assert(r.deep_view() =~= goal.subrange(0, i + 2));
        }
        i += 1;
    }
    proof {
        assert(goal.subrange(0, n as int + 1) =~= goal);
    }
    r
}

/// The rows of the components table: the header, then one row per edge.
fn component_table_rows(v: &Vec<component::Model>) -> (r: Vec<Vec<String>>)
    ensures
        r.deep_view() == seq![component::spec_header()] + v@.map_values(
            |m: component::Model| m@,
        ).map_values(|mv: component::Model| component::spec_row(mv)),
        forall|k: int| 0 <= k < r@.len() ==> (#[trigger] r@[k])@.len() >= 1,
{
    let ghost vv = v@.map_values(|m: component::Model| m@);
    let ghost goal = seq![component::spec_header()] + vv.map_values(
        |mv: component::Model| component::spec_row(mv),
    );
    let n = v.len();
    let mut r: Vec<Vec<String>> = Vec::new();
    r.push(component::Model::header());
    let mut i: usize = 0;
    proof {
        assert(r.deep_view() =~= goal.subrange(0, 1));
        assert(r@[0]@.len() == r@[0].deep_view().len());
    }
    while i < n
        invariant
            i <= n,
            n == v@.len(),
            vv == v@.map_values(|m: component::Model| m@),
            goal == seq![component::spec_header()] + vv.map_values(
                |mv: component::Model| component::spec_row(mv),
            ),
            goal.len() == n + 1,
            r.deep_view() == goal.subrange(0, i + 1),
            forall|k: int| 0 <= k < r@.len() ==> (#[trigger] r@[k])@.len() >= 1,
        decreases n - i,
    {
        let row = v[i].to_row();
        proof {
            assert(goal[i + 1] == component::spec_row(vv[i as int]));
        }
        let ghost before_dv = r.deep_view();
        r.push(row);
        proof {
            assert(vv[i as int] == v@[i as int]@);
            assert(row.deep_view() == component::spec_row(vv[i as int]));
            assert(row@.len() == row.deep_view().len());
            assert(r.deep_view() =~= before_dv.push(row.deep_view()));
            assert(r.deep_view() =~= goal.subrange(0, i + 2));
        }
        i += 1;
    }
    proof {
        assert(goal.subrange(0, n as int + 1) =~= goal);
    }
    r
}

impl Store {
    /// Exports the store: the three delimited tables, each with its
    /// byte-order mark and header, and one image subfolder per image row,
    /// ordered by ascending structure id.
    pub fn export_to_folder(&self) -> (r: Folder)
        ensures
            r@ == spec_export(self@),
    {
        let mut st = String::new();
        write_bom(&mut st);
        let srows = structure_table_rows(self.structure_rows());
        encode_table_onto(&srows, &mut st);
        proof {
            assert(st@ =~= structures_table_rep(self@.structures));
        }
        let mut pt = String::new();
        write_bom(&mut pt);
        let prows = property_table_rows(self.property_rows());
        encode_table_onto(&prows, &mut pt);
        proof {
            assert(pt@ =~= properties_table_rep(self@.properties));
        }
        let mut ct = String::new();
        write_bom(&mut ct);
        let crows = component_table_rows(self.component_rows());
        encode_table_onto(&crows, &mut ct);
        proof {
            assert(ct@ =~= components_table_rep(self@.components));
        }
        let imgs = self.image_rows();
        let n = imgs.len();
        let mut dirs: Vec<ImageDir> = Vec::new();
        let mut i: usize = 0;
        proof {
            assert(dirs@.map_values(|d: ImageDir| d@) =~= self@.images.subrange(0, 0).map_values(
                |im: image::ModelV| image_dir_of(im),
            ));
        }
        while i < n
            invariant
                i <= n,
                n == imgs@.len(),
                n == self@.images.len(),
                imgs@.map_values(|m: image::Model| m@) == self@.images,
                forall|k: int| 0 <= k < n ==> #[trigger] self@.images[k] == imgs@[k]@,
                dirs@.map_values(|d: ImageDir| d@) == self@.images.subrange(0, i as int).map_values(
                    |im: image::ModelV| image_dir_of(im),
                ),
            decreases n - i,
        {
            let im = &imgs[i];
            let mut files: Vec<ImageFile> = Vec::new();
            files.push(ImageFile { filename: im.filename.clone(), data: clone_bytes(&im.image) });
            let d = ImageDir { name: u32_to_string(im.structure_id), files };
            proof {
                assert(d@ =~= image_dir_of(self@.images[i as int]));
            }
            let ghost before = dirs@.map_values(|d: ImageDir| d@);
            let ghost dv = d@;
            dirs.push(d);
            proof {
                assert(dirs@.map_values(|d: ImageDir| d@) =~= before.push(dv));
                assert(dirs@.map_values(|d: ImageDir| d@) =~= self@.images.subrange(
                    0,
                    i + 1,
                ).map_values(|im: image::ModelV| image_dir_of(im)));
            }
            i += 1;
        }
        proof {
            assert(self@.images.subrange(0, n as int) =~= self@.images);
        }
        let folder = Folder { structures: st, properties: pt, components: ct, images: dirs };
        proof {
            assert(folder@ =~= spec_export(self@));
        }
        folder
    }
}


// ---------------------------------------------------------------------------
// Import, specified
// ---------------------------------------------------------------------------

/// What importing the data rows of the structures table does: parse one
/// record, read it as a structure, insert it fresh, and continue; the first
/// failure stops the work, keeping what was already inserted.
pub open spec fn spec_import_structure_rows(s: Seq<char>, st: StoreV) -> (StoreV, Option<Error>)
    decreases s.len(),
{
    if s.len() == 0 {
        (st, None)
    } else {
        match parse_record(s) {
            None => (st, Some(Error::MalformedInput)),
            Some(p) => {
                if !(0 < p.1 <= s.len()) {
                    (st, Some(Error::MalformedInput))
                } else {
                    match structure::spec_of_row(p.0) {
                        None => (st, Some(Error::MalformedInput)),
                        Some(mv) => {
                            let pr = spec_insert_structure(st, mv);
                            if pr.1 is Err {
                                (st, Some(Error::ConstraintViolation))
                            } else {
                                spec_import_structure_rows(s.skip(p.1), pr.0)
                            }
                        },
                    }
                }
            },
        }
    }
}

/// What importing the structures table does: skip a leading byte-order mark,
/// check the header row, then insert every data row fresh, in order. An empty
/// table imports nothing.
pub open spec fn spec_import_structures(s: Seq<char>, st: StoreV) -> (StoreV, Option<Error>) {
    let t = strip_bom(s);
    if t.len() == 0 {
        (st, None)
    } else {
        match parse_record(t) {
            None => (st, Some(Error::MalformedInput)),
            Some(p) => {
                if p.0 != structure::spec_header() || !(0 < p.1 <= t.len()) {
                    (st, Some(Error::MalformedInput))
                } else {
                    spec_import_structure_rows(t.skip(p.1), st)
                }
            },
        }
    }
}

/// What importing the data rows of the properties table does.
pub open spec fn spec_import_property_rows(s: Seq<char>, st: StoreV) -> (StoreV, Option<Error>)
    decreases s.len(),
{
    if s.len() == 0 {
        (st, None)
    } else {
        match parse_record(s) {
            None => (st, Some(Error::MalformedInput)),
            Some(p) => {
                if !(0 < p.1 <= s.len()) {
                    (st, Some(Error::MalformedInput))
                } else {
                    match property::spec_of_row(p.0) {
                        None => (st, Some(Error::MalformedInput)),
                        Some(mv) => {
                            let pr = spec_insert_property(st, mv);
                            if pr.1 is Err {
                                (st, Some(Error::ConstraintViolation))
                            } else {
                                spec_import_property_rows(s.skip(p.1), pr.0)
                            }
                        },
                    }
                }
            },
        }
    }
}

/// What importing the properties table does.
pub open spec fn spec_import_properties(s: Seq<char>, st: StoreV) -> (StoreV, Option<Error>) {
    let t = strip_bom(s);
    if t.len() == 0 {
        (st, None)
    } else {
        match parse_record(t) {
            None => (st, Some(Error::MalformedInput)),
            Some(p) => {
                if p.0 != property::spec_header() || !(0 < p.1 <= t.len()) {
                    (st, Some(Error::MalformedInput))
                } else {
                    spec_import_property_rows(t.skip(p.1), st)
                }
            },
        }
    }
}

/// What importing the data rows of the components table does.
pub open spec fn spec_import_component_rows(s: Seq<char>, st: StoreV) -> (StoreV, Option<Error>)
    decreases s.len(),
{
    if s.len() == 0 {
        (st, None)
    } else {
        match parse_record(s) {
            None => (st, Some(Error::MalformedInput)),
            Some(p) => {
                if !(0 < p.1 <= s.len()) {
                    (st, Some(Error::MalformedInput))
                } else {
                    match component::spec_of_row(p.0) {
                        None => (st, Some(Error::MalformedInput)),
                        Some(mv) => {
                            let pr = spec_insert_component(st, mv);
                            if pr.1 is Err {
                                (st, Some(Error::ConstraintViolation))
                            } else {
                                spec_import_component_rows(s.skip(p.1), pr.0)
                            }
                        },
                    }
                }
            },
        }
    }
}

/// What importing the components table does.
pub open spec fn spec_import_components(s: Seq<char>, st: StoreV) -> (StoreV, Option<Error>) {
    let t = strip_bom(s);
    if t.len() == 0 {
        (st, None)
    } else {
        match parse_record(t) {
            None => (st, Some(Error::MalformedInput)),
            Some(p) => {
                if p.0 != component::spec_header() || !(0 < p.1 <= t.len()) {
                    (st, Some(Error::MalformedInput))
                } else {
                    spec_import_component_rows(t.skip(p.1), st)
                }
            },
        }
    }
}

/// What importing the image tree does: each subfolder's name is read as the
/// structure id — `InvalidImageFolder` otherwise — its first file becomes the
/// image — `EmptyImageFolder` when it has none — and the row is inserted
/// fresh.
pub open spec fn spec_import_images(dirs: Seq<ImageDirV>, st: StoreV) -> (StoreV, Option<Error>)
    decreases dirs.len(),
{
    if dirs.len() == 0 {
        (st, None)
    } else {
        let d = dirs[0];
        match spec_parse_u32(d.name) {
            None => (st, Some(Error::InvalidImageFolder)),
            Some(id) => {
                if d.files.len() == 0 {
                    (st, Some(Error::EmptyImageFolder))
                } else {
                    let pr = spec_insert_image(
                        st,
                        image::ModelV {
                            structure_id: id,
                            filename: d.files[0].filename,
                            image: d.files[0].data,
                        },
                    );
                    if pr.1 is Err {
                        (st, Some(Error::ConstraintViolation))
                    } else {
                        spec_import_images(dirs.skip(1), pr.0)
                    }
                }
            },
        }
    }
}

/// What importing a folder does: structures, then properties, then
/// components, then images, every row a fresh insert; the first failure stops
/// the remaining work and leaves everything already inserted in place.
pub open spec fn spec_import(f: FolderV, st: StoreV) -> (StoreV, Option<Error>) {
    let r1 = spec_import_structures(f.structures, st);
    if r1.1 is Some {
        r1
    } else {
        let r2 = spec_import_properties(f.properties, r1.0);
        if r2.1 is Some {
            r2
        } else {
            let r3 = spec_import_components(f.components, r2.0);
            if r3.1 is Some {
                r3
            } else {
                spec_import_images(f.images, r3.0)
            }
        }
    }
}

// ---------------------------------------------------------------------------
// Import, executable
// ---------------------------------------------------------------------------

impl Store {
    /// Imports the structures table: header check, then one fresh insert per
    /// row, in table order.
    fn import_structures_table(&mut self, s: &str) -> (r: Result<(), Error>)
        requires
            old(self).wf(),
        ensures
            final(self).wf(),
            final(self)@ == spec_import_structures(s@, old(self)@).0,
            match r {
                Ok(u) => spec_import_structures(s@, old(self)@).1 is None,
                Err(e) => spec_import_structures(s@, old(self)@).1 == Some(e),
            },
    {
        let len = s.unicode_len();
        let start: usize = if len > 0 && s.get_char(0) == '\u{feff}' {
            1
        } else {
            0
        };
        proof {
            if start == 0 {
                assert(s@.skip(0) =~= s@);
            }
            assert(s@.skip(start as int) == strip_bom(s@));
        }
        if start == len {
            return Ok(());
        }
        let (hrow, hn) = match parse_record_exec(s, start) {
            None => {
                return Err(Error::MalformedInput);
            },
            Some(p) => p,
        };
        let expect = structure::Model::header();
        if !string_rows_eq(&hrow, &expect) {
            return Err(Error::MalformedInput);
        }
        let mut pos = start + hn;
        proof {
            assert(s@.skip(pos as int) =~= strip_bom(s@).skip(hn as int));
            assert(spec_import_structures(s@, old(self)@) == spec_import_structure_rows(
                s@.skip(pos as int),
                old(self)@,
            ));
        }
        loop
            invariant
                pos <= len,
                len == s@.len(),
                self.wf(),
                spec_import_structures(s@, old(self)@) == spec_import_structure_rows(
                    s@.skip(pos as int),
                    self@,
                ),
            decreases len - pos,
        {
            let ghost t = s@.skip(pos as int);
            if pos == len {
                proof {
                    assert(t =~= Seq::<char>::empty());
                }
                return Ok(());
            }
            let (row, n) = match parse_record_exec(s, pos) {
                None => {
                    return Err(Error::MalformedInput);
                },
                Some(p) => p,
            };
            let m = match structure::Model::of_row(&row) {
                None => {
                    return Err(Error::MalformedInput);
                },
                Some(m) => m,
            };
            let ghost cur = self@;
            let ghost mv = m@;
            match self.insert_structure(m) {
                Err(e) => {
                    proof {
                        assert(spec_import_structure_rows(t, cur) == (
                            cur,
                            Some(Error::ConstraintViolation),
                        ));
                    }
                    return Err(Error::ConstraintViolation);
                },
                Ok(u) => {},
            }
            proof {
                assert(t.skip(parse_record(t).unwrap().1) =~= s@.skip(pos + n));
                assert(spec_import_structure_rows(t, cur) == spec_import_structure_rows(
                    s@.skip(pos + n),
                    self@,
                ));
            }
            pos = pos + n;
        }
    }
    /// Imports the properties table: header check, then one fresh insert per
    /// row, in table order.
    fn import_properties_table(&mut self, s: &str) -> (r: Result<(), Error>)
        requires
            old(self).wf(),
        ensures
            final(self).wf(),
            final(self)@ == spec_import_properties(s@, old(self)@).0,
            match r {
                Ok(u) => spec_import_properties(s@, old(self)@).1 is None,
                Err(e) => spec_import_properties(s@, old(self)@).1 == Some(e),
            },
    {
        let len = s.unicode_len();
        let start: usize = if len > 0 && s.get_char(0) == '\u{feff}' {
            1
        } else {
            0
        };
        proof {
            if start == 0 {
                assert(s@.skip(0) =~= s@);
            }
            assert(s@.skip(start as int) == strip_bom(s@));
        }
        if start == len {
            return Ok(());
        }
        let (hrow, hn) = match parse_record_exec(s, start) {
            None => {
                return Err(Error::MalformedInput);
            },
            Some(p) => p,
        };
        let expect = property::Model::header();
        if !string_rows_eq(&hrow, &expect) {
            return Err(Error::MalformedInput);
        }
        let mut pos = start + hn;
        proof {
            assert(s@.skip(pos as int) =~= strip_bom(s@).skip(hn as int));
            assert(spec_import_properties(s@, old(self)@) == spec_import_property_rows(
                s@.skip(pos as int),
                old(self)@,
            ));
        }
        loop
            invariant
                pos <= len,
                len == s@.len(),
                self.wf(),
                spec_import_properties(s@, old(self)@) == spec_import_property_rows(
                    s@.skip(pos as int),
                    self@,
                ),
            decreases len - pos,
        {
            let ghost t = s@.skip(pos as int);
            if pos == len {
                proof {
                    assert(t =~= Seq::<char>::empty());
                }
                return Ok(());
            }
            let (row, n) = match parse_record_exec(s, pos) {
                None => {
                    return Err(Error::MalformedInput);
                },
                Some(p) => p,
            };
            let m = match property::Model::of_row(&row) {
                None => {
                    return Err(Error::MalformedInput);
                },
                Some(m) => m,
            };
            let ghost cur = self@;
            let ghost mv = m@;
            match self.insert_property(m) {
                Err(e) => {
                    proof {
                        assert(spec_import_property_rows(t, cur) == (
                            cur,
                            Some(Error::ConstraintViolation),
                        ));
                    }
                    return Err(Error::ConstraintViolation);
                },
                Ok(u) => {},
            }
            proof {
                assert(t.skip(parse_record(t).unwrap().1) =~= s@.skip(pos + n));
                assert(spec_import_property_rows(t, cur) == spec_import_property_rows(
                    s@.skip(pos + n),
                    self@,
                ));
            }
            pos = pos + n;
        }
    }

    /// Imports the components table: header check, then one fresh insert per
    /// row, in table order.
    fn import_components_table(&mut self, s: &str) -> (r: Result<(), Error>)
        requires
            old(self).wf(),
        ensures
            final(self).wf(),
            final(self)@ == spec_import_components(s@, old(self)@).0,
            match r {
                Ok(u) => spec_import_components(s@, old(self)@).1 is None,
                Err(e) => spec_import_components(s@, old(self)@).1 == Some(e),
            },
    {
        let len = s.unicode_len();
        let start: usize = if len > 0 && s.get_char(0) == '\u{feff}' {
            1
        } else {
            0
        };
        proof {
            if start == 0 {
                assert(s@.skip(0) =~= s@);
            }
            assert(s@.skip(start as int) == strip_bom(s@));
        }
        if start == len {
            return Ok(());
        }
        let (hrow, hn) = match parse_record_exec(s, start) {
            None => {
                return Err(Error::MalformedInput);
            },
            Some(p) => p,
        };
        let expect = component::Model::header();
        if !string_rows_eq(&hrow, &expect) {
            return Err(Error::MalformedInput);
        }
        let mut pos = start + hn;
        proof {
            assert(s@.skip(pos as int) =~= strip_bom(s@).skip(hn as int));
            assert(spec_import_components(s@, old(self)@) == spec_import_component_rows(
                s@.skip(pos as int),
                old(self)@,
            ));
        }
        loop
            invariant
                pos <= len,
                len == s@.len(),
                self.wf(),
                spec_import_components(s@, old(self)@) == spec_import_component_rows(
                    s@.skip(pos as int),
                    self@,
                ),
            decreases len - pos,
        {
            let ghost t = s@.skip(pos as int);
            if pos == len {
                proof {
                    assert(t =~= Seq::<char>::empty());
                }
                return Ok(());
            }
            let (row, n) = match parse_record_exec(s, pos) {
                None => {
                    return Err(Error::MalformedInput);
                },
                Some(p) => p,
            };
            let m = match component::Model::of_row(&row) {
                None => {
                    return Err(Error::MalformedInput);
                },
                Some(m) => m,
            };
            let ghost cur = self@;
            let ghost mv = m@;
            match self.insert_component(m) {
                Err(e) => {
                    proof {
                        assert(spec_import_component_rows(t, cur) == (
                            cur,
                            Some(Error::ConstraintViolation),
                        ));
                    }
                    return Err(Error::ConstraintViolation);
                },
                Ok(u) => {},
            }
            proof {
                assert(t.skip(parse_record(t).unwrap().1) =~= s@.skip(pos + n));
                assert(spec_import_component_rows(t, cur) == spec_import_component_rows(
                    s@.skip(pos + n),
                    self@,
                ));
            }
            pos = pos + n;
        }
    }


    /// Imports the image tree: one subfolder per structure id, taking the
    /// first file of each, every row a fresh insert.
    fn import_images_dirs(&mut self, dirs: &Vec<ImageDir>) -> (r: Result<(), Error>)
        requires
            old(self).wf(),
        ensures
            final(self).wf(),
            final(self)@ == spec_import_images(
                dirs@.map_values(|d: ImageDir| d@),
                old(self)@,
            ).0,
            match r {
                Ok(u) => spec_import_images(dirs@.map_values(|d: ImageDir| d@), old(self)@).1
                    is None,
                Err(e) => spec_import_images(dirs@.map_values(|d: ImageDir| d@), old(self)@).1
                    == Some(e),
            },
    {
        let n = dirs.len();
        let mut i: usize = 0;
        proof {
            assert(dirs@.map_values(|d: ImageDir| d@).skip(0) =~= dirs@.map_values(
                |d: ImageDir| d@,
            ));
        }
        loop
            invariant
                i <= n,
                n == dirs@.len(),
                self.wf(),
                spec_import_images(dirs@.map_values(|d: ImageDir| d@), old(self)@)
                    == spec_import_images(
                    dirs@.map_values(|d: ImageDir| d@).skip(i as int),
                    self@,
                ),
            decreases n - i,
        {
            let ghost dv = dirs@.map_values(|d: ImageDir| d@).skip(i as int);
            if i == n {
                proof {
                    assert(dv =~= Seq::<ImageDirV>::empty());
                }
                return Ok(());
            }
            proof {
                assert(dv[0] == dirs@[i as int]@);
            }
            let d = &dirs[i];
            let id = match crate::text::parse_u32(d.name.as_str()) {
                None => {
                    return Err(Error::InvalidImageFolder);
                },
                Some(id) => id,
            };
            if d.files.len() == 0 {
                proof {
                    assert(dv[0].files.len() == 0);
                }
                return Err(Error::EmptyImageFolder);
            }
            proof {
                assert(dv[0].files[0] == dirs@[i as int].files@[0]@);
            }
            let f = &d.files[0];
            let m = image::Model {
                structure_id: id,
                filename: f.filename.clone(),
                image: clone_bytes(&f.data),
            };
            let ghost cur = self@;
            match self.insert_image(m) {
                Err(e) => {
                    proof {
                        assert(spec_import_images(dv, cur) == (
                            cur,
                            Some(Error::ConstraintViolation),
                        ));
                    }
                    return Err(Error::ConstraintViolation);
                },
                Ok(u) => {},
            }
            proof {
                assert(dv.skip(1) =~= dirs@.map_values(|d: ImageDir| d@).skip(i + 1));
                assert(spec_import_images(dv, cur) == spec_import_images(
                    dirs@.map_values(|d: ImageDir| d@).skip(i + 1),
                    self@,
                ));
            }
            i += 1;
        }
    }

    /// Imports a folder: the structures table, then the properties table,
    /// then the components table, then the image tree, every row a fresh
    /// insert. The first failure aborts the remaining work; rows already
    /// inserted stay.
    pub fn import_from_folder(&mut self, folder: &Folder) -> (r: Result<(), Error>)
        requires
            old(self).wf(),
        ensures
            final(self).wf(),
            final(self)@ == spec_import(folder@, old(self)@).0,
            match r {
                Ok(u) => spec_import(folder@, old(self)@).1 is None,
                Err(e) => spec_import(folder@, old(self)@).1 == Some(e),
            },
    {
        let ghost st0 = self@;
        match self.import_structures_table(folder.structures.as_str()) {
            Err(e) => {
                return Err(e);
            },
            Ok(u) => {},
        }
        match self.import_properties_table(folder.properties.as_str()) {
            Err(e) => {
                return Err(e);
            },
            Ok(u) => {},
        }
        match self.import_components_table(folder.components.as_str()) {
            Err(e) => {
                return Err(e);
            },
            Ok(u) => {},
        }
        self.import_images_dirs(&folder.images)
    }
}


// ---------------------------------------------------------------------------
// Round trip: importing an exported folder reproduces the store
// ---------------------------------------------------------------------------

/// A store whose optional text fields are never present-but-empty: such a
/// field is written as an empty table field, which reads back as absent, so
/// only these stores round-trip exactly.
pub open spec fn export_clean(s: StoreV) -> bool {
    &&& forall|i: int|
        0 <= i < s.structures.len() ==> structure::row_clean(#[trigger] s.structures[i])
    &&& forall|i: int|
        0 <= i < s.properties.len() ==> property::row_clean(#[trigger] s.properties[i])
}

/// Importing the encoded rows of sorted, fresh structures appends them all.
proof fn lemma_import_structure_rows_encoded(rest: Seq<structure::ModelV>, cur: StoreV)
    requires
        crate::store::structures_sorted(cur.structures + rest),
        crate::store::names_unique(cur.structures + rest),
        crate::store::smiles_unique(cur.structures + rest),
        (cur.structures + rest).len() <= u32::MAX as nat,
        forall|i: int| 0 <= i < rest.len() ==> structure::row_clean(#[trigger] rest[i]),
    ensures
        spec_import_structure_rows(
            encode_table(rest.map_values(|m: structure::ModelV| structure::spec_row(m))),
            cur,
        ) == (
            StoreV {
                structures: cur.structures + rest,
                components: cur.components,
                properties: cur.properties,
                images: cur.images,
            },
            None::<Error>,
        ),
    decreases rest.len(),
{
    let combined = cur.structures + rest;
    let cl = cur.structures.len() as int;
    assert(forall|k: int| 0 <= k < cl ==> combined[k] == cur.structures[k]);
    assert(forall|k: int| cl <= k < combined.len() ==> combined[k] == rest[k - cl]);
    let rows = rest.map_values(|m: structure::ModelV| structure::spec_row(m));
    if rest.len() == 0 {
        assert(rows.len() == 0);
        assert(encode_table(rows) == Seq::<char>::empty());
        assert(combined =~= cur.structures);
        assert(StoreV {
            structures: cur.structures + rest,
            components: cur.components,
            properties: cur.properties,
            images: cur.images,
        } =~= cur);
    } else {
        let m = rest[0];
        assert(rows[0] == structure::spec_row(m));
        let enc0 = crate::table::encode_record(rows[0]);
        let s = encode_table(rows);
        assert(s == enc0 + encode_table(rows.skip(1)));
        crate::table::lemma_encode_record_len(rows[0]);
        crate::table::lemma_parse_record_encoded(rows[0], encode_table(rows.skip(1)));
        assert(crate::table::parse_record(s) == Some((rows[0], enc0.len() as int)));
        structure::lemma_row_round_trip(m);
        assert(structure::spec_of_row(rows[0]) == Some(m));
        assert(!crate::store::contains_id(cur.structures, m.id)) by {
            if crate::store::contains_id(cur.structures, m.id) {
                let i = choose|i: int|
                    0 <= i < cur.structures.len() && (#[trigger] cur.structures[i]).id == m.id;
                assert(combined[i].id < combined[cl].id);
            }
        }
        assert(!crate::store::name_taken(cur.structures, m.name)) by {
            if crate::store::name_taken(cur.structures, m.name) {
                let i = choose|i: int|
                    0 <= i < cur.structures.len() && (#[trigger] cur.structures[i]).name == m.name;
                assert(!(combined[i].name is Some && combined[i].name == combined[cl].name));
            }
        }
        assert(!crate::store::smiles_taken(cur.structures, m.smiles)) by {
            if crate::store::smiles_taken(cur.structures, m.smiles) {
                let i = choose|i: int|
                    0 <= i < cur.structures.len() && (#[trigger] cur.structures[i]).smiles
                        == m.smiles;
                assert(!(combined[i].smiles is Some && combined[i].smiles == combined[cl].smiles));
            }
        }
        assert(crate::store::insert_structure_ok(cur, m));
        let pr = spec_insert_structure(cur, m);
        assert(pr.1 is Ok);
        assert forall|k: int| 0 <= k < cur.structures.len() implies (
        #[trigger] cur.structures[k]).id < m.id by {
            assert(combined[k].id < combined[cl].id);
        }
        crate::store::lemma_insert_structure_sorted_at(cur.structures, m, cl);
        assert(pr.0.structures =~= cur.structures + seq![m]);
        let cur2 = pr.0;
        assert(cur2.structures + rest.skip(1) =~= combined);
        assert(cur2.components == cur.components && cur2.properties == cur.properties
            && cur2.images == cur.images);
        assert(forall|i: int|
            0 <= i < rest.skip(1).len() ==> structure::row_clean(#[trigger] rest.skip(1)[i]));
        lemma_import_structure_rows_encoded(rest.skip(1), cur2);
        assert(rows.skip(1) =~= rest.skip(1).map_values(
            |w: structure::ModelV| structure::spec_row(w),
        ));
        assert(s.skip(enc0.len() as int) =~= encode_table(rows.skip(1)));
        assert(StoreV {
            structures: cur2.structures + rest.skip(1),
            components: cur2.components,
            properties: cur2.properties,
            images: cur2.images,
        } =~= StoreV {
            structures: cur.structures + rest,
            components: cur.components,
            properties: cur.properties,
            images: cur.images,
        });
    }
}


/// Importing the encoded rows of sorted, fresh properties appends them all.
proof fn lemma_import_property_rows_encoded(rest: Seq<property::ModelV>, cur: StoreV)
    requires
        crate::store::properties_sorted(cur.properties + rest),
        forall|i: int| 0 <= i < rest.len() ==> property::row_clean(#[trigger] rest[i]),
    ensures
        spec_import_property_rows(
            encode_table(rest.map_values(|m: property::ModelV| property::spec_row(m))),
            cur,
        ) == (
            StoreV {
                structures: cur.structures,
                components: cur.components,
                properties: cur.properties + rest,
                images: cur.images,
            },
            None::<Error>,
        ),
    decreases rest.len(),
{
    let combined = cur.properties + rest;
    let cl = cur.properties.len() as int;
    assert(forall|k: int| 0 <= k < cl ==> combined[k] == cur.properties[k]);
    assert(forall|k: int| cl <= k < combined.len() ==> combined[k] == rest[k - cl]);
    let rows = rest.map_values(|m: property::ModelV| property::spec_row(m));
    if rest.len() == 0 {
        assert(rows.len() == 0);
        assert(encode_table(rows) == Seq::<char>::empty());
        assert(StoreV {
            structures: cur.structures,
            components: cur.components,
            properties: cur.properties + rest,
            images: cur.images,
        } =~= cur);
    } else {
        let m = rest[0];
        assert(rows[0] == property::spec_row(m));
        let enc0 = crate::table::encode_record(rows[0]);
        let s = encode_table(rows);
        assert(s == enc0 + encode_table(rows.skip(1)));
        crate::table::lemma_encode_record_len(rows[0]);
        crate::table::lemma_parse_record_encoded(rows[0], encode_table(rows.skip(1)));
        assert(crate::table::parse_record(s) == Some((rows[0], enc0.len() as int)));
        property::lemma_row_round_trip(m);
        assert(property::spec_of_row(rows[0]) == Some(m));
        assert(!crate::store::contains_prop(cur.properties, m.structure_id)) by {
            if crate::store::contains_prop(cur.properties, m.structure_id) {
                let i = choose|i: int|
                    0 <= i < cur.properties.len() && (#[trigger] cur.properties[i]).structure_id
                        == m.structure_id;
                assert(combined[i].structure_id < combined[cl].structure_id);
            }
        }
        let pr = spec_insert_property(cur, m);
        assert(pr.1 is Ok);
        assert forall|k: int| 0 <= k < cur.properties.len() implies (
        #[trigger] cur.properties[k]).structure_id < m.structure_id by {
            assert(combined[k].structure_id < combined[cl].structure_id);
        }
        crate::store::lemma_insert_property_sorted_at(cur.properties, m, cl);
        assert(pr.0.properties =~= cur.properties + seq![m]);
        let cur2 = pr.0;
        assert(cur2.properties + rest.skip(1) =~= combined);
        assert(forall|i: int|
            0 <= i < rest.skip(1).len() ==> property::row_clean(#[trigger] rest.skip(1)[i]));
        lemma_import_property_rows_encoded(rest.skip(1), cur2);
        assert(rows.skip(1) =~= rest.skip(1).map_values(
            |w: property::ModelV| property::spec_row(w),
        ));
        assert(s.skip(enc0.len() as int) =~= encode_table(rows.skip(1)));
        assert(StoreV {
            structures: cur2.structures,
            components: cur2.components,
            properties: cur2.properties + rest.skip(1),
            images: cur2.images,
        } =~= StoreV {
            structures: cur.structures,
            components: cur.components,
            properties: cur.properties + rest,
            images: cur.images,
        });
    }
}

/// Importing the encoded rows of fresh edges appends them all in order.
proof fn lemma_import_component_rows_encoded(rest: Seq<component::Model>, cur: StoreV)
    requires
        crate::store::components_unique(cur.components + rest),
    ensures
        spec_import_component_rows(
            encode_table(rest.map_values(|m: component::Model| component::spec_row(m))),
            cur,
        ) == (
            StoreV {
                structures: cur.structures,
                components: cur.components + rest,
                properties: cur.properties,
                images: cur.images,
            },
            None::<Error>,
        ),
    decreases rest.len(),
{
    let combined = cur.components + rest;
    let cl = cur.components.len() as int;
    assert(forall|k: int| 0 <= k < cl ==> combined[k] == cur.components[k]);
    assert(forall|k: int| cl <= k < combined.len() ==> combined[k] == rest[k - cl]);
    let rows = rest.map_values(|m: component::Model| component::spec_row(m));
    if rest.len() == 0 {
        assert(rows.len() == 0);
        assert(encode_table(rows) == Seq::<char>::empty());
        assert(StoreV {
            structures: cur.structures,
            components: cur.components + rest,
            properties: cur.properties,
            images: cur.images,
        } =~= cur);
    } else {
        let m = rest[0];
        assert(rows[0] == component::spec_row(m));
        let enc0 = crate::table::encode_record(rows[0]);
        let s = encode_table(rows);
        assert(s == enc0 + encode_table(rows.skip(1)));
        crate::table::lemma_encode_record_len(rows[0]);
        crate::table::lemma_parse_record_encoded(rows[0], encode_table(rows.skip(1)));
        assert(crate::table::parse_record(s) == Some((rows[0], enc0.len() as int)));
        component::lemma_row_round_trip(m);
        assert(component::spec_of_row(rows[0]) == Some(m));
        assert(!crate::store::contains_edge(cur.components, m.structure_id, m.component_id)) by {
            if crate::store::contains_edge(cur.components, m.structure_id, m.component_id) {
                let i = choose|i: int|
                    0 <= i < cur.components.len() && (#[trigger] cur.components[i]).structure_id
                        == m.structure_id && cur.components[i].component_id == m.component_id;
                assert(!(combined[i].structure_id == combined[cl].structure_id
                    && combined[i].component_id == combined[cl].component_id));
            }
        }
        let pr = spec_insert_component(cur, m);
        assert(pr.1 is Ok);
        assert(pr.0.components =~= cur.components + seq![m]);
        let cur2 = pr.0;
        assert(cur2.components + rest.skip(1) =~= combined);
        lemma_import_component_rows_encoded(rest.skip(1), cur2);
        assert(rows.skip(1) =~= rest.skip(1).map_values(
            |w: component::Model| component::spec_row(w),
        ));
        assert(s.skip(enc0.len() as int) =~= encode_table(rows.skip(1)));
        assert(StoreV {
            structures: cur2.structures,
            components: cur2.components + rest.skip(1),
            properties: cur2.properties,
            images: cur2.images,
        } =~= StoreV {
            structures: cur.structures,
            components: cur.components + rest,
            properties: cur.properties,
            images: cur.images,
        });
    }
}

/// Importing the exported image tree of sorted, fresh images appends them
/// all.
proof fn lemma_import_images_encoded(rest: Seq<image::ModelV>, cur: StoreV)
    requires
        crate::store::images_sorted(cur.images + rest),
    ensures
        spec_import_images(rest.map_values(|im: image::ModelV| image_dir_of(im)), cur) == (
            StoreV {
                structures: cur.structures,
                components: cur.components,
                properties: cur.properties,
                images: cur.images + rest,
            },
            None::<Error>,
        ),
    decreases rest.len(),
{
    let combined = cur.images + rest;
    let cl = cur.images.len() as int;
    assert(forall|k: int| 0 <= k < cl ==> combined[k] == cur.images[k]);
    assert(forall|k: int| cl <= k < combined.len() ==> combined[k] == rest[k - cl]);
    let dirs = rest.map_values(|im: image::ModelV| image_dir_of(im));
    if rest.len() == 0 {
        assert(dirs.len() == 0);
        assert(StoreV {
            structures: cur.structures,
            components: cur.components,
            properties: cur.properties,
            images: cur.images + rest,
        } =~= cur);
    } else {
        let m = rest[0];
        let d = dirs[0];
        assert(d == image_dir_of(m));
        crate::text::lemma_u32_round_trip(m.structure_id);
        assert(spec_parse_u32(d.name) == Some(m.structure_id));
        assert(d.files.len() == 1);
        assert(d.files[0] == ImageFileV { filename: m.filename, data: m.image });
        assert(image::ModelV {
            structure_id: m.structure_id,
            filename: d.files[0].filename,
            image: d.files[0].data,
        } =~= m);
        assert(!crate::store::contains_image(cur.images, m.structure_id)) by {
            if crate::store::contains_image(cur.images, m.structure_id) {
                let i = choose|i: int|
                    0 <= i < cur.images.len() && (#[trigger] cur.images[i]).structure_id
                        == m.structure_id;
                assert(combined[i].structure_id < combined[cl].structure_id);
            }
        }
        let pr = spec_insert_image(cur, m);
        assert(pr.1 is Ok);
        assert forall|k: int| 0 <= k < cur.images.len() implies (
        #[trigger] cur.images[k]).structure_id < m.structure_id by {
            assert(combined[k].structure_id < combined[cl].structure_id);
        }
        crate::store::lemma_insert_image_sorted_at(cur.images, m, cl);
        assert(pr.0.images =~= cur.images + seq![m]);
        let cur2 = pr.0;
        assert(cur2.images + rest.skip(1) =~= combined);
        lemma_import_images_encoded(rest.skip(1), cur2);
        assert(dirs.skip(1) =~= rest.skip(1).map_values(|im: image::ModelV| image_dir_of(im)));
        assert(StoreV {
            structures: cur2.structures,
            components: cur2.components,
            properties: cur2.properties,
            images: cur2.images + rest.skip(1),
        } =~= StoreV {
            structures: cur.structures,
            components: cur.components,
            properties: cur.properties,
            images: cur.images + rest,
        });
    }
}

/// Importing an exported structures table appends every structure.
proof fn lemma_import_structures_encoded(ss: Seq<structure::ModelV>, cur: StoreV)
    requires
        crate::store::structures_sorted(cur.structures + ss),
        crate::store::names_unique(cur.structures + ss),
        crate::store::smiles_unique(cur.structures + ss),
        (cur.structures + ss).len() <= u32::MAX as nat,
        forall|i: int| 0 <= i < ss.len() ==> structure::row_clean(#[trigger] ss[i]),
    ensures
        spec_import_structures(structures_table_rep(ss), cur) == (
            StoreV {
                structures: cur.structures + ss,
                components: cur.components,
                properties: cur.properties,
                images: cur.images,
            },
            None::<Error>,
        ),
{
    let rows = ss.map_values(|m: structure::ModelV| structure::spec_row(m));
    let all = seq![structure::spec_header()] + rows;
    let rep = structures_table_rep(ss);
    let t = encode_table(all);
    assert(rep[0] == bom_char());
    assert(rep.len() > 0);
    assert(rep.skip(1) =~= t);
    assert(strip_bom(rep) == t);
    assert(all[0] == structure::spec_header());
    assert(all.skip(1) =~= rows);
    assert(t == crate::table::encode_record(all[0]) + encode_table(all.skip(1)));
    crate::table::lemma_encode_record_len(all[0]);
    assert(t.len() > 0);
    crate::table::lemma_parse_record_encoded(structure::spec_header(), encode_table(rows));
    let n0 = crate::table::encode_record(structure::spec_header()).len() as int;
    assert(crate::table::parse_record(t) == Some((structure::spec_header(), n0)));
    assert(t.skip(n0) =~= encode_table(rows));
    lemma_import_structure_rows_encoded(ss, cur);
}

/// Importing an exported properties table appends every property.
proof fn lemma_import_properties_encoded(ps: Seq<property::ModelV>, cur: StoreV)
    requires
        crate::store::properties_sorted(cur.properties + ps),
        forall|i: int| 0 <= i < ps.len() ==> property::row_clean(#[trigger] ps[i]),
    ensures
        spec_import_properties(properties_table_rep(ps), cur) == (
            StoreV {
                structures: cur.structures,
                components: cur.components,
                properties: cur.properties + ps,
                images: cur.images,
            },
            None::<Error>,
        ),
{
    let rows = ps.map_values(|m: property::ModelV| property::spec_row(m));
    let all = seq![property::spec_header()] + rows;
    let rep = properties_table_rep(ps);
    let t = encode_table(all);
    assert(rep[0] == bom_char());
    assert(rep.len() > 0);
    assert(rep.skip(1) =~= t);
    assert(strip_bom(rep) == t);
    assert(all[0] == property::spec_header());
    assert(all.skip(1) =~= rows);
    assert(t == crate::table::encode_record(all[0]) + encode_table(all.skip(1)));
    crate::table::lemma_encode_record_len(all[0]);
    assert(t.len() > 0);
    crate::table::lemma_parse_record_encoded(property::spec_header(), encode_table(rows));
    let n0 = crate::table::encode_record(property::spec_header()).len() as int;
    assert(crate::table::parse_record(t) == Some((property::spec_header(), n0)));
    assert(t.skip(n0) =~= encode_table(rows));
    lemma_import_property_rows_encoded(ps, cur);
}

/// Importing an exported components table appends every edge.
proof fn lemma_import_components_encoded(cs: Seq<component::Model>, cur: StoreV)
    requires
        crate::store::components_unique(cur.components + cs),
    ensures
        spec_import_components(components_table_rep(cs), cur) == (
            StoreV {
                structures: cur.structures,
                components: cur.components + cs,
                properties: cur.properties,
                images: cur.images,
            },
            None::<Error>,
        ),
{
    let rows = cs.map_values(|m: component::Model| component::spec_row(m));
    let all = seq![component::spec_header()] + rows;
    let rep = components_table_rep(cs);
    let t = encode_table(all);
    assert(rep[0] == bom_char());
    assert(rep.len() > 0);
    assert(rep.skip(1) =~= t);
    assert(strip_bom(rep) == t);
    assert(all[0] == component::spec_header());
    assert(all.skip(1) =~= rows);
    assert(t == crate::table::encode_record(all[0]) + encode_table(all.skip(1)));
    crate::table::lemma_encode_record_len(all[0]);
    assert(t.len() > 0);
    crate::table::lemma_parse_record_encoded(component::spec_header(), encode_table(rows));
    let n0 = crate::table::encode_record(component::spec_header()).len() as int;
    assert(crate::table::parse_record(t) == Some((component::spec_header(), n0)));
    assert(t.skip(n0) =~= encode_table(rows));
    lemma_import_component_rows_encoded(cs, cur);
}

/// Law: exporting a store and importing the folder into an empty store
/// reproduces every structure, property, edge and image, field for field,
/// under the same ids. It holds of every well-formed store in which no
/// optional text field is present but empty.
pub proof fn lemma_export_import_round_trip(st: StoreV)
    requires
        inv(st),
        export_clean(st),
    ensures
        spec_import(spec_export(st), empty_store()) == (st, None::<Error>),
{
    let f = spec_export(st);
    let e = empty_store();
    assert(e.structures + st.structures =~= st.structures);
    lemma_import_structures_encoded(st.structures, e);
    let s1 = spec_import_structures(f.structures, e).0;
    assert(s1.properties + st.properties =~= st.properties);
    lemma_import_properties_encoded(st.properties, s1);
    let s2 = spec_import_properties(f.properties, s1).0;
    assert(s2.components + st.components =~= st.components);
    lemma_import_components_encoded(st.components, s2);
    let s3 = spec_import_components(f.components, s2).0;
    assert(s3.images + st.images =~= st.images);
    lemma_import_images_encoded(st.images, s3);
    let s4 = spec_import_images(f.images, s3).0;
    assert(s4 =~= st);
}

} // verus!
