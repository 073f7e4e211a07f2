//! The optional bundle of physical and chemical measurements attached to a
//! structure: at most one per structure, every measurement optional free
//! text; and how one such record is written to and read from a row of the
//! properties table.

use vstd::prelude::*;
use vstd::string::StringExecFns;

use crate::text::clone_opt_string;
use crate::text::dec_rep;
use crate::text::field_to_opt;
use crate::text::lemma_opt_field_round_trip;
use crate::text::lemma_u32_round_trip;
use crate::text::opt_of;
use crate::text::opt_rep;
use crate::text::opt_to_field;
use crate::text::parse_u32;
use crate::text::spec_parse_u32;
use crate::text::u32_to_string;
use crate::text::view_opt;

verus! {

/// One property record.
pub struct Model {
    pub structure_id: u32,
    pub decomp_temp: Option<String>,
    pub density: Option<String>,
    pub diss_temp: Option<String>,
    pub formation_enthalpy: Option<String>,
    pub impact_sensitive: Option<String>,
    pub friction_sensitivity: Option<String>,
    pub det_velocity: Option<String>,
    pub det_pressure: Option<String>,
    pub n_content: Option<String>,
    pub o_content: Option<String>,
    pub no_content: Option<String>,
    pub references: Option<String>,
    pub remarks: Option<String>,
}

/// The mathematical value of a property record.
#[verifier::ext_equal]
pub ghost struct ModelV {
    pub structure_id: u32,
    pub decomp_temp: Option<Seq<char>>,
    pub density: Option<Seq<char>>,
    pub diss_temp: Option<Seq<char>>,
    pub formation_enthalpy: Option<Seq<char>>,
    pub impact_sensitive: Option<Seq<char>>,
    pub friction_sensitivity: Option<Seq<char>>,
    pub det_velocity: Option<Seq<char>>,
    pub det_pressure: Option<Seq<char>>,
    pub n_content: Option<Seq<char>>,
    pub o_content: Option<Seq<char>>,
    pub no_content: Option<Seq<char>>,
    pub references: Option<Seq<char>>,
    pub remarks: Option<Seq<char>>,
}

impl View for Model {
    type V = ModelV;

    open spec fn view(&self) -> ModelV {
        ModelV {
            structure_id: self.structure_id,
            decomp_temp: view_opt(self.decomp_temp),
            density: view_opt(self.density),
            diss_temp: view_opt(self.diss_temp),
            formation_enthalpy: view_opt(self.formation_enthalpy),
            impact_sensitive: view_opt(self.impact_sensitive),
            friction_sensitivity: view_opt(self.friction_sensitivity),
            det_velocity: view_opt(self.det_velocity),
            det_pressure: view_opt(self.det_pressure),
            n_content: view_opt(self.n_content),
            o_content: view_opt(self.o_content),
            no_content: view_opt(self.no_content),
            references: view_opt(self.references),
            remarks: view_opt(self.remarks),
        }
    }
}

/// The header row of the properties table: the field names in declaration
/// order.
pub open spec fn spec_header() -> Seq<Seq<char>> {
    seq![
        "structure_id"@,
        "decomp_temp"@,
        "density"@,
        "diss_temp"@,
        "formation_enthalpy"@,
        "impact_sensitive"@,
        "friction_sensitivity"@,
        "det_velocity"@,
        "det_pressure"@,
        "n_content"@,
        "o_content"@,
        "no_content"@,
        "references"@,
        "remarks"@,
    ]
}

/// The fields of one property row, in declaration order; absent optional
/// fields are written empty.
pub open spec fn spec_row(v: ModelV) -> Seq<Seq<char>> {
    seq![
        dec_rep(v.structure_id as nat),
        opt_rep(v.decomp_temp),
        opt_rep(v.density),
        opt_rep(v.diss_temp),
        opt_rep(v.formation_enthalpy),
        opt_rep(v.impact_sensitive),
        opt_rep(v.friction_sensitivity),
        opt_rep(v.det_velocity),
        opt_rep(v.det_pressure),
        opt_rep(v.n_content),
        opt_rep(v.o_content),
        opt_rep(v.no_content),
        opt_rep(v.references),
        opt_rep(v.remarks),
    ]
}

/// The record a property row reads back to, when it has the right shape.
pub open spec fn spec_of_row(row: Seq<Seq<char>>) -> Option<ModelV> {
    if row.len() != 14 {
        None
    } else {
        match spec_parse_u32(row[0]) {
            Some(structure_id) => Some(
                ModelV {
                    structure_id,
                    decomp_temp: opt_of(row[1]),
                    density: opt_of(row[2]),
                    diss_temp: opt_of(row[3]),
                    formation_enthalpy: opt_of(row[4]),
                    impact_sensitive: opt_of(row[5]),
                    friction_sensitivity: opt_of(row[6]),
                    det_velocity: opt_of(row[7]),
                    det_pressure: opt_of(row[8]),
                    n_content: opt_of(row[9]),
                    o_content: opt_of(row[10]),
                    no_content: opt_of(row[11]),
                    references: opt_of(row[12]),
                    remarks: opt_of(row[13]),
                },
            ),
            None => None,
        }
    }
}

/// A property row reads back to the record it was written from, as long as
/// no optional field is present but empty.
pub open spec fn row_clean(v: ModelV) -> bool {
    &&& v.decomp_temp != Some(Seq::<char>::empty())
    &&& v.density != Some(Seq::<char>::empty())
    &&& v.diss_temp != Some(Seq::<char>::empty())
    &&& v.formation_enthalpy != Some(Seq::<char>::empty())
    &&& v.impact_sensitive != Some(Seq::<char>::empty())
    &&& v.friction_sensitivity != Some(Seq::<char>::empty())
    &&& v.det_velocity != Some(Seq::<char>::empty())
    &&& v.det_pressure != Some(Seq::<char>::empty())
    &&& v.n_content != Some(Seq::<char>::empty())
    &&& v.o_content != Some(Seq::<char>::empty())
    &&& v.no_content != Some(Seq::<char>::empty())
    &&& v.references != Some(Seq::<char>::empty())
    &&& v.remarks != Some(Seq::<char>::empty())
}

/// Writing a clean property record and reading the row back returns the same
/// record.
pub proof fn lemma_row_round_trip(v: ModelV)
    requires
        row_clean(v),
    ensures
        spec_of_row(spec_row(v)) == Some(v),
{
    lemma_u32_round_trip(v.structure_id);
    lemma_opt_field_round_trip(v.decomp_temp);
    lemma_opt_field_round_trip(v.density);
    lemma_opt_field_round_trip(v.diss_temp);
    lemma_opt_field_round_trip(v.formation_enthalpy);
    lemma_opt_field_round_trip(v.impact_sensitive);
    lemma_opt_field_round_trip(v.friction_sensitivity);
    lemma_opt_field_round_trip(v.det_velocity);
    lemma_opt_field_round_trip(v.det_pressure);
    lemma_opt_field_round_trip(v.n_content);
    lemma_opt_field_round_trip(v.o_content);
    lemma_opt_field_round_trip(v.no_content);
    lemma_opt_field_round_trip(v.references);
    lemma_opt_field_round_trip(v.remarks);
    let row = spec_row(v);
    assert(row.len() == 14 && row[0] == dec_rep(v.structure_id as nat) && row[1] == opt_rep(
        v.decomp_temp,
    ) && row[2] == opt_rep(v.density) && row[3] == opt_rep(v.diss_temp) && row[4] == opt_rep(
        v.formation_enthalpy,
    ) && row[5] == opt_rep(v.impact_sensitive) && row[6] == opt_rep(v.friction_sensitivity)
        && row[7] == opt_rep(v.det_velocity) && row[8] == opt_rep(v.det_pressure) && row[9]
        == opt_rep(v.n_content) && row[10] == opt_rep(v.o_content) && row[11] == opt_rep(
        v.no_content,
    ) && row[12] == opt_rep(v.references) && row[13] == opt_rep(v.remarks));
    assert(spec_of_row(spec_row(v)) == Some(v)) by {
        let w = spec_of_row(spec_row(v)).unwrap();
        assert(w =~= v);
    }
}

impl Model {
    /// A copy holding the same value.
    pub fn duplicate(&self) -> (r: Model)
        ensures
            r@ == self@,
    {
        Model {
            structure_id: self.structure_id,
            decomp_temp: clone_opt_string(&self.decomp_temp),
            density: clone_opt_string(&self.density),
            diss_temp: clone_opt_string(&self.diss_temp),
            formation_enthalpy: clone_opt_string(&self.formation_enthalpy),
            impact_sensitive: clone_opt_string(&self.impact_sensitive),
            friction_sensitivity: clone_opt_string(&self.friction_sensitivity),
            det_velocity: clone_opt_string(&self.det_velocity),
            det_pressure: clone_opt_string(&self.det_pressure),
            n_content: clone_opt_string(&self.n_content),
            o_content: clone_opt_string(&self.o_content),
            no_content: clone_opt_string(&self.no_content),
            references: clone_opt_string(&self.references),
            remarks: clone_opt_string(&self.remarks),
        }
    }

    /// An empty property bundle for a structure: every measurement absent.
    pub fn empty(structure_id: u32) -> (r: Model)
        ensures
            r@ == (ModelV {
                structure_id,
                decomp_temp: None,
                density: None,
                diss_temp: None,
                formation_enthalpy: None,
                impact_sensitive: None,
                friction_sensitivity: None,
                det_velocity: None,
                det_pressure: None,
                n_content: None,
                o_content: None,
                no_content: None,
                references: None,
                remarks: None,
            }),
    {
        Model {
            structure_id,
            decomp_temp: None,
            density: None,
            diss_temp: None,
            formation_enthalpy: None,
            impact_sensitive: None,
            friction_sensitivity: None,
            det_velocity: None,
            det_pressure: None,
            n_content: None,
            o_content: None,
            no_content: None,
            references: None,
            remarks: None,
        }
    }

    /// The header row of the properties table.
    pub fn header() -> (r: Vec<String>)
        ensures
            r.deep_view() == spec_header(),
    {
        let mut r: Vec<String> = Vec::new();
        r.push(String::from_str("structure_id"));
        r.push(String::from_str("decomp_temp"));
        r.push(String::from_str("density"));
        r.push(String::from_str("diss_temp"));
        r.push(String::from_str("formation_enthalpy"));
        r.push(String::from_str("impact_sensitive"));
        r.push(String::from_str("friction_sensitivity"));
        r.push(String::from_str("det_velocity"));
        r.push(String::from_str("det_pressure"));
        r.push(String::from_str("n_content"));
        r.push(String::from_str("o_content"));
        r.push(String::from_str("no_content"));
        r.push(String::from_str("references"));
        r.push(String::from_str("remarks"));
        proof {
            assert(r.deep_view() =~= spec_header());
        }
        r
    }

    /// This record's table row.
    pub fn to_row(&self) -> (r: Vec<String>)
        ensures
            r.deep_view() == spec_row(self@),
    {
        let mut r: Vec<String> = Vec::new();
        r.push(u32_to_string(self.structure_id));
        r.push(opt_to_field(&self.decomp_temp));
        r.push(opt_to_field(&self.density));
        r.push(opt_to_field(&self.diss_temp));
        r.push(opt_to_field(&self.formation_enthalpy));
        r.push(opt_to_field(&self.impact_sensitive));
        r.push(opt_to_field(&self.friction_sensitivity));
        r.push(opt_to_field(&self.det_velocity));
        r.push(opt_to_field(&self.det_pressure));
        r.push(opt_to_field(&self.n_content));
        r.push(opt_to_field(&self.o_content));
        r.push(opt_to_field(&self.no_content));
        r.push(opt_to_field(&self.references));
        r.push(opt_to_field(&self.remarks));
        proof {
            assert(r.deep_view() =~= spec_row(self@));
        }
        r
    }

    /// Reads a table row back as a property record.
    pub fn of_row(row: &Vec<String>) -> (r: Option<Model>)
        ensures
            match (r, spec_of_row(row.deep_view())) {
                (Some(m), Some(v)) => m@ == v,
                (None, None) => true,
                _ => false,
            },
    {
        proof {
            assert forall|k: int| 0 <= k < row@.len() implies #[trigger] row.deep_view()[k]
                == row@[k]@ by {}
        }
        if row.len() != 14 {
            return None;
        }
        let structure_id = match parse_u32(row[0].as_str()) {
            Some(v) => v,
            None => {
                return None;
            },
        };
        let m = Model {
            structure_id,
            decomp_temp: field_to_opt(&row[1]),
            density: field_to_opt(&row[2]),
            diss_temp: field_to_opt(&row[3]),
            formation_enthalpy: field_to_opt(&row[4]),
            impact_sensitive: field_to_opt(&row[5]),
            friction_sensitivity: field_to_opt(&row[6]),
            det_velocity: field_to_opt(&row[7]),
            det_pressure: field_to_opt(&row[8]),
            n_content: field_to_opt(&row[9]),
            o_content: field_to_opt(&row[10]),
            no_content: field_to_opt(&row[11]),
            references: field_to_opt(&row[12]),
            remarks: field_to_opt(&row[13]),
        };
        proof {
            assert(m@ =~= spec_of_row(row.deep_view()).unwrap());
        }
        Some(m)
    }
}

} // verus!
