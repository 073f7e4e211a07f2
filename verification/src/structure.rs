//! The primary chemical-entity record: id, optional unique name, formula,
//! optional unique canonical line notation, and signed charge; and how one
//! such record is written to and read from a row of the structures table.

use vstd::prelude::*;
use vstd::string::StringExecFns;

use crate::text::clone_opt_string;
use crate::text::dec_rep;
use crate::text::dec_rep_i8;
use crate::text::field_to_opt;
use crate::text::i8_to_string;
use crate::text::lemma_i8_round_trip;
use crate::text::lemma_opt_field_round_trip;
use crate::text::lemma_u32_round_trip;
use crate::text::opt_of;
use crate::text::opt_rep;
use crate::text::parse_i8;
use crate::text::parse_u32;
use crate::text::spec_parse_i8;
use crate::text::spec_parse_u32;
use crate::text::u32_to_string;
use crate::text::view_opt;
use crate::text::opt_to_field;

verus! {

/// One structure record.
pub struct Model {
    pub id: u32,
    pub name: Option<String>,
    pub formula: String,
    pub smiles: Option<String>,
    pub charge: i8,
}

/// The mathematical value of a structure record.
#[verifier::ext_equal]
pub ghost struct ModelV {
    pub id: u32,
    pub name: Option<Seq<char>>,
    pub formula: Seq<char>,
    pub smiles: Option<Seq<char>>,
    pub charge: i8,
}

impl View for Model {
    type V = ModelV;

    open spec fn view(&self) -> ModelV {
        ModelV {
            id: self.id,
            name: view_opt(self.name),
            formula: self.formula@,
            smiles: view_opt(self.smiles),
            charge: self.charge,
        }
    }
}

/// The header row of the structures table: the field names in declaration
/// order.
pub open spec fn spec_header() -> Seq<Seq<char>> {
    seq!["id"@, "name"@, "formula"@, "smiles"@, "charge"@]
}

/// The fields of one structure row, in declaration order; absent optional
/// fields are written empty.
pub open spec fn spec_row(v: ModelV) -> Seq<Seq<char>> {
    seq![
        dec_rep(v.id as nat),
        opt_rep(v.name),
        v.formula,
        opt_rep(v.smiles),
        dec_rep_i8(v.charge as int),
    ]
}

/// The record a structure row reads back to, when it has the right shape.
pub open spec fn spec_of_row(row: Seq<Seq<char>>) -> Option<ModelV> {
    if row.len() != 5 {
        None
    } else {
        match (spec_parse_u32(row[0]), spec_parse_i8(row[4])) {
            (Some(id), Some(charge)) => Some(
                ModelV {
                    id,
                    name: opt_of(row[1]),
                    formula: row[2],
                    smiles: opt_of(row[3]),
                    charge,
                },
            ),
            _ => None,
        }
    }
}

/// A structure row reads back to the record it was written from, as long as
/// neither optional field is present but empty.
pub open spec fn row_clean(v: ModelV) -> bool {
    v.name != Some(Seq::<char>::empty()) && v.smiles != Some(Seq::<char>::empty())
}

/// Writing a clean structure record and reading the row back returns the
/// same record.
pub proof fn lemma_row_round_trip(v: ModelV)
    requires
        row_clean(v),
    ensures
        spec_of_row(spec_row(v)) == Some(v),
{
    lemma_u32_round_trip(v.id);
    lemma_i8_round_trip(v.charge);
    lemma_opt_field_round_trip(v.name);
    lemma_opt_field_round_trip(v.smiles);
    let row = spec_row(v);
    assert(row.len() == 5 && row[0] == dec_rep(v.id as nat) && row[1] == opt_rep(v.name) && row[2]
        == v.formula && row[3] == opt_rep(v.smiles) && row[4] == dec_rep_i8(v.charge as int));
    assert(spec_of_row(spec_row(v)) == Some(v)) by {
        let w = spec_of_row(spec_row(v)).unwrap();
        assert(w =~= v);
    }
}

impl Model {
    /// A copy holding the same value.
    pub fn duplicate(&self) -> (r: Model)
        ensures
            r@ == self@,
    {
        Model {
            id: self.id,
            name: clone_opt_string(&self.name),
            formula: self.formula.clone(),
            smiles: clone_opt_string(&self.smiles),
            charge: self.charge,
        }
    }

    /// The header row of the structures table.
    pub fn header() -> (r: Vec<String>)
        ensures
            r.deep_view() == spec_header(),
    {
        let mut r: Vec<String> = Vec::new();
        r.push(String::from_str("id"));
        r.push(String::from_str("name"));
        r.push(String::from_str("formula"));
        r.push(String::from_str("smiles"));
        r.push(String::from_str("charge"));
        proof {
            assert(r.deep_view() =~= spec_header());
        }
        r
    }

    /// This record's table row.
    pub fn to_row(&self) -> (r: Vec<String>)
        ensures
            r.deep_view() == spec_row(self@),
    {
        let mut r: Vec<String> = Vec::new();
        r.push(u32_to_string(self.id));
        r.push(opt_to_field(&self.name));
        r.push(self.formula.clone());
        r.push(opt_to_field(&self.smiles));
        r.push(i8_to_string(self.charge));
        proof {
            assert(r.deep_view() =~= spec_row(self@));
        }
        r
    }

    /// Reads a table row back as a structure record.
    pub fn of_row(row: &Vec<String>) -> (r: Option<Model>)
        ensures
            match (r, spec_of_row(row.deep_view())) {
                (Some(m), Some(v)) => m@ == v,
                (None, None) => true,
                _ => false,
            },
    {
        proof {
            assert forall|k: int| 0 <= k < row@.len() implies #[trigger] row.deep_view()[k]
                == row@[k]@ by {}
        }
        if row.len() != 5 {
            return None;
        }
        let id = match parse_u32(row[0].as_str()) {
            Some(id) => id,
            None => {
                return None;
            },
        };
        let charge = match parse_i8(row[4].as_str()) {
            Some(c) => c,
            None => {
                return None;
            },
        };
        let m = Model {
            id,
            name: field_to_opt(&row[1]),
            formula: row[2].clone(),
            smiles: field_to_opt(&row[3]),
            charge,
        };
        proof {
            assert(m@ =~= spec_of_row(row.deep_view()).unwrap());
        }
        Some(m)
    }
}

} // verus!
