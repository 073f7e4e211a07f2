//! A composition edge: "structure `structure_id` is built from `count` units
//! of structure `component_id`", keyed by the ordered pair of ids; and how
//! one edge is written to and read from a row of the components table.

use vstd::prelude::*;
use vstd::string::StringExecFns;

use crate::text::dec_rep;
use crate::text::lemma_u32_round_trip;
use crate::text::parse_u32;
use crate::text::spec_parse_u32;
use crate::text::u32_to_string;

verus! {

/// One composition edge.
#[derive(Clone, Copy, Debug, PartialEq, Eq, Structural)]
pub struct Model {
    pub structure_id: u32,
    pub component_id: u32,
    pub count: u32,
}

impl View for Model {
    type V = Model;

    open spec fn view(&self) -> Model {
        *self
    }
}

/// The header row of the components table: the field names in declaration
/// order.
pub open spec fn spec_header() -> Seq<Seq<char>> {
    seq!["structure_id"@, "component_id"@, "count"@]
}

/// The fields of one edge row, in declaration order.
pub open spec fn spec_row(v: Model) -> Seq<Seq<char>> {
    seq![
        dec_rep(v.structure_id as nat),
        dec_rep(v.component_id as nat),
        dec_rep(v.count as nat),
    ]
}

/// The edge a components row reads back to, when it has the right shape.
pub open spec fn spec_of_row(row: Seq<Seq<char>>) -> Option<Model> {
    if row.len() != 3 {
        None
    } else {
        match (spec_parse_u32(row[0]), spec_parse_u32(row[1]), spec_parse_u32(row[2])) {
            (Some(structure_id), Some(component_id), Some(count)) => Some(
                Model { structure_id, component_id, count },
            ),
            _ => None,
        }
    }
}

/// Writing an edge and reading the row back returns the same edge.
pub proof fn lemma_row_round_trip(v: Model)
    ensures
        spec_of_row(spec_row(v)) == Some(v),
{
    lemma_u32_round_trip(v.structure_id);
    lemma_u32_round_trip(v.component_id);
    lemma_u32_round_trip(v.count);
    let row = spec_row(v);
    assert(row.len() == 3 && row[0] == dec_rep(v.structure_id as nat) && row[1] == dec_rep(
        v.component_id as nat,
    ) && row[2] == dec_rep(v.count as nat));
}

impl Model {
    /// The header row of the components table.
    pub fn header() -> (r: Vec<String>)
        ensures
            r.deep_view() == spec_header(),
    {
        let mut r: Vec<String> = Vec::new();
        r.push(String::from_str("structure_id"));
        r.push(String::from_str("component_id"));
        r.push(String::from_str("count"));
        proof {
            assert(r.deep_view() =~= spec_header());
        }
        r
    }

    /// This edge's table row.
    pub fn to_row(&self) -> (r: Vec<String>)
        ensures
            r.deep_view() == spec_row(self@),
    {
        let mut r: Vec<String> = Vec::new();
        r.push(u32_to_string(self.structure_id));
        r.push(u32_to_string(self.component_id));
        r.push(u32_to_string(self.count));
        proof {
            assert(r.deep_view() =~= spec_row(self@));
        }
        r
    }

    /// Reads a table row back as an edge.
    pub fn of_row(row: &Vec<String>) -> (r: Option<Model>)
        ensures
            match (r, spec_of_row(row.deep_view())) {
                (Some(m), Some(v)) => m == v,
                (None, None) => true,
                _ => false,
            },
    {
        proof {
            assert forall|k: int| 0 <= k < row@.len() implies #[trigger] row.deep_view()[k]
                == row@[k]@ by {}
        }
        if row.len() != 3 {
            return None;
        }
        let structure_id = match parse_u32(row[0].as_str()) {
            Some(v) => v,
            None => {
                return None;
            },
        };
        let component_id = match parse_u32(row[1].as_str()) {
            Some(v) => v,
            None => {
                return None;
            },
        };
        let count = match parse_u32(row[2].as_str()) {
            Some(v) => v,
            None => {
                return None;
            },
        };
        Some(Model { structure_id, component_id, count })
    }
}

} // verus!
