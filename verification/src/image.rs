//! The optional image attached to a structure: at most one per structure,
//! stored with its file name (extension included) and raw bytes. Images are
//! transferred as files in the image tree, not as table rows.

use vstd::prelude::*;

verus! {

/// One image record.
pub struct Model {
    pub structure_id: u32,
    pub filename: String,
    pub image: Vec<u8>,
}

/// The mathematical value of an image record.
#[verifier::ext_equal]
pub ghost struct ModelV {
    pub structure_id: u32,
    pub filename: Seq<char>,
    pub image: Seq<u8>,
}

impl View for Model {
    type V = ModelV;

    open spec fn view(&self) -> ModelV {
        ModelV { structure_id: self.structure_id, filename: self.filename@, image: self.image@ }
    }
}

/// Clones a byte vector, preserving its contents.
pub fn clone_bytes(v: &Vec<u8>) -> (r: Vec<u8>)
    ensures
        r@ == v@,
{
    let r = v.clone();
    proof {
        assert(r@ =~= v@);
    }
    r
}

impl Model {
    /// A copy holding the same value.
    pub fn duplicate(&self) -> (r: Model)
        ensures
            r@ == self@,
    {
        Model {
            structure_id: self.structure_id,
            filename: self.filename.clone(),
            image: clone_bytes(&self.image),
        }
    }
}

} // verus!
