//! The small counterpart of a bitmap: a list of values in ascending order.
use vstd::prelude::*;

use crate::model;

verus! {

/// The greatest number of members that an array store is used for; a bitmap has more.
pub const ARRAY_LIMIT: u64 = 4096;

/// A set of `u16` values, listed in ascending order.
pub struct ArrayStore {
    vec: Vec<u16>,
}

impl View for ArrayStore {
    type V = Seq<u16>;

    closed spec fn view(&self) -> Seq<u16> {
        self.vec@
    }
}

impl ArrayStore {
    /// The values are listed in ascending order, none of them twice.
    pub open spec fn wf(&self) -> bool {
        model::is_ascending(self@)
    }

    /// A store of the values of `vec`, which are in ascending order.
    pub fn from_vec_unchecked(vec: Vec<u16>) -> (r: ArrayStore)
        requires
            model::is_ascending(vec@),
        ensures
            r.wf(),
            r@ == vec@,
    {
        ArrayStore { vec }
    }

    /// The values in ascending order.
    pub fn as_slice(&self) -> (r: &[u16])
        ensures
            r@ == self@,
    {
        self.vec.as_slice()
    }
}

} // verus!
