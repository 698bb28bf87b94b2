//! Model inputs.

use crate::binary64::Binary64;
use vstd::prelude::*;

verus! {

#[derive(Debug, PartialEq, Eq)]
pub struct FeatureVector {
    pub values: Vec<Binary64>,
}

impl Clone for FeatureVector {
    fn clone(&self) -> (r: Self)
        ensures
            r.values@ == self.values@,
    {
        let values: Vec<Binary64> = self.values.clone();
        assert(values@ =~= self.values@);
        FeatureVector { values }
    }
}

impl FeatureVector {
    pub fn new(values: Vec<Binary64>) -> (r: Self)
        ensures
            r.values == values,
    {
        FeatureVector { values }
    }
}

} // verus!
