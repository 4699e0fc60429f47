//! Capsule fragments: what a proxy makes of a capsule with one key fragment.

use vstd::prelude::*;
use crate::curve::CurvePoint;

verus! {

/// A re-encrypted fragment of a capsule.
///
/// The fragments of one batch of key fragments share their precursor. A
/// fragment's identifier decides its coordinate on the sharing polynomial.
#[derive(Clone, Copy, Debug, PartialEq, Eq)]
pub struct CapsuleFrag {
    /// The capsule's first point, multiplied by the key fragment.
    pub point_e1: CurvePoint,
    /// The capsule's second point, multiplied by the key fragment.
    pub point_v1: CurvePoint,
    /// The identifier of the key fragment.
    pub kfrag_id: [u8; 32],
    /// The point that the batch of key fragments was made with.
    pub precursor: CurvePoint,
}

impl CapsuleFrag {
    /// A fragment is well formed when its three points are.
    pub open spec fn wf(self) -> bool {
        self.point_e1.wf() && self.point_v1.wf() && self.precursor.wf()
    }
}

} // verus!
