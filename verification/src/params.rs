//! The fixed parameters that capsules are made under.

use vstd::prelude::*;
use crate::curve::{CurvePoint, CurveScalar, multiple_encoding, generator_times};

verus! {

/// The parameters of the scheme: the generator that every key and capsule is
/// counted from. Two capsules compare equal only under equal parameters.
#[derive(Clone, Copy, Debug, PartialEq, Eq)]
pub struct Parameters {
    generator: CurvePoint,
}

impl Parameters {
    /// The generator that the parameters hold.
    pub closed spec fn generator(self) -> CurvePoint {
        self.generator
    }

    /// Parameters hold the group's generator and nothing else.
    #[verifier::type_invariant]
    pub open spec fn wf(self) -> bool {
        self.generator().wf() && self.generator().encoding() == multiple_encoding(1)
    }

    /// The parameters of the scheme.
    pub fn new() -> (r: Parameters)
        ensures
            r.wf(),
    {
        Parameters { generator: generator_times(&CurveScalar::one()) }
    }

    /// There is one well-formed value of the parameters.
    pub proof fn lemma_unique(self, other: Parameters)
        requires
            self.wf(),
            other.wf(),
        ensures
            self == other,
    {
        self.generator.lemma_encoding_decides(other.generator);
    }
}

} // verus!
