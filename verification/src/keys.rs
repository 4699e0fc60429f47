//! Secret and public keys over secp256k1.

use vstd::prelude::*;
use crate::curve::{
    CurvePoint, CurveScalar, multiple_encoding, generator_times, scalar_random_nonzero,
};

verus! {

/// A secret key: a scalar other than zero.
#[derive(Clone, Copy, Debug, PartialEq, Eq)]
pub struct SecretKey {
    scalar: CurveScalar,
}

/// A public key: a point of the group.
#[derive(Clone, Copy, Debug, PartialEq, Eq)]
pub struct PublicKey {
    point: CurvePoint,
}

impl View for SecretKey {
    type V = nat;

    /// The secret scalar as a number.
    open spec fn view(&self) -> nat {
        self.secret_scalar()@
    }
}

impl View for PublicKey {
    type V = nat;

    /// The multiple of the generator that the key's point is.
    open spec fn view(&self) -> nat {
        self.point()@
    }
}

/// The generator, multiplied by `scalar`.
pub fn generator_multiple(scalar: &CurveScalar) -> (r: CurvePoint)
    ensures
        r.wf(),
        r@ == scalar@,
        r.encoding() == multiple_encoding(scalar@),
{
    proof {
        use_type_invariant(scalar);
    }
    let r = generator_times(scalar);
    proof {
        r.lemma_index();
    }
    r
}

impl SecretKey {
    /// The scalar that the key holds.
    pub closed spec fn secret_scalar(self) -> CurveScalar {
        self.scalar
    }

    /// A secret key holds a canonical scalar other than zero.
    #[verifier::type_invariant]
    pub open spec fn wf(self) -> bool {
        self.secret_scalar().wf() && self@ != 0
    }

    /// Draws a fresh secret key from the operating system's random generator.
    pub fn random() -> (r: SecretKey)
        ensures
            r.wf(),
    {
        SecretKey { scalar: scalar_random_nonzero() }
    }

    /// Makes a secret key of a scalar; `None` where the scalar is zero.
    pub fn from_scalar(scalar: CurveScalar) -> (r: Option<SecretKey>)
        ensures
            r is Some <==> scalar@ != 0,
            r is Some ==> r->0.wf() && r->0.secret_scalar() == scalar,
    {
        proof {
            use_type_invariant(&scalar);
        }
        if scalar.is_zero() {
            None
        } else {
            Some(SecretKey { scalar })
        }
    }

    /// The scalar that the key holds.
    pub fn to_secret_scalar(&self) -> (r: CurveScalar)
        ensures
            r.wf(),
            r == self.secret_scalar(),
    {
        proof {
            use_type_invariant(self);
        }
        self.scalar
    }

    /// The public key that belongs to this secret key: the generator
    /// multiplied by the secret scalar.
    pub fn public_key(&self) -> (r: PublicKey)
        ensures
            r.wf(),
            r@ == self@,
    {
        PublicKey { point: generator_multiple(&self.scalar) }
    }
}

impl PublicKey {
    /// The point that the key holds.
    pub closed spec fn point(self) -> CurvePoint {
        self.point
    }

    /// A public key holds a well-formed point.
    #[verifier::type_invariant]
    pub open spec fn wf(self) -> bool {
        self.point().wf()
    }

    /// Makes a public key of a point.
    pub fn from_point(point: CurvePoint) -> (r: PublicKey)
        ensures
            r.wf(),
            r.point() == point,
    {
        proof {
            use_type_invariant(&point);
        }
        PublicKey { point }
    }

    /// The point that the key holds.
    pub fn to_point(&self) -> (r: CurvePoint)
        ensures
            r.wf(),
            r == self.point(),
    {
        proof {
            use_type_invariant(self);
        }
        self.point
    }
}

} // verus!
