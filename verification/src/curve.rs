//! Scalars and points of secp256k1.
//!
//! Both are held by their canonical byte encodings. The arithmetic itself is
//! done by the `k256` crate; each call into it stands in a small function
//! marked as trusted, whose contract says what `k256` computes and is not
//! proved here.
//!
//! For scalars the contracts are arithmetic modulo the group order. For points
//! they rest on one name, `multiple_encoding(k)`: the encoding of the `k`-fold
//! multiple of the generator. The group is cyclic of prime order, so every
//! point is such a multiple for exactly one `k` below the order; that `k` is
//! the point's view. Adding points adds their views, and multiplying a point
//! by a scalar multiplies its view, both modulo the order.

use vstd::prelude::*;
use k256::elliptic_curve::group::GroupEncoding;
use k256::elliptic_curve::ops::{MulByGenerator, Reduce};
use k256::elliptic_curve::PrimeField;
use k256::{ProjectivePoint, Scalar};
use crate::field::{be_value, group_order, field_add, field_sub, field_mul, is_inverse_of};

verus! {

/// An element of the scalar field, held as its 32-byte big-endian encoding.
#[derive(Clone, Copy, Debug, PartialEq, Eq)]
pub struct CurveScalar {
    bytes: [u8; 32],
}

impl View for CurveScalar {
    type V = nat;

    /// The number that the scalar stands for.
    open spec fn view(&self) -> nat {
        be_value(self.encoding())
    }
}

impl CurveScalar {
    /// The bytes that hold the scalar.
    pub closed spec fn encoding(self) -> Seq<u8> {
        self.bytes@
    }

    /// A scalar is well formed when its encoding is canonical: below the group order.
    #[verifier::type_invariant]
    pub open spec fn wf(self) -> bool {
        &&& self.encoding().len() == 32
        &&& self@ < group_order()
    }

    /// Two scalars with the same encoding are the same value.
    pub proof fn lemma_encoding_decides(self, other: CurveScalar)
        ensures
            self.encoding() == other.encoding() ==> self == other,
    {
        if self.encoding() == other.encoding() {
            assert(self.bytes =~= other.bytes);
        }
    }

    /// Decodes a scalar; `None` where the bytes do not denote a number below the group order.
    pub fn from_bytes(bytes: &[u8; 32]) -> (r: Option<CurveScalar>)
        ensures
            r is Some <==> be_value(bytes@) < group_order(),
            r is Some ==> r->0.wf() && r->0.encoding() == bytes@,
    {
        if scalar_is_canonical(bytes) {
            Some(CurveScalar { bytes: *bytes })
        } else {
            None
        }
    }

    /// The canonical encoding of the scalar.
    pub fn to_bytes(&self) -> (r: [u8; 32])
        ensures
            r@ == self.encoding(),
    {
        self.bytes
    }

    /// Whether the scalar is zero. Every byte is looked at, whatever the
    /// bytes before it hold.
    pub fn is_zero(&self) -> (r: bool)
        ensures
            r == (self@ == 0),
    {
        let mut zero = true;
        let mut i: usize = 0;
        while i < 32
            invariant
                i <= 32,
                self.bytes@.len() == 32,
                zero ==> forall|j: int| 0 <= j < i ==> self.bytes@[j] == 0,
                !zero ==> be_value(self.bytes@) != 0,
            decreases 32 - i,
        {
            if self.bytes[i] != 0 {
                proof {
                    lemma_nonzero_byte(self.bytes@, i as int);
                }
                zero = false;
            }
            i += 1;
        }
        proof {
            if zero {
                lemma_zero_bytes(self.bytes@);
            }
        }
        zero
    }

    /// The scalar one.
    pub fn one() -> (r: CurveScalar)
        ensures
            r.wf(),
            r@ == 1,
    {
        let mut bytes = [0u8; 32];
        bytes[31] = 1;
        proof {
            let zeros = bytes@.drop_last();
            assert forall|i: int| 0 <= i < zeros.len() implies zeros[i] == 0 by {}
            lemma_zero_bytes(zeros);
        }
        CurveScalar { bytes }
    }
}

/// A byte string with a byte other than zero denotes a number other than zero.
proof fn lemma_nonzero_byte(bytes: Seq<u8>, i: int)
    requires
        0 <= i < bytes.len(),
        bytes[i] != 0,
    ensures
        be_value(bytes) != 0,
    decreases bytes.len(),
{
    if i < bytes.len() - 1 {
        lemma_nonzero_byte(bytes.drop_last(), i);
    }
}

/// A byte string of zeros denotes zero.
proof fn lemma_zero_bytes(bytes: Seq<u8>)
    requires
        forall|i: int| 0 <= i < bytes.len() ==> bytes[i] == 0,
    ensures
        be_value(bytes) == 0,
    decreases bytes.len(),
{
    if bytes.len() > 0 {
        lemma_zero_bytes(bytes.drop_last());
    }
}

/// Trusted: `k256::Scalar::from_repr`, which accepts exactly the encodings of
/// numbers below the group order.
#[verifier::external_body]
fn scalar_is_canonical(bytes: &[u8; 32]) -> (r: bool)
    ensures
        r == (be_value(bytes@) < group_order()),
{
    bool::from(Scalar::from_repr((*bytes).into()).is_some())
}

/// Trusted: `k256::Scalar::add`, addition modulo the group order.
#[verifier::external_body]
pub(crate) fn scalar_sum(a: &CurveScalar, b: &CurveScalar) -> (r: CurveScalar)
    requires
        a.wf(),
        b.wf(),
    ensures
        r.wf(),
        r@ == field_add(a@, b@),
{
    let x = Scalar::from_repr(a.bytes.into()).unwrap();
    let y = Scalar::from_repr(b.bytes.into()).unwrap();
    CurveScalar { bytes: x.add(&y).to_bytes().into() }
}

/// Trusted: `k256::Scalar::sub`, subtraction modulo the group order.
#[verifier::external_body]
pub(crate) fn scalar_difference(a: &CurveScalar, b: &CurveScalar) -> (r: CurveScalar)
    requires
        a.wf(),
        b.wf(),
    ensures
        r.wf(),
        r@ == field_sub(a@, b@),
{
    let x = Scalar::from_repr(a.bytes.into()).unwrap();
    let y = Scalar::from_repr(b.bytes.into()).unwrap();
    CurveScalar { bytes: x.sub(&y).to_bytes().into() }
}

/// Trusted: `k256::Scalar::mul`, multiplication modulo the group order.
#[verifier::external_body]
pub(crate) fn scalar_product(a: &CurveScalar, b: &CurveScalar) -> (r: CurveScalar)
    requires
        a.wf(),
        b.wf(),
    ensures
        r.wf(),
        r@ == field_mul(a@, b@),
{
    let x = Scalar::from_repr(a.bytes.into()).unwrap();
    let y = Scalar::from_repr(b.bytes.into()).unwrap();
    CurveScalar { bytes: x.mul(&y).to_bytes().into() }
}

/// Trusted: `k256::Scalar::invert`, which signals zero by an empty result and
/// otherwise gives the scalar whose product with the argument is one.
#[verifier::external_body]
pub(crate) fn scalar_inverse(a: &CurveScalar) -> (r: Option<CurveScalar>)
    requires
        a.wf(),
    ensures
        r is None <==> a@ == 0,
        r is Some ==> r->0.wf() && is_inverse_of(r->0@, a@),
{
    let x = Scalar::from_repr(a.bytes.into()).unwrap();
    let inverse: Option<Scalar> = x.invert().into();
    inverse.map(|y| CurveScalar { bytes: y.to_bytes().into() })
}

/// Trusted: `k256::NonZeroScalar::random` on the operating system's generator.
/// Nothing is claimed of the outcome but that it is a scalar other than zero.
#[verifier::external_body]
pub(crate) fn scalar_random_nonzero() -> (r: CurveScalar)
    ensures
        r.wf(),
        r@ != 0,
{
    let x = k256::NonZeroScalar::random(&mut rand_core::OsRng);
    CurveScalar { bytes: x.to_bytes().into() }
}

/// Trusted: `k256::Scalar::reduce_bytes` for 32 bytes, which reads them big-endian
/// and reduces the number modulo the group order.
#[verifier::external_body]
pub(crate) fn scalar_from_digest(digest: &[u8; 32]) -> (r: CurveScalar)
    ensures
        r.wf(),
        r@ == be_value(digest@) % group_order(),
{
    let x = <Scalar as Reduce<k256::U256>>::reduce_bytes(&(*digest).into());
    CurveScalar { bytes: x.to_bytes().into() }
}

/// The encoding of the `k`-fold multiple of the group's generator, as
/// `k256::ProjectivePoint` gives it: 33 bytes, compressed, all zero for the
/// identity.
pub uninterp spec fn multiple_encoding(k: nat) -> Seq<u8>;

/// Whether `encoding` is that of the `k`-fold multiple of the generator.
pub open spec fn is_index_of(k: nat, encoding: Seq<u8>) -> bool {
    k < group_order() && multiple_encoding(k) == encoding
}

/// The multiple of the generator that `encoding` stands for.
pub open spec fn point_index(encoding: Seq<u8>) -> nat {
    choose|k: nat| is_index_of(k, encoding)
}

/// Whether `encoding` is the encoding of a group element. The group has prime
/// order and every element is a multiple of the generator, by exactly one
/// number below the order.
pub open spec fn is_point(encoding: Seq<u8>) -> bool {
    &&& encoding.len() == 33
    &&& is_index_of(point_index(encoding), encoding)
    &&& forall|k: nat| #[trigger] is_index_of(k, encoding) ==> k == point_index(encoding)
}

/// An element of the group, held as its 33-byte compressed encoding.
#[derive(Clone, Copy, Debug, PartialEq, Eq)]
pub struct CurvePoint {
    bytes: [u8; 33],
}

impl View for CurvePoint {
    type V = nat;

    /// The multiple of the generator that the point is.
    open spec fn view(&self) -> nat {
        point_index(self.encoding())
    }
}

impl CurvePoint {
    /// The bytes that hold the point.
    pub closed spec fn encoding(self) -> Seq<u8> {
        self.bytes@
    }

    /// A point is well formed when its bytes encode a group element.
    #[verifier::type_invariant]
    pub open spec fn wf(self) -> bool {
        is_point(self.encoding())
    }

    /// Two well-formed points with the same encoding are the same value.
    pub proof fn lemma_encoding_decides(self, other: CurvePoint)
        ensures
            self.encoding() == other.encoding() ==> self == other,
    {
        if self.encoding() == other.encoding() {
            assert(self.bytes =~= other.bytes);
        }
    }

    /// Well-formed points are equal exactly when they are the same multiple of
    /// the generator.
    pub proof fn lemma_index_decides(self, other: CurvePoint)
        requires
            self.wf(),
            other.wf(),
        ensures
            self@ == other@ <==> self == other,
    {
        self.lemma_encoding_decides(other);
    }

    /// A well-formed point is the multiple of the generator that its view says,
    /// and no other.
    pub proof fn lemma_index(self)
        requires
            self.wf(),
        ensures
            self@ < group_order(),
            self.encoding() == multiple_encoding(self@),
            forall|k: nat|
                k < group_order() && multiple_encoding(k) == self.encoding() ==> k == self@,
    {
        assert forall|k: nat|
            k < group_order() && multiple_encoding(k) == self.encoding() implies k == self@ by {
            assert(is_index_of(k, self.encoding()));
        }
    }

    /// Decodes a point; `None` where the bytes are not the canonical encoding
    /// of a group element.
    pub fn from_bytes(bytes: &[u8; 33]) -> (r: Option<CurvePoint>)
        ensures
            r is Some <==> is_point(bytes@),
            r is Some ==> r->0.wf() && r->0.encoding() == bytes@,
    {
        match point_canonical(bytes) {
            Some(canonical) => {
                if same_bytes(&canonical, bytes) {
                    Some(CurvePoint { bytes: *bytes })
                } else {
                    None
                }
            },
            None => None,
        }
    }

    /// The canonical encoding of the point.
    pub fn to_bytes(&self) -> (r: [u8; 33])
        ensures
            r@ == self.encoding(),
    {
        self.bytes
    }

    /// Whether two points are the same group element.
    pub fn equals(&self, other: &CurvePoint) -> (r: bool)
        ensures
            r == (self@ == other@),
            r == (*self == *other),
    {
        proof {
            use_type_invariant(self);
            use_type_invariant(other);
            self.lemma_index_decides(*other);
            self.lemma_encoding_decides(*other);
        }
        same_bytes(&self.bytes, &other.bytes)
    }
}

/// Compares two encodings byte by byte. Every byte is looked at, whatever the
/// bytes before it hold.
fn same_bytes(a: &[u8; 33], b: &[u8; 33]) -> (r: bool)
    ensures
        r == (a@ == b@),
{
    let mut same = true;
    let mut i: usize = 0;
    while i < 33
        invariant
            i <= 33,
            same ==> forall|j: int| 0 <= j < i ==> a@[j] == b@[j],
            !same ==> a@ != b@,
        decreases 33 - i,
    {
        if a[i] != b[i] {
            same = false;
        }
        i += 1;
    }
    proof {
        if same {
            assert(a@ =~= b@);
        }
    }
    same
}

/// Trusted: `k256::ProjectivePoint::from_bytes` followed by `to_bytes`. The
/// first accepts every canonical encoding and some others; the second gives the
/// canonical encoding of what was decoded.
#[verifier::external_body]
fn point_canonical(bytes: &[u8; 33]) -> (r: Option<[u8; 33]>)
    ensures
        r is Some ==> is_point(r->0@),
        is_point(bytes@) ==> r is Some && r->0@ == bytes@,
{
    let decoded: Option<ProjectivePoint> = ProjectivePoint::from_bytes(&(*bytes).into()).into();
    decoded.map(|p| p.to_bytes().into())
}

/// Trusted: `k256::ProjectivePoint::mul_by_generator`, the multiple of the
/// generator that `multiple_encoding` names. The multiple is taken by a scalar,
/// which is below the group order.
#[verifier::external_body]
pub(crate) fn generator_times(s: &CurveScalar) -> (r: CurvePoint)
    requires
        s.wf(),
    ensures
        r.wf(),
        r.encoding() == multiple_encoding(s@),
{
    let x = Scalar::from_repr(s.bytes.into()).unwrap();
    let p = ProjectivePoint::mul_by_generator(&x);
    CurvePoint { bytes: p.to_bytes().into() }
}

/// Trusted: `k256::ProjectivePoint::IDENTITY`, the zero-fold multiple.
#[verifier::external_body]
pub(crate) fn point_identity() -> (r: CurvePoint)
    ensures
        r.wf(),
        r.encoding() == multiple_encoding(0),
{
    CurvePoint { bytes: ProjectivePoint::IDENTITY.to_bytes().into() }
}

/// Trusted: addition of `k256::ProjectivePoint`. The sum of the `i`-fold and
/// the `j`-fold multiple of the generator is its `(i + j)`-fold multiple, the
/// count taken modulo the group order.
#[verifier::external_body]
pub(crate) fn point_sum(a: &CurvePoint, b: &CurvePoint) -> (r: CurvePoint)
    requires
        a.wf(),
        b.wf(),
    ensures
        r.wf(),
        r@ == field_add(a@, b@),
{
    let p = ProjectivePoint::from_bytes(&a.bytes.into()).unwrap();
    let q = ProjectivePoint::from_bytes(&b.bytes.into()).unwrap();
    CurvePoint { bytes: (p + q).to_bytes().into() }
}

/// Trusted: multiplication of a `k256::ProjectivePoint` by a `k256::Scalar`.
/// The `s`-fold multiple of the `i`-fold multiple of the generator is its
/// `(i * s)`-fold multiple, the count taken modulo the group order.
#[verifier::external_body]
pub(crate) fn point_multiple(a: &CurvePoint, s: &CurveScalar) -> (r: CurvePoint)
    requires
        a.wf(),
        s.wf(),
    ensures
        r.wf(),
        r@ == field_mul(a@, s@),
{
    let p = ProjectivePoint::from_bytes(&a.bytes.into()).unwrap();
    let x = Scalar::from_repr(s.bytes.into()).unwrap();
    CurvePoint { bytes: (p * x).to_bytes().into() }
}

} // verus!
