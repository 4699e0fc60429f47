//! Capsules: the key encapsulation of the scheme.
//!
//! A capsule holds two points and a scalar that binds them. The key seed that
//! it encapsulates is a point that the delegator recovers with the secret key,
//! and a receiver with a batch of re-encrypted fragments of the capsule.
//!
//! Contracts speak of a point through its view: the number of times that the
//! generator is added to itself to reach it. In that view the group is the
//! scalar field under addition.

use vstd::prelude::*;
use crate::field::{
    be_value, group_order, field_add, field_sub, field_mul, field_inverse, lemma_inverse_is,
    lemma_field_sub_zero,
};
use crate::curve::{
    CurvePoint, CurveScalar, is_point, point_index, multiple_encoding, point_identity,
    point_multiple, point_sum, scalar_difference, scalar_inverse, scalar_product,
    scalar_random_nonzero, scalar_sum,
};
use crate::hashing::{
    capsule_points_scalar, polynomial_arg_scalar, shared_secret_scalar, hash_capsule_points,
    hash_to_polynomial_arg, hash_to_shared_secret,
};
use crate::keys::{PublicKey, SecretKey, generator_multiple};
use crate::params::Parameters;
use crate::capsule_frag::CapsuleFrag;

verus! {

/// Why a capsule could not be opened with re-encrypted fragments.
#[derive(Clone, Copy, Debug, PartialEq, Eq)]
pub enum OpenReencryptedError {
    /// The list of fragments is empty.
    NoCapsuleFrags,
    /// The fragments do not share one precursor: they come from different
    /// batches of key fragments.
    MismatchedCapsuleFrags,
    /// Two of the fragments have the same coordinate on the sharing polynomial.
    RepeatingCapsuleFrags,
    /// The hash that gives the shared secret is zero.
    ZeroHash,
    /// The reconstructed points do not fit the capsule and the delegator's
    /// key: the capsule, the key or a fragment is not what it should be.
    ValidationFailed,
}

impl OpenReencryptedError {
    /// The text that describes the failure.
    pub open spec fn description(self) -> Seq<char> {
        match self {
            OpenReencryptedError::NoCapsuleFrags => "Empty CapsuleFrag sequence"@,
            OpenReencryptedError::MismatchedCapsuleFrags => {
                "CapsuleFrags are not pairwise consistent"@
            },
            OpenReencryptedError::RepeatingCapsuleFrags => "Some of the CapsuleFrags are repeated"@,
            OpenReencryptedError::ZeroHash => "An internally hashed value is zero"@,
            OpenReencryptedError::ValidationFailed => "Internal validation failed"@,
        }
    }

    /// Describes the failure in words.
    pub fn message(&self) -> (r: String)
        ensures
            r@ == self.description(),
    {
        match self {
            OpenReencryptedError::NoCapsuleFrags => "Empty CapsuleFrag sequence".to_owned(),
            OpenReencryptedError::MismatchedCapsuleFrags => {
                "CapsuleFrags are not pairwise consistent".to_owned()
            },
            OpenReencryptedError::RepeatingCapsuleFrags => {
                "Some of the CapsuleFrags are repeated".to_owned()
            },
            OpenReencryptedError::ZeroHash => "An internally hashed value is zero".to_owned(),
            OpenReencryptedError::ValidationFailed => "Internal validation failed".to_owned(),
        }
    }
}

/// Why bytes could not be made into a capsule.
#[derive(Clone, Copy, Debug, PartialEq, Eq)]
pub enum ConstructionError {
    /// One of the two points is not the canonical encoding of a group element.
    InvalidPoint,
    /// The signature is not the canonical encoding of a scalar.
    InvalidScalar,
    /// The parts decode, but the signature does not bind the points.
    SelfVerificationFailed,
}

impl ConstructionError {
    /// The text that describes the failure.
    pub open spec fn description(self) -> Seq<char> {
        match self {
            ConstructionError::InvalidPoint => "Failed to construct a CurvePoint"@,
            ConstructionError::InvalidScalar => "Failed to construct a CurveScalar"@,
            ConstructionError::SelfVerificationFailed => "Self-verification failed"@,
        }
    }

    /// Describes the failure in words.
    pub fn message(&self) -> (r: String)
        ensures
            r@ == self.description(),
    {
        match self {
            ConstructionError::InvalidPoint => "Failed to construct a CurvePoint".to_owned(),
            ConstructionError::InvalidScalar => "Failed to construct a CurveScalar".to_owned(),
            ConstructionError::SelfVerificationFailed => "Self-verification failed".to_owned(),
        }
    }
}

/// Copies `source` into `target` from the place `offset` on.
fn write_part<const N: usize>(target: &mut [u8; 98], offset: usize, source: &[u8; N])
    requires
        offset + N <= 98,
    ensures
        final(target)@ == old(target)@.subrange(0, offset as int) + source@ + old(target)@.subrange(
            offset + N,
            98,
        ),
{
    let ghost before = target@;
    let mut k: usize = 0;
    while k < N
        invariant
            k <= N,
            offset + N <= 98,
            source@.len() == N,
            before.len() == 98,
            target@ == before.subrange(0, offset as int) + source@.subrange(0, k as int)
                + before.subrange(offset + k, 98),
        decreases N - k,
    {
        target[offset + k] = source[k];
        proof {
            assert(target@ =~= before.subrange(0, offset as int) + source@.subrange(0, k + 1)
                + before.subrange(offset + k + 1, 98));
        }
        k += 1;
    }
    assert(source@.subrange(0, N as int) =~= source@);
}

/// Copies `N` bytes out of `source` from the place `offset` on.
fn read_part<const N: usize>(source: &[u8; 98], offset: usize) -> (r: [u8; N])
    requires
        offset + N <= 98,
    ensures
        r@ == source@.subrange(offset as int, offset + N),
{
    let mut part = [0u8; N];
    let mut k: usize = 0;
    while k < N
        invariant
            k <= N,
            offset + N <= 98,
            part@.len() == N,
            forall|j: int| 0 <= j < k ==> part@[j] == source@[offset + j],
        decreases N - k,
    {
        part[k] = source[offset + k];
        k += 1;
    }
    assert(part@ =~= source@.subrange(offset as int, offset + N));
    part
}

/// Whether the scalar `signature` binds the points `e` and `v`: whether the
/// generator times `signature` is `v` plus `e` times the hash of both points.
pub open spec fn signature_binds(e: CurvePoint, v: CurvePoint, signature: CurveScalar) -> bool {
    signature@ == field_add(
        v@,
        field_mul(e@, capsule_points_scalar(e.encoding(), v.encoding())),
    )
}

/// Computes what `signature_binds` states.
fn signature_holds(e: &CurvePoint, v: &CurvePoint, signature: &CurveScalar) -> (r: bool)
    ensures
        r == signature_binds(*e, *v, *signature),
{
    proof {
        use_type_invariant(e);
        use_type_invariant(v);
        use_type_invariant(signature);
    }
    let h = hash_capsule_points(e, v);
    let left = generator_multiple(signature);
    let right = point_sum(v, &point_multiple(e, &h));
    left.equals(&right)
}

/// The numbers that a list of scalars stands for.
pub open spec fn scalar_values(xs: Seq<CurveScalar>) -> Seq<nat> {
    Seq::new(xs.len(), |k: int| xs[k]@)
}

/// One factor of a Lagrange coefficient at zero: a coordinate `y` other than
/// `x` contributes `y / (y - x)`, and `x` itself nothing.
pub open spec fn lagrange_factor(x: nat) -> spec_fn(nat, nat) -> nat {
    |product: nat, y: nat|
        if y == x {
            product
        } else {
            field_mul(field_mul(product, y), field_inverse(field_sub(y, x)))
        }
}

/// The Lagrange coefficient at zero of the coordinate `x` among the
/// coordinates `xs`: the product of `y / (y - x)` over the others.
pub open spec fn lagrange_coefficient(xs: Seq<nat>, x: nat) -> nat {
    xs.fold_left(1nat, lagrange_factor(x))
}

/// Whether a coordinate occurs at two places of `xs`.
pub open spec fn has_repeats(xs: Seq<nat>) -> bool {
    exists|i: int, j: int| 0 <= i < j < xs.len() && xs[i] == xs[j]
}

/// Whether the coordinate at place `i` of `xs` occurs at another place too.
pub open spec fn repeats_at(xs: Seq<nat>, i: int) -> bool {
    exists|j: int| 0 <= j < xs.len() && j != i && xs[j] == xs[i]
}

/// What the fragments of one batch are opened under, each point by its
/// encoding: the batch's precursor, the receiver's public key, and the
/// Diffie-Hellman point of the two.
pub struct Session {
    pub precursor: Seq<u8>,
    pub pub_key: Seq<u8>,
    pub dh_point: Seq<u8>,
}

/// The session of a receiver with the secret `receiving_sk` on a batch with
/// the given precursor.
pub open spec fn session_of(precursor: CurvePoint, receiving_sk: nat) -> Session {
    Session {
        precursor: precursor.encoding(),
        pub_key: multiple_encoding(receiving_sk),
        dh_point: multiple_encoding(field_mul(precursor@, receiving_sk)),
    }
}

/// The coordinate of a fragment on the sharing polynomial.
pub open spec fn coordinate(session: Session, frag: CapsuleFrag) -> nat {
    polynomial_arg_scalar(session.precursor, session.pub_key, session.dh_point, frag.kfrag_id@)
}

/// The coordinates of a list of fragments, in the order of the list.
pub open spec fn coordinates(session: Session, frags: Seq<CapsuleFrag>) -> Seq<nat> {
    Seq::new(frags.len(), |k: int| coordinate(session, frags[k]))
}

/// Whether all fragments have the precursor of the first.
pub open spec fn same_precursor(frags: Seq<CapsuleFrag>) -> bool {
    forall|k: int| 0 <= k < frags.len() ==> (#[trigger] frags[k]).precursor == frags[0].precursor
}

/// Adds to a sum a fragment's first point, weighted by the Lagrange
/// coefficient of the fragment's coordinate among the coordinates `xs`.
pub open spec fn combine_e(session: Session, xs: Seq<nat>) -> spec_fn(nat, CapsuleFrag) -> nat {
    |sum: nat, frag: CapsuleFrag|
        field_add(
            sum,
            field_mul(frag.point_e1@, lagrange_coefficient(xs, coordinate(session, frag))),
        )
}

/// Adds to a sum a fragment's second point, weighted as in `combine_e`.
pub open spec fn combine_v(session: Session, xs: Seq<nat>) -> spec_fn(nat, CapsuleFrag) -> nat {
    |sum: nat, frag: CapsuleFrag|
        field_add(
            sum,
            field_mul(frag.point_v1@, lagrange_coefficient(xs, coordinate(session, frag))),
        )
}

/// The first point that a batch of fragments reconstructs: the sum of their
/// first points, each weighted by its Lagrange coefficient.
pub open spec fn reconstructed_e(session: Session, frags: Seq<CapsuleFrag>) -> nat {
    frags.fold_left(0nat, combine_e(session, coordinates(session, frags)))
}

/// The second point that a batch of fragments reconstructs.
pub open spec fn reconstructed_v(session: Session, frags: Seq<CapsuleFrag>) -> nat {
    frags.fold_left(0nat, combine_v(session, coordinates(session, frags)))
}

/// An encapsulated key seed.
#[derive(Clone, Copy, Debug, PartialEq, Eq)]
pub struct Capsule {
    params: Parameters,
    point_e: CurvePoint,
    point_v: CurvePoint,
    signature: CurveScalar,
}

impl Capsule {
    /// The parameters that the capsule was made under.
    pub closed spec fn params(self) -> Parameters {
        self.params
    }

    /// The capsule's first point.
    pub closed spec fn point_e(self) -> CurvePoint {
        self.point_e
    }

    /// The capsule's second point.
    pub closed spec fn point_v(self) -> CurvePoint {
        self.point_v
    }

    /// The scalar that binds the two points.
    pub closed spec fn signature(self) -> CurveScalar {
        self.signature
    }

    /// A capsule's parts are well formed and its signature binds its points.
    /// No capsule exists of which this does not hold.
    #[verifier::type_invariant]
    pub open spec fn wf(self) -> bool {
        &&& self.params().wf()
        &&& self.point_e().wf()
        &&& self.point_v().wf()
        &&& self.signature().wf()
        &&& signature_binds(self.point_e(), self.point_v(), self.signature())
    }

    /// Puts a capsule together from parts that are known to fit.
    pub fn new(point_e: CurvePoint, point_v: CurvePoint, signature: CurveScalar) -> (r: Capsule)
        requires
            signature_binds(point_e, point_v, signature),
        ensures
            r.wf(),
            r.point_e() == point_e,
            r.point_v() == point_v,
            r.signature() == signature,
    {
        proof {
            use_type_invariant(&point_e);
            use_type_invariant(&point_v);
            use_type_invariant(&signature);
        }
        let params = Parameters::new();
        Capsule { params, point_e, point_v, signature }
    }

    /// Puts a capsule together from parts of any origin; `None` where the
    /// signature does not bind the points.
    pub fn new_verified(point_e: CurvePoint, point_v: CurvePoint, signature: CurveScalar) -> (r:
        Option<Capsule>)
        ensures
            r is Some <==> signature_binds(point_e, point_v, signature),
            r is Some ==> {
                &&& r->0.wf()
                &&& r->0.point_e() == point_e
                &&& r->0.point_v() == point_v
                &&& r->0.signature() == signature
            },
    {
        if signature_holds(&point_e, &point_v, &signature) {
            Some(Capsule::new(point_e, point_v, signature))
        } else {
            None
        }
    }

    /// Checks that the signature binds the points.
    pub fn verify(&self) -> (r: bool)
        ensures
            r == signature_binds(self.point_e(), self.point_v(), self.signature()),
    {
        signature_holds(&self.point_e, &self.point_v, &self.signature)
    }

    /// The bytes of the capsule: its two points and its signature, encoded
    /// and joined.
    pub open spec fn serialized(self) -> Seq<u8> {
        self.point_e().encoding() + self.point_v().encoding() + self.signature().encoding()
    }

    /// What 98 bytes are made into: the capsule that they are the bytes of, or
    /// the first failure on the way to it.
    pub open spec fn deserialized(bytes: Seq<u8>) -> Result<Capsule, ConstructionError> {
        let e = bytes.subrange(0, 33);
        let v = bytes.subrange(33, 66);
        let signature = bytes.subrange(66, 98);
        if !is_point(e) || !is_point(v) {
            Err(ConstructionError::InvalidPoint)
        } else if be_value(signature) >= group_order() {
            Err(ConstructionError::InvalidScalar)
        } else if be_value(signature) != field_add(
            point_index(v),
            field_mul(point_index(e), capsule_points_scalar(e, v)),
        ) {
            Err(ConstructionError::SelfVerificationFailed)
        } else {
            Ok(choose|capsule: Capsule| capsule.wf() && capsule.serialized() == bytes)
        }
    }

    /// A well-formed capsule is the only one with its bytes.
    pub proof fn lemma_serialized_decides(self, other: Capsule)
        requires
            self.wf(),
            other.wf(),
            self.serialized() == other.serialized(),
        ensures
            self == other,
    {
        let a = self.serialized();
        let b = other.serialized();
        assert(self.point_e.encoding() =~= a.subrange(0, 33));
        assert(other.point_e.encoding() =~= b.subrange(0, 33));
        assert(self.point_v.encoding() =~= a.subrange(33, 66));
        assert(other.point_v.encoding() =~= b.subrange(33, 66));
        assert(self.signature.encoding() =~= a.subrange(66, 98));
        assert(other.signature.encoding() =~= b.subrange(66, 98));
        self.point_e.lemma_encoding_decides(other.point_e);
        self.point_v.lemma_encoding_decides(other.point_v);
        self.signature.lemma_encoding_decides(other.signature);
        self.params.lemma_unique(other.params);
    }

    /// The bytes of the capsule.
    pub fn to_array(&self) -> (r: [u8; 98])
        ensures
            r@ == self.serialized(),
    {
        proof {
            use_type_invariant(self);
        }
        let mut bytes = [0u8; 98];
        write_part(&mut bytes, 0, &self.point_e.to_bytes());
        write_part(&mut bytes, 33, &self.point_v.to_bytes());
        write_part(&mut bytes, 66, &self.signature.to_bytes());
        assert(bytes@ =~= self.serialized());
        bytes
    }

    /// Makes a capsule of its bytes. The parts are decoded, and the capsule is
    /// verified as one of any other origin is.
    pub fn from_array(bytes: &[u8; 98]) -> (r: Result<Capsule, ConstructionError>)
        ensures
            r == Self::deserialized(bytes@),
            r matches Ok(capsule) ==> capsule.wf() && capsule.serialized() == bytes@,
    {
        let e_bytes = read_part::<33>(bytes, 0);
        let v_bytes = read_part::<33>(bytes, 33);
        let s_bytes = read_part::<32>(bytes, 66);
        let point_e = match CurvePoint::from_bytes(&e_bytes) {
            Some(point) => point,
            None => {
                return Err(ConstructionError::InvalidPoint);
            },
        };
        let point_v = match CurvePoint::from_bytes(&v_bytes) {
            Some(point) => point,
            None => {
                return Err(ConstructionError::InvalidPoint);
            },
        };
        let signature = match CurveScalar::from_bytes(&s_bytes) {
            Some(scalar) => scalar,
            None => {
                return Err(ConstructionError::InvalidScalar);
            },
        };
        match Self::new_verified(point_e, point_v, signature) {
            Some(capsule) => {
                proof {
                    assert(capsule.serialized() =~= bytes@);
                    let chosen = choose|c: Capsule| c.wf() && c.serialized() == bytes@;
                    capsule.lemma_serialized_decides(chosen);
                }
                Ok(capsule)
            },
            None => Err(ConstructionError::SelfVerificationFailed),
        }
    }

    /// Whether `capsule` and `key_seed` are what the secrets `r` and `u`
    /// encapsulate for the public key `delegating_pk`: the capsule's points
    /// are the generator times `r` and times `u`, its signature is `u + r * h`
    /// with `h` the hash of the two points, and the key seed is the public
    /// key's point times `r + u`.
    pub open spec fn encapsulates(
        capsule: Capsule,
        key_seed: CurvePoint,
        delegating_pk: PublicKey,
        r: nat,
        u: nat,
    ) -> bool {
        &&& capsule.wf()
        &&& key_seed.wf()
        &&& capsule.point_e()@ == r
        &&& capsule.point_v()@ == u
        &&& capsule.signature()@ == field_add(
            u,
            field_mul(r, capsule_points_scalar(multiple_encoding(r), multiple_encoding(u))),
        )
        &&& key_seed@ == field_mul(delegating_pk@, field_add(r, u))
    }

    /// Encapsulates a key seed for `delegating_pk` with the secrets `priv_r`
    /// and `priv_u`, and gives the capsule and the key seed.
    pub fn from_secrets(
        delegating_pk: &PublicKey,
        priv_r: &CurveScalar,
        priv_u: &CurveScalar,
    ) -> (r: (Capsule, CurvePoint))
        ensures
            Self::encapsulates(r.0, r.1, *delegating_pk, priv_r@, priv_u@),
    {
        proof {
            use_type_invariant(priv_r);
            use_type_invariant(priv_u);
        }
        let pub_r = generator_multiple(priv_r);
        let pub_u = generator_multiple(priv_u);
        let h = hash_capsule_points(&pub_r, &pub_u);
        let s = scalar_sum(priv_u, &scalar_product(priv_r, &h));
        let shared_key = point_multiple(&delegating_pk.to_point(), &scalar_sum(priv_r, priv_u));
        proof {
            pub_r.lemma_index();
            pub_u.lemma_index();
        }
        let capsule = Capsule::new(pub_r, pub_u, s);
        (capsule, shared_key)
    }

    /// Encapsulates a fresh key seed for `delegating_pk`: draws two secret
    /// scalars other than zero and encapsulates with them.
    pub fn from_public_key(delegating_pk: &PublicKey) -> (r: (Capsule, CurvePoint))
        ensures
            exists|priv_r: nat, priv_u: nat|
                {
                    &&& 0 < priv_r < group_order()
                    &&& 0 < priv_u < group_order()
                    &&& #[trigger] Self::encapsulates(r.0, r.1, *delegating_pk, priv_r, priv_u)
                },
    {
        let priv_r = scalar_random_nonzero();
        let priv_u = scalar_random_nonzero();
        Self::from_secrets(delegating_pk, &priv_r, &priv_u)
    }

    /// What opening the capsule with the secret `delegating_sk` gives: the
    /// sum of the capsule's points times the secret, as a multiple of the
    /// generator.
    pub open spec fn original_outcome(self, delegating_sk: nat) -> nat {
        field_mul(field_add(self.point_e()@, self.point_v()@), delegating_sk)
    }

    /// Recovers the key seed with the delegator's secret key.
    pub fn open_original(&self, delegating_sk: &SecretKey) -> (r: CurvePoint)
        ensures
            r.wf(),
            r@ == self.original_outcome(delegating_sk@),
    {
        proof {
            use_type_invariant(self);
        }
        point_multiple(&point_sum(&self.point_e, &self.point_v), &delegating_sk.to_secret_scalar())
    }

    /// What opening the capsule with re-encrypted fragments gives, for a
    /// receiver with the secret `receiving_sk` and a delegator whose public
    /// key is the generator times `delegating_pk`: the key seed, as a multiple
    /// of the generator, or the first of the five failures that applies.
    ///
    /// With `e` and `v` the reconstructed points, `d` the shared secret and
    /// `h` the hash of the capsule's points, the reconstruction is valid when
    /// the delegator's key times `signature / d` is `e * h + v`. The key seed
    /// is then `(e + v) * d`.
    pub open spec fn reencrypted_outcome(
        self,
        receiving_sk: nat,
        delegating_pk: nat,
        cfrags: Seq<CapsuleFrag>,
    ) -> Result<nat, OpenReencryptedError> {
        if cfrags.len() == 0 {
            Err(OpenReencryptedError::NoCapsuleFrags)
        } else if !same_precursor(cfrags) {
            Err(OpenReencryptedError::MismatchedCapsuleFrags)
        } else {
            let session = session_of(cfrags[0].precursor, receiving_sk);
            let e = reconstructed_e(session, cfrags);
            let v = reconstructed_v(session, cfrags);
            let d = shared_secret_scalar(session.precursor, session.pub_key, session.dh_point);
            let h = capsule_points_scalar(self.point_e().encoding(), self.point_v().encoding());
            if has_repeats(coordinates(session, cfrags)) {
                Err(OpenReencryptedError::RepeatingCapsuleFrags)
            } else if d == 0 {
                Err(OpenReencryptedError::ZeroHash)
            } else if field_mul(delegating_pk, field_mul(self.signature()@, field_inverse(d)))
                != field_add(field_mul(e, h), v) {
                Err(OpenReencryptedError::ValidationFailed)
            } else {
                Ok(field_mul(field_add(e, v), d))
            }
        }
    }

    /// Recovers the key seed with the receiver's secret key, the delegator's
    /// public key and a batch of re-encrypted fragments of this capsule.
    pub fn open_reencrypted(
        &self,
        receiving_sk: &SecretKey,
        delegating_pk: &PublicKey,
        cfrags: &[CapsuleFrag],
    ) -> (r: Result<CurvePoint, OpenReencryptedError>)
        ensures
            match r {
                Ok(key_seed) => key_seed.wf() && self.reencrypted_outcome(
                    receiving_sk@,
                    delegating_pk@,
                    cfrags@,
                ) == Ok::<nat, OpenReencryptedError>(key_seed@),
                Err(e) => self.reencrypted_outcome(receiving_sk@, delegating_pk@, cfrags@) == Err::<
                    nat,
                    OpenReencryptedError,
                >(e),
            },
            cfrags@.len() == 0 ==> r == Err::<CurvePoint, OpenReencryptedError>(
                OpenReencryptedError::NoCapsuleFrags,
            ),
            cfrags@.len() > 0 && !same_precursor(cfrags@) ==> r == Err::<
                CurvePoint,
                OpenReencryptedError,
            >(OpenReencryptedError::MismatchedCapsuleFrags),
    {
        if cfrags.len() == 0 {
            return Err(OpenReencryptedError::NoCapsuleFrags);
        }
        let precursor = cfrags[0].precursor;
        if !all_have_precursor(cfrags, &precursor) {
            return Err(OpenReencryptedError::MismatchedCapsuleFrags);
        }
        proof {
            use_type_invariant(self);
            use_type_invariant(&precursor);
        }
        let pub_key = receiving_sk.public_key().to_point();
        let dh_point = point_multiple(&precursor, &receiving_sk.to_secret_scalar());
        let ghost session = session_of(precursor, receiving_sk@);
        proof {
            pub_key.lemma_index();
            dh_point.lemma_index();
        }

        // The coordinates of the fragments on the sharing polynomial.
        let mut lc: Vec<CurveScalar> = Vec::with_capacity(cfrags.len());
        let mut n: usize = 0;
        while n < cfrags.len()
            invariant
                n <= cfrags.len(),
                lc@.len() == n,
                session == session_of(precursor, receiving_sk@),
                precursor == cfrags@[0].precursor,
                same_precursor(cfrags@),
                session.pub_key == pub_key.encoding(),
                session.dh_point == dh_point.encoding(),
                forall|k: int|
                    0 <= k < n ==> (#[trigger] lc@[k])@ == coordinate(session, cfrags@[k]),
            decreases cfrags.len() - n,
        {
            let id = &cfrags[n].kfrag_id;
            let coeff = hash_to_polynomial_arg(&precursor, &pub_key, &dh_point, id);
            lc.push(coeff);
            n += 1;
        }
        let ghost xs = coordinates(session, cfrags@);
        assert(scalar_values(lc@) =~= xs);

        // Shamir reconstruction of the two points.
        let mut e_prime = point_identity();
        let mut v_prime = point_identity();
        proof {
            e_prime.lemma_index();
            v_prime.lemma_index();
        }
        let mut i: usize = 0;
        while i < cfrags.len()
            invariant
                0 < cfrags.len(),
                i <= cfrags.len(),
                lc@.len() == cfrags.len(),
                session == session_of(cfrags@[0].precursor, receiving_sk@),
                session.precursor == precursor.encoding(),
                session.pub_key == pub_key.encoding(),
                session.dh_point == dh_point.encoding(),
                same_precursor(cfrags@),
                scalar_values(lc@) == xs,
                xs == coordinates(session, cfrags@),
                e_prime.wf(),
                v_prime.wf(),
                e_prime@ == cfrags@.take(i as int).fold_left(0nat, combine_e(session, xs)),
                v_prime@ == cfrags@.take(i as int).fold_left(0nat, combine_v(session, xs)),
                forall|k: int| 0 <= k < i ==> !repeats_at(xs, k),
            decreases cfrags.len() - i,
        {
            let cfrag = &cfrags[i];
            let ghost weight = lagrange_coefficient(xs, coordinate(session, *cfrag));
            proof {
                lemma_fold_step(cfrags@, i as int, combine_e(session, xs));
                lemma_fold_step(cfrags@, i as int, combine_v(session, xs));
                assert(xs[i as int] == coordinate(session, *cfrag));
            }
            match lambda_coeff(lc.as_slice(), i) {
                None => {
                    proof {
                        lemma_repeats_at(xs, i as int);
                    }
                    return Err(OpenReencryptedError::RepeatingCapsuleFrags);
                },
                Some(lambda_i) => {
                    proof {
                        use_type_invariant(&cfrag.point_e1);
                        use_type_invariant(&cfrag.point_v1);
                    }
                    assert(lambda_i@ == weight);
                    e_prime = point_sum(&e_prime, &point_multiple(&cfrag.point_e1, &lambda_i));
                    v_prime = point_sum(&v_prime, &point_multiple(&cfrag.point_v1, &lambda_i));
                },
            }
            i += 1;
        }
        proof {
            assert(cfrags@.take(cfrags.len() as int) =~= cfrags@);
            lemma_no_repeats(xs);
        }

        // The secret that makes the scheme non-interactive.
        let d = hash_to_shared_secret(&precursor, &pub_key, &dh_point);
        let h = hash_capsule_points(&self.point_e, &self.point_v);
        let orig_pub_key = delegating_pk.to_point();
        let inv_d = match scalar_inverse(&d) {
            None => {
                return Err(OpenReencryptedError::ZeroHash);
            },
            Some(inverse) => inverse,
        };
        proof {
            lemma_inverse_is(d@, inv_d@);
        }
        let left = point_multiple(&orig_pub_key, &scalar_product(&self.signature, &inv_d));
        let right = point_sum(&point_multiple(&e_prime, &h), &v_prime);
        if !left.equals(&right) {
            return Err(OpenReencryptedError::ValidationFailed);
        }
        let shared_key = point_multiple(&point_sum(&e_prime, &v_prime), &d);
        Ok(shared_key)
    }
}

/// Whether every fragment of the list has the given precursor.
fn all_have_precursor(cfrags: &[CapsuleFrag], precursor: &CurvePoint) -> (r: bool)
    ensures
        r == forall|k: int|
            0 <= k < cfrags@.len() ==> (#[trigger] cfrags@[k]).precursor == *precursor,
{
    let mut i: usize = 0;
    while i < cfrags.len()
        invariant
            i <= cfrags.len(),
            forall|k: int| 0 <= k < i ==> (#[trigger] cfrags@[k]).precursor == *precursor,
        decreases cfrags.len() - i,
    {
        if !cfrags[i].precursor.equals(precursor) {
            return false;
        }
        i += 1;
    }
    true
}

/// Folding one element more applies the function once more.
proof fn lemma_fold_step<A>(s: Seq<A>, i: int, f: spec_fn(nat, A) -> nat)
    requires
        0 <= i < s.len(),
    ensures
        s.take(i + 1).fold_left(0nat, f) == f(s.take(i).fold_left(0nat, f), s[i]),
{
    assert(s.take(i + 1).drop_last() =~= s.take(i));
    assert(s.take(i + 1).last() == s[i]);
}

/// A coordinate that occurs at another place too is a repeat.
proof fn lemma_repeats_at(xs: Seq<nat>, i: int)
    requires
        0 <= i < xs.len(),
        repeats_at(xs, i),
    ensures
        has_repeats(xs),
{
    let j = choose|j: int| 0 <= j < xs.len() && j != i && xs[j] == xs[i];
    if i < j {
        assert(0 <= i < j < xs.len() && xs[i] == xs[j]);
    } else {
        assert(0 <= j < i < xs.len() && xs[j] == xs[i]);
    }
}

/// Where no coordinate occurs at another place too, there is no repeat.
proof fn lemma_no_repeats(xs: Seq<nat>)
    requires
        forall|k: int| 0 <= k < xs.len() ==> !repeats_at(xs, k),
    ensures
        !has_repeats(xs),
{
    if has_repeats(xs) {
        let (i, j) = choose|i: int, j: int| 0 <= i < j < xs.len() && xs[i] == xs[j];
        assert(0 <= j < xs.len() && j != i && xs[j] == xs[i]);
        assert(repeats_at(xs, i));
    }
}

/// The Lagrange coefficient at zero of the `i`-th of the coordinates `xs`;
/// `None` where that coordinate occurs at another place too, so that a
/// difference has no inverse.
pub fn lambda_coeff(xs: &[CurveScalar], i: usize) -> (r: Option<CurveScalar>)
    requires
        i < xs.len(),
    ensures
        r is None <==> repeats_at(scalar_values(xs@), i as int),
        r is Some ==> r->0.wf() && r->0@ == lagrange_coefficient(
            scalar_values(xs@),
            scalar_values(xs@)[i as int],
        ),
{
    let ghost values = scalar_values(xs@);
    let ghost x = values[i as int];
    let x_i = &xs[i];
    let mut res = CurveScalar::one();
    let mut j: usize = 0;
    while j < xs.len()
        invariant
            j <= xs.len(),
            i < xs.len(),
            values == scalar_values(xs@),
            x == values[i as int],
            *x_i == xs@[i as int],
            res.wf(),
            res@ == values.take(j as int).fold_left(1nat, lagrange_factor(x)),
            forall|k: int| 0 <= k < j && k != i ==> values[k] != x,
        decreases xs.len() - j,
    {
        let x_j = &xs[j];
        proof {
            assert(values.take(j + 1).drop_last() =~= values.take(j as int));
            assert(values.take(j + 1).last() == values[j as int]);
        }
        if j != i {
            proof {
                use_type_invariant(x_j);
                use_type_invariant(x_i);
                lemma_field_sub_zero(x_j@, x_i@);
            }
            let difference = scalar_difference(x_j, x_i);
            match scalar_inverse(&difference) {
                None => {
                    assert(repeats_at(values, i as int)) by {
                        assert(0 <= j < values.len() && j != i);
                        assert(values[j as int] == values[i as int]);
                    }
                    return None;
                },
                Some(inverse) => {
                    proof {
                        lemma_inverse_is(difference@, inverse@);
                    }
                    res = scalar_product(&scalar_product(&res, x_j), &inverse);
                },
            }
        }
        j += 1;
    }
    proof {
        assert(values.take(xs.len() as int) =~= values);
    }
    Some(res)
}

} // verus!
