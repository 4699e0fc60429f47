//! Domain-separated hashing of points to scalars.
//!
//! Each of the three hashes feeds SHA-256 with a tag byte of its own followed by
//! the fixed-size encodings of its arguments, and reduces the digest modulo the
//! group order.

use vstd::prelude::*;
use crate::field::{be_value, group_order};
use crate::curve::{CurvePoint, CurveScalar, scalar_from_digest};

verus! {

/// Tag of the hash that binds the two points of a capsule.
pub const TAG_CAPSULE_POINTS: u8 = 1;

/// Tag of the hash that gives a fragment its coordinate on the sharing polynomial.
pub const TAG_POLYNOMIAL_ARG: u8 = 2;

/// Tag of the hash that gives the secret shared by delegator and receiver.
pub const TAG_SHARED_SECRET: u8 = 3;

/// The SHA-256 digest of a message, as the `sha2` crate computes it.
pub uninterp spec fn sha256_digest(message: Seq<u8>) -> Seq<u8>;

/// The scalar that a message hashes to.
pub open spec fn message_scalar(message: Seq<u8>) -> nat {
    be_value(sha256_digest(message)) % group_order()
}

/// The message hashed for the two points of a capsule.
pub open spec fn capsule_points_message(e: Seq<u8>, v: Seq<u8>) -> Seq<u8> {
    seq![TAG_CAPSULE_POINTS] + e + v
}

/// The message hashed for the polynomial argument of the fragment `id`.
pub open spec fn polynomial_arg_message(
    precursor: Seq<u8>,
    pub_key: Seq<u8>,
    dh_point: Seq<u8>,
    id: Seq<u8>,
) -> Seq<u8> {
    seq![TAG_POLYNOMIAL_ARG] + precursor + pub_key + dh_point + id
}

/// The message hashed for the shared secret.
pub open spec fn shared_secret_message(
    precursor: Seq<u8>,
    pub_key: Seq<u8>,
    dh_point: Seq<u8>,
) -> Seq<u8> {
    seq![TAG_SHARED_SECRET] + precursor + pub_key + dh_point
}

/// The scalar that binds the two points of a capsule, given by their encodings.
pub open spec fn capsule_points_scalar(e: Seq<u8>, v: Seq<u8>) -> nat {
    message_scalar(capsule_points_message(e, v))
}

/// The coordinate on the sharing polynomial of the fragment `id`.
pub open spec fn polynomial_arg_scalar(
    precursor: Seq<u8>,
    pub_key: Seq<u8>,
    dh_point: Seq<u8>,
    id: Seq<u8>,
) -> nat {
    message_scalar(polynomial_arg_message(precursor, pub_key, dh_point, id))
}

/// The secret shared by delegator and receiver.
pub open spec fn shared_secret_scalar(
    precursor: Seq<u8>,
    pub_key: Seq<u8>,
    dh_point: Seq<u8>,
) -> nat {
    message_scalar(shared_secret_message(precursor, pub_key, dh_point))
}

/// No two of the three hashes are fed the same message, whatever their
/// arguments: the messages differ in their first byte.
pub proof fn lemma_messages_differ(
    e: Seq<u8>,
    v: Seq<u8>,
    precursor: Seq<u8>,
    pub_key: Seq<u8>,
    dh_point: Seq<u8>,
    id: Seq<u8>,
    other_precursor: Seq<u8>,
    other_pub_key: Seq<u8>,
    other_dh_point: Seq<u8>,
)
    ensures
        capsule_points_message(e, v) != polynomial_arg_message(precursor, pub_key, dh_point, id),
        capsule_points_message(e, v) != shared_secret_message(
            other_precursor,
            other_pub_key,
            other_dh_point,
        ),
        polynomial_arg_message(precursor, pub_key, dh_point, id) != shared_secret_message(
            other_precursor,
            other_pub_key,
            other_dh_point,
        ),
{
    assert(capsule_points_message(e, v)[0] == TAG_CAPSULE_POINTS);
    assert(polynomial_arg_message(precursor, pub_key, dh_point, id)[0] == TAG_POLYNOMIAL_ARG);
    assert(shared_secret_message(other_precursor, other_pub_key, other_dh_point)[0]
        == TAG_SHARED_SECRET);
}

/// Trusted: `sha2::Sha256::digest`, named by `sha256_digest`.
#[verifier::external_body]
fn sha256(message: &Vec<u8>) -> (r: [u8; 32])
    ensures
        r@ == sha256_digest(message@),
{
    <sha2::Sha256 as sha2::Digest>::digest(message.as_slice()).into()
}

/// Appends the bytes of an array to a message.
fn append<const N: usize>(message: &mut Vec<u8>, bytes: &[u8; N])
    ensures
        final(message)@ == old(message)@ + bytes@,
{
    let ghost before = message@;
    let mut i: usize = 0;
    while i < N
        invariant
            i <= N,
            bytes@.len() == N,
            message@ == before + bytes@.subrange(0, i as int),
        decreases N - i,
    {
        message.push(bytes[i]);
        proof {
            assert(bytes@.subrange(0, i + 1) =~= bytes@.subrange(0, i as int).push(
                bytes@[i as int],
            ));
            assert(message@ =~= before + bytes@.subrange(0, i + 1));
        }
        i += 1;
    }
    assert(bytes@.subrange(0, N as int) =~= bytes@);
}

/// Hashes a message to a scalar.
fn hash_message(message: &Vec<u8>) -> (r: CurveScalar)
    ensures
        r.wf(),
        r@ == message_scalar(message@),
{
    let digest = sha256(message);
    scalar_from_digest(&digest)
}

/// Hashes the two points of a capsule to the scalar that its signature binds them with.
pub fn hash_capsule_points(e: &CurvePoint, v: &CurvePoint) -> (r: CurveScalar)
    ensures
        r.wf(),
        r@ == capsule_points_scalar(e.encoding(), v.encoding()),
{
    let mut message: Vec<u8> = Vec::new();
    message.push(TAG_CAPSULE_POINTS);
    append(&mut message, &e.to_bytes());
    append(&mut message, &v.to_bytes());
    assert(message@ =~= capsule_points_message(e.encoding(), v.encoding()));
    hash_message(&message)
}

/// Hashes a batch's precursor, the receiver's public key, their Diffie-Hellman
/// point and a fragment's identifier to the fragment's coordinate on the
/// sharing polynomial.
pub fn hash_to_polynomial_arg(
    precursor: &CurvePoint,
    pub_key: &CurvePoint,
    dh_point: &CurvePoint,
    id: &[u8; 32],
) -> (r: CurveScalar)
    ensures
        r.wf(),
        r@ == polynomial_arg_scalar(
                precursor.encoding(),
                pub_key.encoding(),
                dh_point.encoding(),
                id@,
            ),
{
    let mut message: Vec<u8> = Vec::new();
    message.push(TAG_POLYNOMIAL_ARG);
    append(&mut message, &precursor.to_bytes());
    append(&mut message, &pub_key.to_bytes());
    append(&mut message, &dh_point.to_bytes());
    append(&mut message, id);
    assert(message@ =~= polynomial_arg_message(
        precursor.encoding(),
        pub_key.encoding(),
        dh_point.encoding(),
        id@,
    ));
    hash_message(&message)
}

/// Hashes a batch's precursor, the receiver's public key and their
/// Diffie-Hellman point to the secret that delegator and receiver share.
pub fn hash_to_shared_secret(
    precursor: &CurvePoint,
    pub_key: &CurvePoint,
    dh_point: &CurvePoint,
) -> (r: CurveScalar)
    ensures
        r.wf(),
        r@ == shared_secret_scalar(precursor.encoding(), pub_key.encoding(), dh_point.encoding()),
{
    let mut message: Vec<u8> = Vec::new();
    message.push(TAG_SHARED_SECRET);
    append(&mut message, &precursor.to_bytes());
    append(&mut message, &pub_key.to_bytes());
    append(&mut message, &dh_point.to_bytes());
    assert(message@ =~= shared_secret_message(
        precursor.encoding(),
        pub_key.encoding(),
        dh_point.encoding(),
    ));
    hash_message(&message)
}

} // verus!
