use k256::elliptic_curve::group::GroupEncoding;
use k256::elliptic_curve::ops::Reduce;
use k256::elliptic_curve::{Field, PrimeField};
use k256::{NonZeroScalar, ProjectivePoint, Scalar, U256};
use rand_core::{OsRng, RngCore};
use sha2::{Digest, Sha256};

use umbral_pre::capsule::{lambda_coeff, Capsule, ConstructionError, OpenReencryptedError};
use umbral_pre::capsule_frag::CapsuleFrag;
use umbral_pre::curve::{CurvePoint, CurveScalar};
use umbral_pre::hashing::{hash_capsule_points, hash_to_polynomial_arg, hash_to_shared_secret};
use umbral_pre::keys::{PublicKey, SecretKey};

/// The order of the group, big-endian.
const ORDER: [u8; 32] = [
    0xFF, 0xFF, 0xFF, 0xFF, 0xFF, 0xFF, 0xFF, 0xFF, 0xFF, 0xFF, 0xFF, 0xFF, 0xFF, 0xFF, 0xFF, 0xFE,
    0xBA, 0xAE, 0xDC, 0xE6, 0xAF, 0x48, 0xA0, 0x3B, 0xBF, 0xD2, 0x5E, 0x8C, 0xD0, 0x36, 0x41, 0x41,
];

fn backend_scalar(scalar: &CurveScalar) -> Scalar {
    Option::<Scalar>::from(Scalar::from_repr(scalar.to_bytes().into())).unwrap()
}

fn library_scalar(scalar: &Scalar) -> CurveScalar {
    CurveScalar::from_bytes(&scalar.to_bytes().into()).unwrap()
}

fn backend_point(point: &CurvePoint) -> ProjectivePoint {
    Option::<ProjectivePoint>::from(ProjectivePoint::from_bytes(&point.to_bytes().into())).unwrap()
}

fn library_point(point: &ProjectivePoint) -> CurvePoint {
    CurvePoint::from_bytes(&point.to_bytes().into()).unwrap()
}

fn small_scalar(value: u64) -> CurveScalar {
    library_scalar(&Scalar::from(value))
}

fn random_scalar() -> Scalar {
    *NonZeroScalar::random(&mut OsRng)
}

fn capsule_points(capsule: &Capsule) -> (CurvePoint, CurvePoint, CurveScalar) {
    let bytes = capsule.to_array();
    let mut e = [0u8; 33];
    let mut v = [0u8; 33];
    let mut s = [0u8; 32];
    e.copy_from_slice(&bytes[0..33]);
    v.copy_from_slice(&bytes[33..66]);
    s.copy_from_slice(&bytes[66..98]);
    (
        CurvePoint::from_bytes(&e).unwrap(),
        CurvePoint::from_bytes(&v).unwrap(),
        CurveScalar::from_bytes(&s).unwrap(),
    )
}

/// A key fragment: a share of the re-encryption key on the sharing polynomial.
#[derive(Clone)]
struct KeyFrag {
    id: [u8; 32],
    key: Scalar,
    precursor: CurvePoint,
}

/// Shares the re-encryption key from the delegator to the receiver among
/// `shares` key fragments, of which `threshold` reconstruct it.
fn generate_kfrags(
    delegating_sk: &SecretKey,
    receiving_pk: &PublicKey,
    threshold: usize,
    shares: usize,
) -> Vec<KeyFrag> {
    let private_precursor = random_scalar();
    let precursor = library_point(&(ProjectivePoint::GENERATOR * private_precursor));
    let receiving_point = receiving_pk.to_point();
    let dh_point = library_point(&(backend_point(&receiving_point) * private_precursor));
    let d = backend_scalar(&hash_to_shared_secret(&precursor, &receiving_point, &dh_point));
    let inverse_d = Option::<Scalar>::from(d.invert()).unwrap();

    let mut coefficients = vec![backend_scalar(&delegating_sk.to_secret_scalar()) * inverse_d];
    for _ in 1..threshold {
        coefficients.push(random_scalar());
    }

    let mut kfrags = Vec::new();
    for _ in 0..shares {
        let mut id = [0u8; 32];
        OsRng.fill_bytes(&mut id);
        let x = hash_to_polynomial_arg(&precursor, &receiving_point, &dh_point, &id);
        let x = backend_scalar(&x);
        let mut key = Scalar::ZERO;
        for coefficient in coefficients.iter().rev() {
            key = key * x + coefficient;
        }
        kfrags.push(KeyFrag { id, key, precursor });
    }
    kfrags
}

/// Re-encrypts a capsule with one key fragment.
fn reencrypt(capsule: &Capsule, kfrag: &KeyFrag) -> CapsuleFrag {
    let (e, v, _) = capsule_points(capsule);
    CapsuleFrag {
        point_e1: library_point(&(backend_point(&e) * kfrag.key)),
        point_v1: library_point(&(backend_point(&v) * kfrag.key)),
        kfrag_id: kfrag.id,
        precursor: kfrag.precursor,
    }
}

/// Encapsulates a key seed and encrypts the plaintext under a key stream
/// derived from it.
fn encrypt(delegating_pk: &PublicKey, plaintext: &[u8]) -> Option<(Capsule, Vec<u8>)> {
    let (capsule, key_seed) = Capsule::from_public_key(delegating_pk);
    let mut ciphertext = Vec::new();
    for (block, chunk) in plaintext.chunks(32).enumerate() {
        let mut hasher = Sha256::new();
        hasher.update(key_seed.to_bytes());
        hasher.update((block as u64).to_be_bytes());
        let stream = hasher.finalize();
        for (byte, mask) in chunk.iter().zip(stream.iter()) {
            ciphertext.push(byte ^ mask);
        }
    }
    Some((capsule, ciphertext))
}

struct Setup {
    delegating_sk: SecretKey,
    delegating_pk: PublicKey,
    receiving_sk: SecretKey,
    capsule: Capsule,
    key_seed: CurvePoint,
    cfrags: Vec<CapsuleFrag>,
}

fn setup(threshold: usize, shares: usize) -> Setup {
    let delegating_sk = SecretKey::random();
    let delegating_pk = delegating_sk.public_key();
    let receiving_sk = SecretKey::random();
    let receiving_pk = receiving_sk.public_key();
    let (capsule, key_seed) = Capsule::from_public_key(&delegating_pk);
    let kfrags = generate_kfrags(&delegating_sk, &receiving_pk, threshold, shares);
    let cfrags = kfrags.iter().map(|kfrag| reencrypt(&capsule, kfrag)).collect();
    Setup { delegating_sk, delegating_pk, receiving_sk, capsule, key_seed, cfrags }
}

#[test]
fn test_serialize() {
    let delegating_sk = SecretKey::random();
    let delegating_pk = delegating_sk.public_key();

    let plaintext = b"peace at dawn";
    let (capsule, _ciphertext) = encrypt(&delegating_pk, plaintext).unwrap();

    let capsule_arr = capsule.to_array();
    let capsule_back = Capsule::from_array(&capsule_arr).unwrap();
    assert_eq!(capsule, capsule_back);
}

#[test]
fn test_open_reencrypted() {
    let delegating_sk = SecretKey::random();
    let delegating_pk = delegating_sk.public_key();

    let receiving_sk = SecretKey::random();
    let receiving_pk = receiving_sk.public_key();

    let (capsule, key_seed) = Capsule::from_public_key(&delegating_pk);

    let kfrags = generate_kfrags(&delegating_sk, &receiving_pk, 2, 3);

    let cfrags: Vec<_> = kfrags.iter().map(|kfrag| reencrypt(&capsule, kfrag)).collect();

    let key_seed_reenc = capsule
        .open_reencrypted(&receiving_sk, &delegating_pk, &cfrags)
        .unwrap();
    assert_eq!(key_seed, key_seed_reenc);

    // Empty cfrag vector
    assert_eq!(
        capsule.open_reencrypted(&receiving_sk, &delegating_pk, &[]),
        Err(OpenReencryptedError::NoCapsuleFrags)
    );

    // Mismatched cfrags - each `generate_kfrags()` uses new randoms.
    let kfrags2 = generate_kfrags(&delegating_sk, &receiving_pk, 2, 3);

    let cfrags2: Vec<_> = kfrags2.iter().map(|kfrag| reencrypt(&capsule, kfrag)).collect();

    let mismatched_cfrags: Vec<_> = cfrags[0..1]
        .iter()
        .cloned()
        .chain(cfrags2[1..2].iter().cloned())
        .collect();

    assert_eq!(
        capsule.open_reencrypted(&receiving_sk, &delegating_pk, &mismatched_cfrags),
        Err(OpenReencryptedError::MismatchedCapsuleFrags)
    );

    // Mismatched capsule
    let (capsule2, _key_seed) = Capsule::from_public_key(&delegating_pk);
    assert_eq!(
        capsule2.open_reencrypted(&receiving_sk, &delegating_pk, &cfrags),
        Err(OpenReencryptedError::ValidationFailed)
    );
}

#[test]
fn test_threshold_subset_opens() {
    let s = setup(2, 3);
    for skipped in 0..3 {
        let subset: Vec<_> = s
            .cfrags
            .iter()
            .enumerate()
            .filter(|(i, _)| *i != skipped)
            .map(|(_, cfrag)| *cfrag)
            .collect();
        assert_eq!(
            s.capsule.open_reencrypted(&s.receiving_sk, &s.delegating_pk, &subset),
            Ok(s.key_seed)
        );
    }
}

#[test]
fn test_below_threshold_fails_validation() {
    let s = setup(2, 3);
    assert_eq!(
        s.capsule.open_reencrypted(&s.receiving_sk, &s.delegating_pk, &s.cfrags[0..1]),
        Err(OpenReencryptedError::ValidationFailed)
    );
}

#[test]
fn test_open_original_gives_key_seed() {
    let s = setup(2, 3);
    assert_eq!(s.capsule.open_original(&s.delegating_sk), s.key_seed);
    let reopened = s
        .capsule
        .open_reencrypted(&s.receiving_sk, &s.delegating_pk, &s.cfrags)
        .unwrap();
    assert_eq!(s.capsule.open_original(&s.delegating_sk), reopened);
}

#[test]
fn test_open_original_exact() {
    let s = setup(1, 1);
    let (e, v, _) = capsule_points(&s.capsule);
    let secret = backend_scalar(&s.delegating_sk.to_secret_scalar());
    let expected = (backend_point(&e) + backend_point(&v)) * secret;
    assert_eq!(s.capsule.open_original(&s.delegating_sk), library_point(&expected));
}

#[test]
fn test_order_independence() {
    let s = setup(3, 4);
    let expected = s
        .capsule
        .open_reencrypted(&s.receiving_sk, &s.delegating_pk, &s.cfrags)
        .unwrap();
    assert_eq!(expected, s.key_seed);
    let orders: [[usize; 4]; 4] = [[3, 2, 1, 0], [1, 0, 3, 2], [2, 3, 0, 1], [1, 2, 3, 0]];
    for order in orders.iter() {
        let permuted: Vec<_> = order.iter().map(|&i| s.cfrags[i]).collect();
        assert_eq!(
            s.capsule.open_reencrypted(&s.receiving_sk, &s.delegating_pk, &permuted),
            Ok(expected)
        );
    }
}

#[test]
fn test_repeating_fragments() {
    let s = setup(2, 3);
    let repeated = vec![s.cfrags[0], s.cfrags[1], s.cfrags[0]];
    assert_eq!(
        s.capsule.open_reencrypted(&s.receiving_sk, &s.delegating_pk, &repeated),
        Err(OpenReencryptedError::RepeatingCapsuleFrags)
    );
    // Two fragments that differ in their points but share identifier and precursor.
    let mut forged = s.cfrags[1];
    forged.kfrag_id = s.cfrags[0].kfrag_id;
    assert_eq!(
        s.capsule.open_reencrypted(&s.receiving_sk, &s.delegating_pk, &[s.cfrags[0], forged]),
        Err(OpenReencryptedError::RepeatingCapsuleFrags)
    );
}

#[test]
fn test_wrong_delegating_key() {
    let s = setup(2, 3);
    let other_pk = SecretKey::random().public_key();
    assert_eq!(
        s.capsule.open_reencrypted(&s.receiving_sk, &other_pk, &s.cfrags),
        Err(OpenReencryptedError::ValidationFailed)
    );
}

#[test]
fn test_wrong_receiving_key() {
    let s = setup(2, 3);
    let other_sk = SecretKey::random();
    assert_eq!(
        s.capsule.open_reencrypted(&other_sk, &s.delegating_pk, &s.cfrags),
        Err(OpenReencryptedError::ValidationFailed)
    );
}

#[test]
fn test_mismatch_precedes_repeat() {
    let s = setup(2, 3);
    let other = setup(2, 3);
    let mixed = vec![s.cfrags[0], s.cfrags[0], other.cfrags[0]];
    assert_eq!(
        s.capsule.open_reencrypted(&s.receiving_sk, &s.delegating_pk, &mixed),
        Err(OpenReencryptedError::MismatchedCapsuleFrags)
    );
}

#[test]
fn test_new_verified_gate() {
    let s = setup(1, 1);
    let (e, v, signature) = capsule_points(&s.capsule);
    assert_eq!(Capsule::new_verified(e, v, signature), Some(s.capsule));
    assert!(Capsule::new_verified(e, v, signature).unwrap().verify());

    // Each part replaced by another breaks the binding.
    assert_eq!(Capsule::new_verified(v, e, signature), None);
    let other_scalar = library_scalar(&(backend_scalar(&signature) + Scalar::ONE));
    assert_eq!(Capsule::new_verified(e, v, other_scalar), None);
    let other_point = library_point(&(backend_point(&e) + ProjectivePoint::GENERATOR));
    assert_eq!(Capsule::new_verified(other_point, v, signature), None);
    assert_eq!(Capsule::new_verified(e, other_point, signature), None);
    for _ in 0..8 {
        let e = library_point(&(ProjectivePoint::GENERATOR * random_scalar()));
        let v = library_point(&(ProjectivePoint::GENERATOR * random_scalar()));
        let signature = library_scalar(&random_scalar());
        assert_eq!(Capsule::new_verified(e, v, signature), None);
    }
}

#[test]
fn test_from_secrets_exact() {
    let delegating_sk = SecretKey::random();
    let delegating_pk = delegating_sk.public_key();
    let r = random_scalar();
    let u = random_scalar();
    let (capsule, key_seed) =
        Capsule::from_secrets(&delegating_pk, &library_scalar(&r), &library_scalar(&u));

    let point_r = ProjectivePoint::GENERATOR * r;
    let point_u = ProjectivePoint::GENERATOR * u;
    let h = hash_capsule_points(&library_point(&point_r), &library_point(&point_u));
    let h = backend_scalar(&h);
    let (e, v, signature) = capsule_points(&capsule);
    assert_eq!(e, library_point(&point_r));
    assert_eq!(v, library_point(&point_u));
    assert_eq!(signature, library_scalar(&(u + r * h)));
    assert_eq!(
        key_seed,
        library_point(&(backend_point(&delegating_pk.to_point()) * (r + u)))
    );
    assert!(capsule.verify());
    assert_eq!(capsule.open_original(&delegating_sk), key_seed);
}

#[test]
fn test_from_public_key_is_fresh() {
    let delegating_pk = SecretKey::random().public_key();
    let (capsule, key_seed) = Capsule::from_public_key(&delegating_pk);
    let (capsule2, key_seed2) = Capsule::from_public_key(&delegating_pk);
    assert!(capsule.verify());
    assert!(capsule2.verify());
    assert_ne!(capsule, capsule2);
    assert_ne!(key_seed, key_seed2);
}

#[test]
fn test_round_trip_many() {
    for _ in 0..5 {
        let delegating_pk = SecretKey::random().public_key();
        let (capsule, _) = Capsule::from_public_key(&delegating_pk);
        let bytes = capsule.to_array();
        assert_eq!(bytes.len(), 98);
        assert_eq!(Capsule::from_array(&bytes), Ok(capsule));
        assert_eq!(Capsule::from_array(&bytes).unwrap().to_array(), bytes);
    }
}

#[test]
fn test_from_array_rejects() {
    let delegating_pk = SecretKey::random().public_key();
    let (capsule, _) = Capsule::from_public_key(&delegating_pk);
    let bytes = capsule.to_array();

    // A signature that is a scalar, but not the one that binds the points.
    let (_, _, signature) = capsule_points(&capsule);
    let other = (backend_scalar(&signature) + Scalar::ONE).to_bytes();
    let mut tampered = bytes;
    tampered[66..98].copy_from_slice(&other);
    assert_eq!(
        Capsule::from_array(&tampered),
        Err(ConstructionError::SelfVerificationFailed)
    );

    // The two points exchanged.
    let mut swapped = bytes;
    swapped[0..33].copy_from_slice(&bytes[33..66]);
    swapped[33..66].copy_from_slice(&bytes[0..33]);
    assert_eq!(
        Capsule::from_array(&swapped),
        Err(ConstructionError::SelfVerificationFailed)
    );

    // A signature that is no scalar: the group order itself.
    let mut no_scalar = bytes;
    no_scalar[66..98].copy_from_slice(&ORDER);
    assert_eq!(Capsule::from_array(&no_scalar), Err(ConstructionError::InvalidScalar));

    // A first point, then a second point, with a tag that no compressed point has.
    let mut no_point = bytes;
    no_point[0] = 0x07;
    assert_eq!(Capsule::from_array(&no_point), Err(ConstructionError::InvalidPoint));
    let mut no_point = bytes;
    no_point[33] = 0x04;
    assert_eq!(Capsule::from_array(&no_point), Err(ConstructionError::InvalidPoint));

    // Both a point and the scalar are wrong: the point is named.
    let mut both = no_scalar;
    both[33] = 0x04;
    assert_eq!(Capsule::from_array(&both), Err(ConstructionError::InvalidPoint));

    assert_eq!(Capsule::from_array(&[0xFFu8; 98]), Err(ConstructionError::InvalidPoint));

    // Two identity points are bound by the scalar zero, and by no other.
    assert!(Capsule::from_array(&[0u8; 98]).unwrap().verify());
    let mut one = [0u8; 98];
    one[97] = 1;
    assert_eq!(Capsule::from_array(&one), Err(ConstructionError::SelfVerificationFailed));
}

#[test]
fn test_lambda_coeff_exact() {
    let xs = [small_scalar(1), small_scalar(2), small_scalar(3)];
    // 2 * 3 / ((2 - 1) * (3 - 1)) = 3
    assert_eq!(lambda_coeff(&xs, 0), Some(small_scalar(3)));
    // 1 * 3 / ((1 - 2) * (3 - 2)) = -3
    assert_eq!(lambda_coeff(&xs, 1), Some(library_scalar(&(-Scalar::from(3u64)))));
    // 1 * 2 / ((1 - 3) * (2 - 3)) = 1
    assert_eq!(lambda_coeff(&xs, 2), Some(small_scalar(1)));

    // A single coordinate has the empty product as its coefficient.
    assert_eq!(lambda_coeff(&[small_scalar(7)], 0), Some(CurveScalar::one()));

    // 5 / (5 - 2) and 2 / (2 - 5)
    let xs = [small_scalar(2), small_scalar(5)];
    let third = Option::<Scalar>::from(Scalar::from(3u64).invert()).unwrap();
    assert_eq!(lambda_coeff(&xs, 0), Some(library_scalar(&(Scalar::from(5u64) * third))));
    assert_eq!(lambda_coeff(&xs, 1), Some(library_scalar(&(-Scalar::from(2u64) * third))));
}

#[test]
fn test_lambda_coeff_sums_to_one() {
    let xs: Vec<CurveScalar> = (0..5).map(|_| library_scalar(&random_scalar())).collect();
    let mut sum = Scalar::ZERO;
    for i in 0..xs.len() {
        sum += backend_scalar(&lambda_coeff(&xs, i).unwrap());
    }
    assert_eq!(sum, Scalar::ONE);
}

#[test]
fn test_lambda_coeff_duplicates() {
    let xs = [small_scalar(4), small_scalar(9), small_scalar(4), small_scalar(6)];
    assert_eq!(lambda_coeff(&xs, 0), None);
    assert_eq!(lambda_coeff(&xs, 2), None);
    // The coordinates 9 and 6 occur once: their coefficients exist.
    assert!(lambda_coeff(&xs, 1).is_some());
    assert!(lambda_coeff(&xs, 3).is_some());
    let xs = [small_scalar(0), small_scalar(0)];
    assert_eq!(lambda_coeff(&xs, 1), None);
}

#[test]
fn test_error_messages() {
    assert_eq!(OpenReencryptedError::NoCapsuleFrags.message(), "Empty CapsuleFrag sequence");
    assert_eq!(
        OpenReencryptedError::MismatchedCapsuleFrags.message(),
        "CapsuleFrags are not pairwise consistent"
    );
    assert_eq!(
        OpenReencryptedError::RepeatingCapsuleFrags.message(),
        "Some of the CapsuleFrags are repeated"
    );
    assert_eq!(OpenReencryptedError::ZeroHash.message(), "An internally hashed value is zero");
    assert_eq!(OpenReencryptedError::ValidationFailed.message(), "Internal validation failed");
    assert_eq!(ConstructionError::InvalidPoint.message(), "Failed to construct a CurvePoint");
    assert_eq!(ConstructionError::InvalidScalar.message(), "Failed to construct a CurveScalar");
    assert_eq!(ConstructionError::SelfVerificationFailed.message(), "Self-verification failed");
}

#[test]
fn test_scalar_encoding() {
    let mut one = [0u8; 32];
    one[31] = 1;
    assert_eq!(CurveScalar::one().to_bytes(), one);
    assert_eq!(CurveScalar::from_bytes(&one), Some(CurveScalar::one()));
    assert!(!CurveScalar::one().is_zero());
    assert!(CurveScalar::from_bytes(&[0u8; 32]).unwrap().is_zero());
    let mut high = [0u8; 32];
    high[0] = 1;
    assert!(!CurveScalar::from_bytes(&high).unwrap().is_zero());

    assert_eq!(CurveScalar::from_bytes(&ORDER), None);
    assert_eq!(CurveScalar::from_bytes(&[0xFF; 32]), None);
    let mut below = ORDER;
    below[31] -= 1;
    assert_eq!(CurveScalar::from_bytes(&below).unwrap().to_bytes(), below);
}

#[test]
fn test_point_encoding() {
    let generator = ProjectivePoint::GENERATOR.to_bytes();
    let mut bytes = [0u8; 33];
    bytes.copy_from_slice(&generator);
    let point = CurvePoint::from_bytes(&bytes).unwrap();
    assert_eq!(point.to_bytes(), bytes);
    assert!(point.equals(&point));

    // The identity is encoded by zeros.
    let identity = CurvePoint::from_bytes(&[0u8; 33]).unwrap();
    assert_eq!(backend_point(&identity), ProjectivePoint::IDENTITY);
    assert!(!identity.equals(&point));

    // The same coordinate under the tag of the compact form is not canonical.
    let mut compact = bytes;
    compact[0] = 0x05;
    assert_eq!(CurvePoint::from_bytes(&compact), None);
    // The other parity is another point.
    let mut negated = bytes;
    negated[0] ^= 0x01;
    let negated = CurvePoint::from_bytes(&negated).unwrap();
    assert_eq!(backend_point(&negated), -ProjectivePoint::GENERATOR);
    assert!(!negated.equals(&point));
    // No point of the curve has the coordinate 5.
    let mut off_curve = [0u8; 33];
    off_curve[0] = 0x02;
    off_curve[32] = 5;
    assert_eq!(CurvePoint::from_bytes(&off_curve), None);
    assert_eq!(CurvePoint::from_bytes(&[0xFF; 33]), None);
}

#[test]
fn test_keys() {
    let sk = SecretKey::random();
    let scalar = sk.to_secret_scalar();
    assert!(!scalar.is_zero());
    assert_eq!(SecretKey::from_scalar(scalar), Some(sk));
    assert_eq!(SecretKey::from_scalar(small_scalar(0)), None);
    let expected = ProjectivePoint::GENERATOR * backend_scalar(&scalar);
    assert_eq!(sk.public_key().to_point(), library_point(&expected));
    assert_eq!(PublicKey::from_point(library_point(&expected)), sk.public_key());
    assert_ne!(SecretKey::random(), sk);

    let one = SecretKey::from_scalar(CurveScalar::one()).unwrap();
    assert_eq!(one.public_key().to_point(), library_point(&ProjectivePoint::GENERATOR));
}

fn reduced_digest(message: &[u8]) -> CurveScalar {
    let digest = Sha256::digest(message);
    library_scalar(&<Scalar as Reduce<U256>>::reduce_bytes(&digest))
}

#[test]
fn test_hashes_exact() {
    let p = library_point(&(ProjectivePoint::GENERATOR * Scalar::from(2u64)));
    let q = library_point(&(ProjectivePoint::GENERATOR * Scalar::from(3u64)));
    let r = library_point(&(ProjectivePoint::GENERATOR * Scalar::from(5u64)));
    let id = [0xABu8; 32];

    let mut message = vec![1u8];
    message.extend_from_slice(&p.to_bytes());
    message.extend_from_slice(&q.to_bytes());
    assert_eq!(hash_capsule_points(&p, &q), reduced_digest(&message));

    let mut message = vec![2u8];
    message.extend_from_slice(&p.to_bytes());
    message.extend_from_slice(&q.to_bytes());
    message.extend_from_slice(&r.to_bytes());
    message.extend_from_slice(&id);
    assert_eq!(hash_to_polynomial_arg(&p, &q, &r, &id), reduced_digest(&message));

    let mut message = vec![3u8];
    message.extend_from_slice(&p.to_bytes());
    message.extend_from_slice(&q.to_bytes());
    message.extend_from_slice(&r.to_bytes());
    assert_eq!(hash_to_shared_secret(&p, &q, &r), reduced_digest(&message));
}

#[test]
fn test_hashes_are_separated() {
    let p = library_point(&(ProjectivePoint::GENERATOR * Scalar::from(2u64)));
    let q = library_point(&(ProjectivePoint::GENERATOR * Scalar::from(3u64)));
    let r = library_point(&(ProjectivePoint::GENERATOR * Scalar::from(5u64)));
    assert_ne!(hash_capsule_points(&p, &q), hash_capsule_points(&q, &p));
    assert_ne!(hash_to_shared_secret(&p, &q, &r), hash_to_polynomial_arg(&p, &q, &r, &[0u8; 32]));
    assert_ne!(
        hash_to_polynomial_arg(&p, &q, &r, &[0u8; 32]),
        hash_to_polynomial_arg(&p, &q, &r, &[1u8; 32])
    );
    assert_eq!(hash_to_shared_secret(&p, &q, &r), hash_to_shared_secret(&p, &q, &r));
}

#[test]
fn test_zero_signature_fits_any_key() {
    // The capsule of two identity points and the signature zero is well formed,
    // and the validation cannot tell one delegator from another on it.
    let capsule = Capsule::from_array(&[0u8; 98]).unwrap();
    let identity = CurvePoint::from_bytes(&[0u8; 33]).unwrap();
    let precursor = library_point(&(ProjectivePoint::GENERATOR * random_scalar()));
    let cfrags = [
        CapsuleFrag { point_e1: identity, point_v1: identity, kfrag_id: [1u8; 32], precursor },
        CapsuleFrag { point_e1: identity, point_v1: identity, kfrag_id: [2u8; 32], precursor },
    ];
    let receiving_sk = SecretKey::random();
    for _ in 0..3 {
        let delegating_sk = SecretKey::random();
        assert_eq!(
            capsule.open_reencrypted(&receiving_sk, &delegating_sk.public_key(), &cfrags),
            Ok(identity)
        );
        assert_eq!(capsule.open_original(&delegating_sk), identity);
    }
}
