//! What holds of capsules whatever the keys and fragments: facts that relate
//! the operations on capsules to one another, stated over the same models as
//! their contracts.

use vstd::prelude::*;
use vstd::seq_lib::{
    lemma_fold_left_permutation, commutative_foldl, group_to_multiset_ensures, to_multiset_len,
};
use crate::field::{
    field_add, field_mul, field_inverse, group_order, is_field, is_inverse_of, reduces,
    lemma_field_add, lemma_field_mul, lemma_field_bounds, lemma_reduces_scalar, lemma_reduces_add,
    lemma_reduces_mul, lemma_reduces_cancel,
};
use crate::curve::CurvePoint;
use crate::hashing::{capsule_points_scalar, shared_secret_scalar};
use crate::interpolation::{
    distinct_scalars, field_sum, polynomial_value, weighted_value, lemma_factors_commute,
    lemma_interpolation, lemma_sum_bound, lemma_value_bound, lemma_weight_bound,
};
use crate::keys::PublicKey;
use crate::capsule_frag::CapsuleFrag;
use crate::capsule::{
    Capsule, ConstructionError, OpenReencryptedError, Session, session_of, coordinate, coordinates, same_precursor,
    has_repeats, lagrange_factor, lagrange_coefficient, combine_e, combine_v, reconstructed_e,
    reconstructed_v,
};

verus! {

/// A capsule that is made into bytes and back is the capsule that it was.
pub proof fn lemma_round_trip(capsule: Capsule)
    requires
        capsule.wf(),
    ensures
        Capsule::deserialized(capsule.serialized()) == Ok::<Capsule, ConstructionError>(capsule),
{
    let bytes = capsule.serialized();
    assert(bytes.subrange(0, 33) =~= capsule.point_e().encoding());
    assert(bytes.subrange(33, 66) =~= capsule.point_v().encoding());
    assert(bytes.subrange(66, 98) =~= capsule.signature().encoding());
    let chosen = choose|c: Capsule| c.wf() && c.serialized() == bytes;
    capsule.lemma_serialized_decides(chosen);
}

/// The key seed that a capsule encapsulates for a public key is the one that
/// the delegator opens with the secret key of which it is the public key.
pub proof fn lemma_delegator_opens(
    capsule: Capsule,
    key_seed: CurvePoint,
    delegating_pk: PublicKey,
    delegating_sk: nat,
    r: nat,
    u: nat,
)
    requires
        Capsule::encapsulates(capsule, key_seed, delegating_pk, r, u),
        delegating_pk@ == delegating_sk,
    ensures
        key_seed@ == capsule.original_outcome(delegating_sk),
        forall|opened: CurvePoint|
            opened.wf() && opened@ == capsule.original_outcome(delegating_sk) ==> opened
                == key_seed,
{
    lemma_field_mul(delegating_sk, field_add(r, u), 1);
    assert forall|opened: CurvePoint|
        opened.wf() && opened@ == capsule.original_outcome(delegating_sk) implies opened
        == key_seed by {
        opened.lemma_index_decides(key_seed);
    }
}

/// Without fragments a capsule is not opened, whatever the keys.
pub proof fn lemma_no_fragments(capsule: Capsule, receiving_sk: nat, delegating_pk: nat)
    ensures
        capsule.reencrypted_outcome(receiving_sk, delegating_pk, Seq::<CapsuleFrag>::empty())
            == Err::<nat, OpenReencryptedError>(OpenReencryptedError::NoCapsuleFrags),
{
}

/// Fragments of which two differ in their precursor are refused as
/// mismatched, whatever else they hold.
pub proof fn lemma_mismatched_precursors(
    capsule: Capsule,
    receiving_sk: nat,
    delegating_pk: nat,
    cfrags: Seq<CapsuleFrag>,
    i: int,
    j: int,
)
    requires
        0 <= i < cfrags.len(),
        0 <= j < cfrags.len(),
        cfrags[i].precursor != cfrags[j].precursor,
    ensures
        capsule.reencrypted_outcome(receiving_sk, delegating_pk, cfrags) == Err::<
            nat,
            OpenReencryptedError,
        >(OpenReencryptedError::MismatchedCapsuleFrags),
{
    if same_precursor(cfrags) {
        assert(cfrags[i].precursor == cfrags[0].precursor);
        assert(cfrags[j].precursor == cfrags[0].precursor);
    }
}

/// Fragments of one batch of which two have the same identifier are refused
/// as repeating: the two have the same coordinate.
pub proof fn lemma_repeated_identifier(
    capsule: Capsule,
    receiving_sk: nat,
    delegating_pk: nat,
    cfrags: Seq<CapsuleFrag>,
    i: int,
    j: int,
)
    requires
        0 <= i < j < cfrags.len(),
        same_precursor(cfrags),
        cfrags[i].kfrag_id == cfrags[j].kfrag_id,
    ensures
        capsule.reencrypted_outcome(receiving_sk, delegating_pk, cfrags) == Err::<
            nat,
            OpenReencryptedError,
        >(OpenReencryptedError::RepeatingCapsuleFrags),
{
    let session = session_of(cfrags[0].precursor, receiving_sk);
    let xs = coordinates(session, cfrags);
    assert(0 <= i < j < xs.len() && xs[i] == xs[j]);
}

/// Every fragment of a list occurs in each rearrangement of the list.
proof fn lemma_occurs(first: Seq<CapsuleFrag>, second: Seq<CapsuleFrag>, k: int) -> (m: int)
    requires
        first.to_multiset() == second.to_multiset(),
        0 <= k < first.len(),
    ensures
        0 <= m < second.len(),
        second[m] == first[k],
{
    broadcast use group_to_multiset_ensures;

    assert(first.contains(first[k]));
    assert(first.to_multiset().count(first[k]) > 0);
    assert(second.contains(first[k]));
    second.index_of(first[k])
}

/// Whether all fragments share a precursor does not depend on their order,
/// nor does the precursor that they share.
proof fn lemma_same_precursor(first: Seq<CapsuleFrag>, second: Seq<CapsuleFrag>)
    requires
        first.to_multiset() == second.to_multiset(),
        first.len() > 0,
        second.len() > 0,
        same_precursor(first),
    ensures
        same_precursor(second),
        second[0].precursor == first[0].precursor,
{
    assert forall|k: int| 0 <= k < second.len() implies (#[trigger] second[k]).precursor
        == first[0].precursor by {
        let m = lemma_occurs(second, first, k);
    }
}

/// Whether two fragments have the same coordinate does not depend on the
/// order of the fragments.
proof fn lemma_repeats(session: Session, first: Seq<CapsuleFrag>, second: Seq<CapsuleFrag>)
    requires
        first.to_multiset() == second.to_multiset(),
        has_repeats(coordinates(session, first)),
    ensures
        has_repeats(coordinates(session, second)),
{
    let xs = coordinates(session, first);
    let ys = coordinates(session, second);
    let (i, j) = choose|i: int, j: int| 0 <= i < j < xs.len() && xs[i] == xs[j];
    if first[i] == first[j] {
        if second.no_duplicates() {
            second.lemma_multiset_has_no_duplicates();
            first.lemma_multiset_has_no_duplicates_conv();
            assert(false);
        }
        let (m, n) = choose|m: int, n: int|
            0 <= m < second.len() && 0 <= n < second.len() && m != n && second[m] == second[n];
        if m < n {
            assert(0 <= m < n < ys.len() && ys[m] == ys[n]);
        } else {
            assert(0 <= n < m < ys.len() && ys[n] == ys[m]);
        }
    } else {
        let m = lemma_occurs(first, second, i);
        let n = lemma_occurs(first, second, j);
        if m < n {
            assert(0 <= m < n < ys.len() && ys[m] == ys[n]);
        } else {
            assert(0 <= n < m < ys.len() && ys[n] == ys[m]);
        }
    }
}

/// One factor of a Lagrange coefficient, taken from a fragment.
spec fn fragment_factor(session: Session, x: nat) -> spec_fn(nat, CapsuleFrag) -> nat {
    |product: nat, frag: CapsuleFrag| lagrange_factor(x)(product, coordinate(session, frag))
}

/// A Lagrange coefficient among the coordinates of fragments is a product
/// over the fragments.
proof fn lemma_coefficient_over_fragments(session: Session, frags: Seq<CapsuleFrag>, x: nat)
    ensures
        lagrange_coefficient(coordinates(session, frags), x) == frags.fold_left(
            1nat,
            fragment_factor(session, x),
        ),
    decreases frags.len(),
{
    let xs = coordinates(session, frags);
    if frags.len() > 0 {
        lemma_coefficient_over_fragments(session, frags.drop_last(), x);
        assert(xs.drop_last() =~= coordinates(session, frags.drop_last()));
    }
}

/// A Lagrange coefficient does not depend on the order of the fragments.
proof fn lemma_coefficient(
    session: Session,
    first: Seq<CapsuleFrag>,
    second: Seq<CapsuleFrag>,
    x: nat,
)
    requires
        first.to_multiset() == second.to_multiset(),
    ensures
        lagrange_coefficient(coordinates(session, first), x) == lagrange_coefficient(
            coordinates(session, second),
            x,
        ),
{
    let f = fragment_factor(session, x);
    assert(commutative_foldl(f)) by {
        assert forall|a: CapsuleFrag, b: CapsuleFrag, v: nat| #[trigger]
            f(f(v, a), b) == f(f(v, b), a) by {
            lemma_factors_commute(x, v, coordinate(session, a), coordinate(session, b));
        }
    }
    lemma_fold_left_permutation(first, second, f, 1nat);
    lemma_coefficient_over_fragments(session, first, x);
    lemma_coefficient_over_fragments(session, second, x);
}

/// The points that a batch reconstructs do not depend on the order of its
/// fragments.
proof fn lemma_reconstructed(session: Session, first: Seq<CapsuleFrag>, second: Seq<CapsuleFrag>)
    requires
        first.to_multiset() == second.to_multiset(),
    ensures
        reconstructed_e(session, first) == reconstructed_e(session, second),
        reconstructed_v(session, first) == reconstructed_v(session, second),
{
    let xs = coordinates(session, first);
    let ys = coordinates(session, second);
    let e = combine_e(session, xs);
    let v = combine_v(session, xs);
    assert forall|x: nat| #[trigger]
        lagrange_coefficient(xs, x) == lagrange_coefficient(ys, x) by {
        lemma_coefficient(session, first, second, x);
    }
    assert(e =~= combine_e(session, ys));
    assert(v =~= combine_v(session, ys));
    assert(commutative_foldl(e)) by {
        assert forall|a: CapsuleFrag, b: CapsuleFrag, sum: nat| #[trigger]
            e(e(sum, a), b) == e(e(sum, b), a) by {
            let s = field_mul(a.point_e1@, lagrange_coefficient(xs, coordinate(session, a)));
            let t = field_mul(b.point_e1@, lagrange_coefficient(xs, coordinate(session, b)));
            lemma_field_add(sum, s, t);
            lemma_field_add(sum, t, s);
        }
    }
    assert(commutative_foldl(v)) by {
        assert forall|a: CapsuleFrag, b: CapsuleFrag, sum: nat| #[trigger]
            v(v(sum, a), b) == v(v(sum, b), a) by {
            let s = field_mul(a.point_v1@, lagrange_coefficient(xs, coordinate(session, a)));
            let t = field_mul(b.point_v1@, lagrange_coefficient(xs, coordinate(session, b)));
            lemma_field_add(sum, s, t);
            lemma_field_add(sum, t, s);
        }
    }
    lemma_fold_left_permutation(first, second, e, 0nat);
    lemma_fold_left_permutation(first, second, v, 0nat);
}

/// Opening a capsule gives the same, key seed or failure, for the same
/// fragments in any order.
pub proof fn lemma_order_independence(
    capsule: Capsule,
    receiving_sk: nat,
    delegating_pk: nat,
    first: Seq<CapsuleFrag>,
    second: Seq<CapsuleFrag>,
)
    requires
        first.to_multiset() == second.to_multiset(),
    ensures
        capsule.reencrypted_outcome(receiving_sk, delegating_pk, first)
            == capsule.reencrypted_outcome(receiving_sk, delegating_pk, second),
{
    to_multiset_len(first);
    to_multiset_len(second);
    if first.len() > 0 {
        if same_precursor(first) {
            lemma_same_precursor(first, second);
        }
        if same_precursor(second) {
            lemma_same_precursor(second, first);
        }
        if same_precursor(first) {
            let session = session_of(first[0].precursor, receiving_sk);
            assert(session == session_of(second[0].precursor, receiving_sk));
            if has_repeats(coordinates(session, first)) {
                lemma_repeats(session, first, second);
            }
            if has_repeats(coordinates(session, second)) {
                lemma_repeats(session, second, first);
            }
            lemma_reconstructed(session, first, second);
        }
    }
}

/// Whether a fragment is the re-encryption of a capsule with a share of a
/// secret: whether its two points are the capsule's, each times the value that
/// the polynomial with the given coefficients has at the fragment's
/// coordinate.
pub open spec fn is_reencryption(
    capsule: Capsule,
    session: Session,
    coefficients: Seq<nat>,
    frag: CapsuleFrag,
) -> bool {
    let share = polynomial_value(coefficients, coordinate(session, frag));
    &&& frag.point_e1@ == field_mul(capsule.point_e()@, share)
    &&& frag.point_v1@ == field_mul(capsule.point_v()@, share)
}

/// Where each fragment adds a point times a share to a sum, weighted by its
/// Lagrange coefficient, the fragments add up to the point times the sum of
/// the weighted shares.
proof fn lemma_reconstruction(
    session: Session,
    frags: Seq<CapsuleFrag>,
    combine: spec_fn(nat, CapsuleFrag) -> nat,
    point: nat,
    coefficients: Seq<nat>,
    n: int,
)
    requires
        0 <= n <= frags.len(),
        forall|sum: nat, i: int|
            0 <= i < frags.len() ==> #[trigger] combine(sum, frags[i]) == field_add(
                sum,
                field_mul(
                    field_mul(
                        point,
                        polynomial_value(coefficients, coordinate(session, frags[i])),
                    ),
                    lagrange_coefficient(
                        coordinates(session, frags),
                        coordinate(session, frags[i]),
                    ),
                ),
            ),
    ensures
        frags.take(n).fold_left(0nat, combine) == field_mul(
            point,
            field_sum(
                coordinates(session, frags).take(n),
                weighted_value(coordinates(session, frags), coefficients),
            ),
        ),
    decreases n,
{
    let xs = coordinates(session, frags);
    let wv = weighted_value(xs, coefficients);
    let pi = point as int;
    if n == 0 {
        assert(frags.take(0) =~= Seq::<CapsuleFrag>::empty());
        assert(xs.take(0) =~= Seq::<nat>::empty());
        assert(pi * 0 == 0);
        lemma_reduces_scalar(0);
    } else {
        lemma_reconstruction(session, frags, combine, point, coefficients, n - 1);
        assert(frags.take(n).drop_last() =~= frags.take(n - 1));
        assert(frags.take(n).last() == frags[n - 1]);
        assert(xs.take(n).drop_last() =~= xs.take(n - 1));
        assert(xs.take(n).last() == xs[n - 1]);
        let x = xs[n - 1];
        let before = field_sum(xs.take(n - 1), wv);
        let share = polynomial_value(coefficients, x);
        let weight = lagrange_coefficient(xs, x);
        let (bi, si, wi) = (before as int, share as int, weight as int);
        lemma_sum_bound(xs.take(n - 1), wv);
        lemma_value_bound(coefficients, x);
        lemma_weight_bound(xs, x);
        lemma_reduces_scalar(before);
        lemma_reduces_scalar(share);
        lemma_reduces_scalar(weight);
        assert(reduces(point % group_order(), pi));
        vstd::arithmetic::div_mod::lemma_mul_mod_noop_left(pi, bi, group_order() as int);
        vstd::arithmetic::div_mod::lemma_mul_mod_noop_left(pi, si, group_order() as int);
        assert(reduces(field_mul(point, before), pi * bi));
        assert(reduces(field_mul(point, share), pi * si));
        lemma_reduces_mul(field_mul(point, share), pi * si, weight, wi);
        lemma_reduces_add(
            field_mul(point, before),
            pi * bi,
            field_mul(field_mul(point, share), weight),
            (pi * si) * wi,
        );
        lemma_reduces_mul(weight, wi, share, si);
        lemma_reduces_add(before, bi, wv(x), wi * si);
        vstd::arithmetic::div_mod::lemma_mul_mod_noop_right(
            pi,
            bi + wi * si,
            group_order() as int,
        );
        assert(pi * bi + (pi * si) * wi == pi * (bi + wi * si)) by (nonlinear_arith);
    }
}

/// Whether fragments are a batch made for a capsule: whether they share a
/// precursor and each re-encrypts the capsule with a share of the delegator's
/// secret over the secret shared with the receiver. The shares are the values
/// of a polynomial whose constant coefficient is that quotient, and there are
/// at least as many fragments as the polynomial has coefficients.
pub open spec fn is_batch_for(
    capsule: Capsule,
    delegating_sk: nat,
    receiving_sk: nat,
    coefficients: Seq<nat>,
    cfrags: Seq<CapsuleFrag>,
) -> bool {
    let session = session_of(cfrags[0].precursor, receiving_sk);
    let d = shared_secret_scalar(session.precursor, session.pub_key, session.dh_point);
    &&& same_precursor(cfrags)
    &&& 0 < coefficients.len() <= cfrags.len()
    &&& coefficients[0] == field_mul(delegating_sk, field_inverse(d))
    &&& forall|i: int|
        0 <= i < cfrags.len() ==> is_reencryption(
            capsule,
            session,
            coefficients,
            #[trigger] cfrags[i],
        )
}

/// Whether a batch gets as far as the reconstruction: whether no two of its
/// fragments have the same coordinate and the secret shared with the receiver
/// does not hash to zero.
pub open spec fn is_reconstructible(receiving_sk: nat, cfrags: Seq<CapsuleFrag>) -> bool {
    let session = session_of(cfrags[0].precursor, receiving_sk);
    &&& !has_repeats(coordinates(session, cfrags))
    &&& shared_secret_scalar(session.precursor, session.pub_key, session.dh_point) != 0
}

/// A hash to a scalar is a scalar.
proof fn lemma_hash_bound(message: Seq<u8>)
    ensures
        crate::hashing::message_scalar(message) < group_order(),
{
    vstd::arithmetic::div_mod::lemma_mod_bound(
        crate::field::be_value(crate::hashing::sha256_digest(message)) as int,
        group_order() as int,
    );
}

/// A batch made for a capsule reconstructs the capsule's points, each times
/// the delegator's secret over the secret shared with the receiver; and that
/// secret has an inverse.
proof fn lemma_batch_reconstructs(
    capsule: Capsule,
    delegating_sk: nat,
    receiving_sk: nat,
    coefficients: Seq<nat>,
    cfrags: Seq<CapsuleFrag>,
)
    requires
        is_field(),
        is_batch_for(capsule, delegating_sk, receiving_sk, coefficients, cfrags),
        is_reconstructible(receiving_sk, cfrags),
    ensures
        ({
            let session = session_of(cfrags[0].precursor, receiving_sk);
            let d = shared_secret_scalar(session.precursor, session.pub_key, session.dh_point);
            let share = field_mul(delegating_sk, field_inverse(d));
            &&& d < group_order()
            &&& is_inverse_of(field_inverse(d), d)
            &&& reconstructed_e(session, cfrags) == field_mul(capsule.point_e()@, share)
            &&& reconstructed_v(session, cfrags) == field_mul(capsule.point_v()@, share)
        }),
{
    let session = session_of(cfrags[0].precursor, receiving_sk);
    let xs = coordinates(session, cfrags);
    let d = shared_secret_scalar(session.precursor, session.pub_key, session.dh_point);
    let share = coefficients[0];
    // The coordinates are distinct scalars, so the shares interpolate.
    assert(distinct_scalars(xs)) by {
        assert forall|i: int| 0 <= i < xs.len() implies #[trigger] xs[i] < group_order() by {
            lemma_hash_bound(
                crate::hashing::polynomial_arg_message(
                    session.precursor,
                    session.pub_key,
                    session.dh_point,
                    cfrags[i].kfrag_id@,
                ),
            );
        }
    }
    lemma_interpolation(xs, coefficients);
    assert(polynomial_value(coefficients, 0) == share) by {
        let rest = polynomial_value(coefficients.drop_first(), 0);
        lemma_field_bounds(delegating_sk, field_inverse(d));
        lemma_reduces_scalar(share);
        lemma_reduces_scalar(0);
        assert(reduces(field_mul(0, rest), 0)) by {
            assert(0 * rest == 0);
        }
        lemma_reduces_add(share, share as int, field_mul(0, rest), 0);
    }
    lemma_reconstruction(
        session,
        cfrags,
        combine_e(session, xs),
        capsule.point_e()@,
        coefficients,
        cfrags.len() as int,
    );
    lemma_reconstruction(
        session,
        cfrags,
        combine_v(session, xs),
        capsule.point_v()@,
        coefficients,
        cfrags.len() as int,
    );
    assert(cfrags.take(cfrags.len() as int) =~= cfrags);
    assert(xs.take(cfrags.len() as int) =~= xs);
    // The shared secret is a scalar other than zero, so it has an inverse.
    lemma_hash_bound(
        crate::hashing::shared_secret_message(
            session.precursor,
            session.pub_key,
            session.dh_point,
        ),
    );
}

/// A receiver opens a capsule to the key seed that it encapsulates, which is
/// the one that the delegator opens it to, given a batch of fragments that was
/// made for the capsule.
///
/// Left out are the batches that are refused before any reconstruction. That
/// the scalars form a field is a premise.
pub proof fn lemma_receiver_opens(
    capsule: Capsule,
    key_seed: CurvePoint,
    delegating_pk: PublicKey,
    delegating_sk: nat,
    receiving_sk: nat,
    r: nat,
    u: nat,
    coefficients: Seq<nat>,
    cfrags: Seq<CapsuleFrag>,
)
    requires
        is_field(),
        Capsule::encapsulates(capsule, key_seed, delegating_pk, r, u),
        delegating_pk.wf(),
        delegating_pk@ == delegating_sk,
        is_batch_for(capsule, delegating_sk, receiving_sk, coefficients, cfrags),
        is_reconstructible(receiving_sk, cfrags),
    ensures
        capsule.reencrypted_outcome(receiving_sk, delegating_sk, cfrags) == Ok::<
            nat,
            OpenReencryptedError,
        >(key_seed@),
        capsule.reencrypted_outcome(receiving_sk, delegating_sk, cfrags) == Ok::<
            nat,
            OpenReencryptedError,
        >(capsule.original_outcome(delegating_sk)),
{
    let session = session_of(cfrags[0].precursor, receiving_sk);
    let d = shared_secret_scalar(session.precursor, session.pub_key, session.dh_point);
    let inverse = field_inverse(d);
    let h = capsule_points_scalar(capsule.point_e().encoding(), capsule.point_v().encoding());
    let s = capsule.signature()@;
    let a = delegating_sk;
    let share = field_mul(a, inverse);
    let e = reconstructed_e(session, cfrags);
    let v = reconstructed_v(session, cfrags);
    lemma_batch_reconstructs(capsule, delegating_sk, receiving_sk, coefficients, cfrags);
    capsule.point_e().lemma_index();
    capsule.point_v().lemma_index();
    delegating_pk.point().lemma_index();
    let (ri, ui, ai) = (r as int, u as int, a as int);
    let (ii, di, hi) = (inverse as int, d as int, h as int);
    lemma_reduces_scalar(r);
    lemma_reduces_scalar(u);
    lemma_reduces_scalar(a);
    lemma_reduces_scalar(inverse);
    lemma_reduces_scalar(d);
    lemma_hash_bound(
        crate::hashing::capsule_points_message(
            capsule.point_e().encoding(),
            capsule.point_v().encoding(),
        ),
    );
    lemma_reduces_scalar(h);
    lemma_reduces_mul(a, ai, inverse, ii);
    lemma_reduces_mul(r, ri, share, ai * ii);
    lemma_reduces_mul(u, ui, share, ai * ii);
    // the validation
    lemma_reduces_mul(r, ri, h, hi);
    lemma_reduces_add(u, ui, field_mul(r, h), ri * hi);
    lemma_reduces_mul(s, ui + ri * hi, inverse, ii);
    lemma_reduces_mul(a, ai, field_mul(s, inverse), (ui + ri * hi) * ii);
    lemma_reduces_mul(e, ri * (ai * ii), h, hi);
    lemma_reduces_add(field_mul(e, h), (ri * (ai * ii)) * hi, v, ui * (ai * ii));
    assert(ai * ((ui + ri * hi) * ii) == (ri * (ai * ii)) * hi + ui * (ai * ii))
        by (nonlinear_arith);
    // the key seed
    lemma_reduces_add(e, ri * (ai * ii), v, ui * (ai * ii));
    lemma_reduces_mul(field_add(e, v), ri * (ai * ii) + ui * (ai * ii), d, di);
    let opened = field_mul(field_add(e, v), d);
    assert((ri * (ai * ii) + ui * (ai * ii)) * di == (ai * (ri + ui)) * (ii * di))
        by (nonlinear_arith);
    lemma_reduces_cancel(opened, ai * (ri + ui), inverse, d);
    lemma_reduces_add(r, ri, u, ui);
    lemma_reduces_mul(a, ai, field_add(r, u), ri + ui);
    assert(opened == key_seed@);
    lemma_delegator_opens(capsule, key_seed, delegating_pk, delegating_sk, r, u);
}

/// Two scalars are equal where their products with two scalars that have
/// inverses have the same residue.
proof fn lemma_cancel_factor(x: nat, y: nat, f: nat, g: nat, a: nat, b: nat)
    requires
        x < group_order(),
        y < group_order(),
        is_inverse_of(g, f),
        is_inverse_of(b, a),
        (x * (f * a)) % group_order() == (y * (f * a)) % group_order(),
    ensures
        x == y,
{
    let n = group_order() as int;
    let (xi, yi, fi, ai, bi, gi) = (x as int, y as int, f as int, a as int, b as int, g as int);
    let k = bi * gi;
    // multiply both sides by b * g
    vstd::arithmetic::div_mod::lemma_mul_mod_noop_left(xi * (fi * ai), k, n);
    vstd::arithmetic::div_mod::lemma_mul_mod_noop_left(yi * (fi * ai), k, n);
    assert(((xi * (fi * ai)) * k) % n == ((yi * (fi * ai)) * k) % n);
    lemma_cancel_twice(xi, fi, ai, bi, gi);
    lemma_cancel_twice(yi, fi, ai, bi, gi);
    lemma_reduces_scalar(x);
    lemma_reduces_scalar(y);
}

/// A product with two factors that have the residue one each has the residue
/// of what is left.
proof fn lemma_cancel_twice(x: int, f: int, a: int, b: int, g: int)
    requires
        (b * a) % (group_order() as int) == 1,
        (g * f) % (group_order() as int) == 1,
    ensures
        ((x * (f * a)) * (b * g)) % (group_order() as int) == x % (group_order() as int),
{
    let n = group_order() as int;
    assert((x * (f * a)) * (b * g) == (x * (b * a)) * (g * f)) by (nonlinear_arith);
    vstd::arithmetic::div_mod::lemma_mul_mod_noop_right(x * (b * a), g * f, n);
    assert((x * (b * a)) * 1 == x * (b * a));
    vstd::arithmetic::div_mod::lemma_mul_mod_noop_right(x, b * a, n);
    assert(x * 1 == x);
}

/// With a public key other than the delegator's, a batch made for a capsule
/// does not open it: the reconstruction is not valid. Left out are the
/// capsules whose signature is zero, which any key fits.
pub proof fn lemma_wrong_delegator_refused(
    capsule: Capsule,
    delegating_sk: nat,
    other_pk: nat,
    receiving_sk: nat,
    coefficients: Seq<nat>,
    cfrags: Seq<CapsuleFrag>,
)
    requires
        is_field(),
        capsule.wf(),
        is_batch_for(capsule, delegating_sk, receiving_sk, coefficients, cfrags),
        is_reconstructible(receiving_sk, cfrags),
        delegating_sk < group_order(),
        other_pk < group_order(),
        other_pk != delegating_sk,
        capsule.signature()@ != 0,
    ensures
        capsule.reencrypted_outcome(receiving_sk, other_pk, cfrags) == Err::<
            nat,
            OpenReencryptedError,
        >(OpenReencryptedError::ValidationFailed),
{
    let n = group_order() as int;
    let session = session_of(cfrags[0].precursor, receiving_sk);
    let d = shared_secret_scalar(session.precursor, session.pub_key, session.dh_point);
    let inverse = field_inverse(d);
    let h = capsule_points_scalar(capsule.point_e().encoding(), capsule.point_v().encoding());
    let s = capsule.signature()@;
    let a = delegating_sk;
    let share = field_mul(a, inverse);
    let e = reconstructed_e(session, cfrags);
    let v = reconstructed_v(session, cfrags);
    let pe = capsule.point_e()@;
    let pv = capsule.point_v()@;
    lemma_batch_reconstructs(capsule, delegating_sk, receiving_sk, coefficients, cfrags);
    capsule.point_e().lemma_index();
    capsule.point_v().lemma_index();
    let left = field_mul(other_pk, field_mul(s, inverse));
    let right = field_add(field_mul(e, h), v);
    if left == right {
        let (oi, ai, ei, vi, ii, hi, si) = (
            other_pk as int,
            a as int,
            pe as int,
            pv as int,
            inverse as int,
            h as int,
            s as int,
        );
        lemma_reduces_scalar(other_pk);
        lemma_reduces_scalar(a);
        lemma_reduces_scalar(pe);
        lemma_reduces_scalar(pv);
        lemma_reduces_scalar(inverse);
        lemma_reduces_scalar(s);
        lemma_hash_bound(
            crate::hashing::capsule_points_message(
                capsule.point_e().encoding(),
                capsule.point_v().encoding(),
            ),
        );
        lemma_reduces_scalar(h);
        // the left side is other * (s * inverse)
        lemma_reduces_mul(s, si, inverse, ii);
        lemma_reduces_mul(other_pk, oi, field_mul(s, inverse), si * ii);
        // the right side is a * (s * inverse), the signature binding the points
        lemma_reduces_mul(a, ai, inverse, ii);
        lemma_reduces_mul(pe, ei, share, ai * ii);
        lemma_reduces_mul(pv, vi, share, ai * ii);
        lemma_reduces_mul(e, ei * (ai * ii), h, hi);
        lemma_reduces_add(field_mul(e, h), (ei * (ai * ii)) * hi, v, vi * (ai * ii));
        lemma_reduces_mul(pe, ei, h, hi);
        lemma_reduces_add(pv, vi, field_mul(pe, h), ei * hi);
        assert(reduces(s, vi + ei * hi));
        assert((ei * (ai * ii)) * hi + vi * (ai * ii) == (vi + ei * hi) * (ai * ii))
            by (nonlinear_arith);
        vstd::arithmetic::div_mod::lemma_mul_mod_noop_left(vi + ei * hi, ai * ii, n);
        vstd::arithmetic::div_mod::lemma_mul_mod_noop_left(si, ai * ii, n);
        assert(reduces(right, si * (ai * ii)));
        assert(si * (ai * ii) == ai * (si * ii)) by (nonlinear_arith);
        // so other and a agree after s and the inverse are cancelled
        assert(is_inverse_of(field_inverse(s), s));
        assert((other_pk * (s * inverse)) % group_order() == (a * (s * inverse)) % group_order());
        lemma_cancel_factor(a, other_pk, s, field_inverse(s), inverse, d);
        assert(false);
    }
}

/// A batch made for one capsule does not open another: the reconstruction is
/// not valid. Left out are the capsules whose signature happens to bind the
/// points of the first capsule under the hash of their own.
pub proof fn lemma_other_capsule_refused(
    capsule: Capsule,
    other: Capsule,
    delegating_sk: nat,
    receiving_sk: nat,
    coefficients: Seq<nat>,
    cfrags: Seq<CapsuleFrag>,
)
    requires
        is_field(),
        capsule.wf(),
        other.wf(),
        is_batch_for(capsule, delegating_sk, receiving_sk, coefficients, cfrags),
        is_reconstructible(receiving_sk, cfrags),
        0 < delegating_sk < group_order(),
        other.signature()@ != field_add(
            capsule.point_v()@,
            field_mul(
                capsule.point_e()@,
                capsule_points_scalar(other.point_e().encoding(), other.point_v().encoding()),
            ),
        ),
    ensures
        other.reencrypted_outcome(receiving_sk, delegating_sk, cfrags) == Err::<
            nat,
            OpenReencryptedError,
        >(OpenReencryptedError::ValidationFailed),
{
    let n = group_order() as int;
    let session = session_of(cfrags[0].precursor, receiving_sk);
    let d = shared_secret_scalar(session.precursor, session.pub_key, session.dh_point);
    let inverse = field_inverse(d);
    let h = capsule_points_scalar(other.point_e().encoding(), other.point_v().encoding());
    let s = other.signature()@;
    let a = delegating_sk;
    let share = field_mul(a, inverse);
    let e = reconstructed_e(session, cfrags);
    let v = reconstructed_v(session, cfrags);
    let pe = capsule.point_e()@;
    let pv = capsule.point_v()@;
    let bound = field_add(pv, field_mul(pe, h));
    lemma_batch_reconstructs(capsule, delegating_sk, receiving_sk, coefficients, cfrags);
    capsule.point_e().lemma_index();
    capsule.point_v().lemma_index();
    let left = field_mul(a, field_mul(s, inverse));
    let right = field_add(field_mul(e, h), v);
    if left == right {
        let (ai, ei, vi, ii, hi, si, bi) = (
            a as int,
            pe as int,
            pv as int,
            inverse as int,
            h as int,
            s as int,
            bound as int,
        );
        lemma_reduces_scalar(a);
        lemma_reduces_scalar(pe);
        lemma_reduces_scalar(pv);
        lemma_reduces_scalar(inverse);
        lemma_reduces_scalar(s);
        lemma_field_bounds(pv, field_mul(pe, h));
        lemma_reduces_scalar(bound);
        lemma_hash_bound(
            crate::hashing::capsule_points_message(
                other.point_e().encoding(),
                other.point_v().encoding(),
            ),
        );
        lemma_reduces_scalar(h);
        // the left side is s * (a * inverse)
        lemma_reduces_mul(s, si, inverse, ii);
        lemma_reduces_mul(a, ai, field_mul(s, inverse), si * ii);
        assert(ai * (si * ii) == si * (ai * ii)) by (nonlinear_arith);
        // the right side is bound * (a * inverse)
        lemma_reduces_mul(a, ai, inverse, ii);
        lemma_reduces_mul(pe, ei, share, ai * ii);
        lemma_reduces_mul(pv, vi, share, ai * ii);
        lemma_reduces_mul(e, ei * (ai * ii), h, hi);
        lemma_reduces_add(field_mul(e, h), (ei * (ai * ii)) * hi, v, vi * (ai * ii));
        lemma_reduces_mul(pe, ei, h, hi);
        lemma_reduces_add(pv, vi, field_mul(pe, h), ei * hi);
        assert((ei * (ai * ii)) * hi + vi * (ai * ii) == (vi + ei * hi) * (ai * ii))
            by (nonlinear_arith);
        vstd::arithmetic::div_mod::lemma_mul_mod_noop_left(vi + ei * hi, ai * ii, n);
        vstd::arithmetic::div_mod::lemma_mul_mod_noop_left(bi, ai * ii, n);
        assert(reduces(right, bi * (ai * ii)));
        // so s and bound agree after a and the inverse are cancelled
        assert(is_inverse_of(field_inverse(a), a));
        assert((s * (a * inverse)) % group_order() == (bound * (a * inverse)) % group_order());
        lemma_cancel_factor(s, bound, a, field_inverse(a), inverse, d);
        assert(false);
    }
}

} // verus!
