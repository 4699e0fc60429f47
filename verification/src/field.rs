//! The scalar field of secp256k1 as arithmetic on natural numbers modulo the
//! group order, and the big-endian reading of byte strings.

use vstd::prelude::*;
use vstd::arithmetic::div_mod::{
    lemma_add_mod_noop, lemma_sub_mod_noop, lemma_mul_mod_noop, lemma_mul_mod_noop_left,
    lemma_mul_mod_noop_right, lemma_small_mod, lemma_mod_bound, lemma_fundamental_div_mod,
};
use vstd::arithmetic::mul::{lemma_mul_is_associative, lemma_mul_is_commutative};

verus! {

/// The order of the secp256k1 group, which is also the modulus of its scalar field.
pub open spec fn group_order() -> nat {
    0xFFFFFFFFFFFFFFFFFFFFFFFFFFFFFFFEBAAEDCE6AF48A03BBFD25E8CD0364141nat
}

/// The number that a byte string denotes when read big-endian.
pub open spec fn be_value(bytes: Seq<u8>) -> nat
    decreases bytes.len(),
{
    if bytes.len() == 0 {
        0
    } else {
        be_value(bytes.drop_last()) * 256 + bytes.last() as nat
    }
}

/// Sum in the scalar field.
pub open spec fn field_add(a: nat, b: nat) -> nat {
    (a + b) % group_order()
}

/// Difference in the scalar field.
pub open spec fn field_sub(a: nat, b: nat) -> nat {
    ((a as int - b as int) % (group_order() as int)) as nat
}

/// Product in the scalar field.
pub open spec fn field_mul(a: nat, b: nat) -> nat {
    (a * b) % group_order()
}

/// Whether `b` is the multiplicative inverse of `a` in the scalar field.
pub open spec fn is_inverse_of(b: nat, a: nat) -> bool {
    b < group_order() && field_mul(b, a) == 1
}

/// The multiplicative inverse of `a` in the scalar field, where it has one.
pub open spec fn field_inverse(a: nat) -> nat {
    choose|b: nat| is_inverse_of(b, a)
}

/// A field operation gives a number below the group order.
pub proof fn lemma_field_bounds(a: nat, b: nat)
    ensures
        field_add(a, b) < group_order(),
        field_sub(a, b) < group_order(),
        field_mul(a, b) < group_order(),
{
    lemma_mod_bound(a as int - b as int, group_order() as int);
}

/// Addition in the field may reduce its arguments first, and is associative
/// and commutative.
pub proof fn lemma_field_add(a: nat, b: nat, c: nat)
    ensures
        field_add(field_add(a, b), c) == (a + b + c) % group_order(),
        field_add(a, field_add(b, c)) == (a + b + c) % group_order(),
        field_add(a, b) == field_add(b, a),
{
    let n = group_order() as int;
    lemma_add_mod_noop(a as int + b as int, c as int, n);
    lemma_add_mod_noop(a as int, b as int + c as int, n);
    lemma_small_mod(field_add(a, b), group_order());
    lemma_small_mod(field_add(b, c), group_order());
    lemma_add_mod_noop(field_add(a, b) as int, c as int, n);
    lemma_add_mod_noop(a as int, field_add(b, c) as int, n);
}

/// Multiplication in the field may reduce its arguments first, and is
/// associative and commutative.
pub proof fn lemma_field_mul(a: nat, b: nat, c: nat)
    ensures
        field_mul(field_mul(a, b), c) == (a * b * c) % group_order(),
        field_mul(a, field_mul(b, c)) == (a * b * c) % group_order(),
        field_mul(a, b) == field_mul(b, a),
{
    let n = group_order() as int;
    lemma_mul_mod_noop_left(a as int * b as int, c as int, n);
    lemma_mul_mod_noop_right(a as int, b as int * c as int, n);
    lemma_mul_is_associative(a as int, b as int, c as int);
    lemma_mul_is_commutative(a as int, b as int);
}

/// A number has at most one inverse in the field.
pub proof fn lemma_inverse_unique(a: nat, b: nat, c: nat)
    requires
        is_inverse_of(b, a),
        is_inverse_of(c, a),
    ensures
        b == c,
{
    // b == b * (a * c) == (b * a) * c == c, all in the field
    lemma_field_mul(b, a, c);
    lemma_field_mul(c, a, b);
    lemma_field_mul(a, c, b);
    assert(field_mul(a, c) == 1);
    assert(field_mul(b, 1) == b) by {
        assert(b * 1 == b);
        lemma_small_mod(b, group_order());
    }
    assert(field_mul(1, c) == c) by {
        assert(1 * c == c);
        lemma_small_mod(c, group_order());
    }
}

/// The inverse that a number has is the one that `field_inverse` names.
pub proof fn lemma_inverse_is(a: nat, b: nat)
    requires
        is_inverse_of(b, a),
    ensures
        field_inverse(a) == b,
{
    lemma_inverse_unique(a, b, field_inverse(a));
}

/// Two numbers below the group order differ by zero in the field exactly
/// when they are equal.
pub proof fn lemma_field_sub_zero(a: nat, b: nat)
    requires
        a < group_order(),
        b < group_order(),
    ensures
        field_sub(a, b) == 0 <==> a == b,
{
    let n = group_order() as int;
    let d = a as int - b as int;
    if a == b {
        lemma_small_mod(0, group_order());
    } else if a > b {
        lemma_small_mod(d as nat, group_order());
    } else {
        lemma_fundamental_div_mod(d, n);
        lemma_mod_bound(d, n);
        if d % n == 0 {
            let q = d / n;
            assert(d == n * q);
            assert(-n < d < 0);
            assert(q < 0 ==> n * q <= -n) by (nonlinear_arith)
                requires
                    n > 0,
            ;
            assert(q >= 0 ==> n * q >= 0) by (nonlinear_arith)
                requires
                    n > 0,
            ;
        }
    }
}

/// Whether every scalar other than zero has an inverse: whether the scalars
/// form a field. They do, the group order being prime; that is not proved
/// here, and what rests on it says so.
pub open spec fn is_field() -> bool {
    forall|a: nat| 0 < a < group_order() ==> is_inverse_of(#[trigger] field_inverse(a), a)
}

/// Whether the scalar `v` is the residue of the integer `i`.
pub open spec fn reduces(v: nat, i: int) -> bool {
    v == i % (group_order() as int)
}

/// A scalar is its own residue.
pub proof fn lemma_reduces_scalar(v: nat)
    requires
        v < group_order(),
    ensures
        reduces(v, v as int),
{
    lemma_small_mod(v, group_order());
}

/// The residue of a sum is the sum of the residues, in the field.
pub proof fn lemma_reduces_add(a: nat, i: int, b: nat, j: int)
    requires
        reduces(a, i),
        reduces(b, j),
    ensures
        reduces(field_add(a, b), i + j),
{
    lemma_add_mod_noop(i, j, group_order() as int);
}

/// The residue of a difference is the difference of the residues, in the field.
pub proof fn lemma_reduces_sub(a: nat, i: int, b: nat, j: int)
    requires
        reduces(a, i),
        reduces(b, j),
    ensures
        reduces(field_sub(a, b), i - j),
{
    lemma_sub_mod_noop(i, j, group_order() as int);
}

/// The residue of a product is the product of the residues, in the field.
pub proof fn lemma_reduces_mul(a: nat, i: int, b: nat, j: int)
    requires
        reduces(a, i),
        reduces(b, j),
    ensures
        reduces(field_mul(a, b), i * j),
{
    lemma_mul_mod_noop(i, j, group_order() as int);
}

/// A factor that an inverse cancels may be left out of a residue.
pub proof fn lemma_reduces_cancel(v: nat, i: int, b: nat, a: nat)
    requires
        reduces(v, i * (b * a)),
        is_inverse_of(b, a),
    ensures
        reduces(v, i),
{
    lemma_mul_mod_noop_right(i, (b * a) as int, group_order() as int);
    assert(i * 1 == i);
}

} // verus!
