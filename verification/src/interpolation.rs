//! Polynomials over the scalar field, and their interpolation at zero from
//! their values at distinct coordinates: what makes a shared secret come back
//! from enough of its shares.

use vstd::prelude::*;
use vstd::seq_lib::{
    lemma_fold_left_permutation, commutative_foldl, lemma_seq_union_to_multiset_commutative,
};
use crate::field::{
    group_order, field_add, field_sub, field_mul, field_inverse, is_inverse_of, is_field, reduces,
    lemma_field_bounds, lemma_field_sub_zero, lemma_reduces_scalar, lemma_reduces_add,
    lemma_reduces_sub, lemma_reduces_mul, lemma_reduces_cancel,
};
use crate::capsule::{lagrange_factor, lagrange_coefficient};

verus! {

/// Whether all of the numbers are scalars: below the group order.
pub open spec fn all_scalars(xs: Seq<nat>) -> bool {
    forall|i: int| 0 <= i < xs.len() ==> #[trigger] xs[i] < group_order()
}

/// Whether the numbers are scalars of which no two are equal.
pub open spec fn distinct_scalars(xs: Seq<nat>) -> bool {
    &&& all_scalars(xs)
    &&& forall|i: int, j: int| 0 <= i < j < xs.len() ==> xs[i] != xs[j]
}

/// The value at `x` of the polynomial with the given coefficients, the
/// constant one first.
pub open spec fn polynomial_value(coefficients: Seq<nat>, x: nat) -> nat
    decreases coefficients.len(),
{
    if coefficients.len() == 0 {
        0
    } else {
        field_add(coefficients[0], field_mul(x, polynomial_value(coefficients.drop_first(), x)))
    }
}

/// The coefficients of the quotient of a polynomial by `x - a`.
pub open spec fn quotient(coefficients: Seq<nat>, a: nat) -> Seq<nat>
    decreases coefficients.len(),
{
    if coefficients.len() <= 1 {
        Seq::empty()
    } else {
        seq![polynomial_value(coefficients.drop_first(), a)] + quotient(
            coefficients.drop_first(),
            a,
        )
    }
}

/// The sum in the field of a term over a list of numbers.
pub open spec fn field_sum(nodes: Seq<nat>, term: spec_fn(nat) -> nat) -> nat
    decreases nodes.len(),
{
    if nodes.len() == 0 {
        0
    } else {
        field_add(field_sum(nodes.drop_last(), term), term(nodes.last()))
    }
}

/// The Lagrange coefficient of a coordinate among the coordinates `xs`, as a
/// term to sum.
pub open spec fn weight(xs: Seq<nat>) -> spec_fn(nat) -> nat {
    |x: nat| lagrange_coefficient(xs, x)
}

/// The value of a polynomial at a coordinate, weighted by the Lagrange
/// coefficient of the coordinate among the coordinates `xs`.
pub open spec fn weighted_value(xs: Seq<nat>, coefficients: Seq<nat>) -> spec_fn(nat) -> nat {
    |x: nat| field_mul(lagrange_coefficient(xs, x), polynomial_value(coefficients, x))
}

/// The value of a polynomial is a scalar.
pub proof fn lemma_value_bound(coefficients: Seq<nat>, x: nat)
    ensures
        polynomial_value(coefficients, x) < group_order(),
{
    if coefficients.len() > 0 {
        lemma_field_bounds(
            coefficients[0],
            field_mul(x, polynomial_value(coefficients.drop_first(), x)),
        );
    }
}

/// The quotient by `x - a` has one coefficient less.
pub proof fn lemma_quotient_len(coefficients: Seq<nat>, a: nat)
    ensures
        quotient(coefficients, a).len() == if coefficients.len() == 0 {
            0
        } else {
            coefficients.len() - 1
        },
    decreases coefficients.len(),
{
    if coefficients.len() > 1 {
        lemma_quotient_len(coefficients.drop_first(), a);
    }
}

/// A polynomial is its value at `a` and `x - a` times its quotient by `x - a`.
pub proof fn lemma_quotient(coefficients: Seq<nat>, a: nat, z: nat)
    requires
        a < group_order(),
        z < group_order(),
    ensures
        polynomial_value(coefficients, z) == field_add(
            polynomial_value(coefficients, a),
            field_mul(field_sub(z, a), polynomial_value(quotient(coefficients, a), z)),
        ),
    decreases coefficients.len(),
{
    let c = coefficients;
    let ai = a as int;
    let zi = z as int;
    lemma_reduces_scalar(a);
    lemma_reduces_scalar(z);
    lemma_reduces_scalar(0);
    lemma_reduces_sub(z, zi, a, ai);
    if c.len() == 0 {
        lemma_reduces_mul(field_sub(z, a), zi - ai, 0, 0);
        lemma_reduces_add(0, 0, field_mul(field_sub(z, a), 0), (zi - ai) * 0);
        assert(0 + (zi - ai) * 0 == 0);
    } else {
        let h = c.drop_first();
        let q = quotient(h, a);
        let ha = polynomial_value(h, a);
        let hz = polynomial_value(h, z);
        let qz = polynomial_value(q, z);
        let c0 = c[0] % group_order();
        let hai = ha as int;
        let qzi = qz as int;
        let c0i = c[0] as int;
        lemma_quotient(h, a, z);
        lemma_value_bound(h, a);
        lemma_value_bound(q, z);
        lemma_reduces_scalar(ha);
        lemma_reduces_scalar(qz);
        assert(reduces(c0, c0i));
        // the value of the rest, by induction
        lemma_reduces_mul(field_sub(z, a), zi - ai, qz, qzi);
        lemma_reduces_add(ha, hai, field_mul(field_sub(z, a), qz), (zi - ai) * qzi);
        assert(reduces(hz, hai + (zi - ai) * qzi));
        // the left side
        let left = polynomial_value(c, z);
        lemma_reduces_mul(z, zi, hz, hai + (zi - ai) * qzi);
        lemma_reduces_add(c0, c0i, field_mul(z, hz), zi * (hai + (zi - ai) * qzi));
        lemma_same_sum(c[0], field_mul(z, hz));
        assert(reduces(left, c0i + zi * (hai + (zi - ai) * qzi)));
        // the right side
        let fa = polynomial_value(c, a);
        lemma_reduces_mul(a, ai, ha, hai);
        lemma_reduces_add(c0, c0i, field_mul(a, ha), ai * hai);
        lemma_same_sum(c[0], field_mul(a, ha));
        assert(reduces(fa, c0i + ai * hai));
        let big = quotient(c, a);
        let bz = polynomial_value(big, z);
        if c.len() == 1 {
            assert(big.len() == 0);
            assert(h.len() == 0);
            assert(bz == 0);
            lemma_reduces_mul(field_sub(z, a), zi - ai, 0, 0);
            lemma_reduces_add(fa, c0i + ai * hai, field_mul(field_sub(z, a), 0), (zi - ai) * 0);
            assert(c0i + zi * (hai + (zi - ai) * qzi) == c0i + ai * hai + (zi - ai) * 0)
                by (nonlinear_arith)
                requires
                    hai == 0,
                    qzi == 0,
            ;
        } else {
            assert(big[0] == ha);
            assert(big.drop_first() =~= q);
            lemma_reduces_mul(z, zi, qz, qzi);
            lemma_reduces_add(ha, hai, field_mul(z, qz), zi * qzi);
            lemma_same_sum(ha, field_mul(z, qz));
            assert(reduces(bz, hai + zi * qzi));
            lemma_reduces_mul(field_sub(z, a), zi - ai, bz, hai + zi * qzi);
            lemma_reduces_add(
                fa,
                c0i + ai * hai,
                field_mul(field_sub(z, a), bz),
                (zi - ai) * (hai + zi * qzi),
            );
            assert(c0i + zi * (hai + (zi - ai) * qzi) == c0i + ai * hai + (zi - ai) * (hai + zi
                * qzi)) by (nonlinear_arith);
        }
    }
}

/// A sum in the field does not change when its first term is reduced.
proof fn lemma_same_sum(a: nat, b: nat)
    ensures
        field_add(a % group_order(), b) == field_add(a, b),
{
    let n = group_order() as int;
    vstd::arithmetic::div_mod::lemma_add_mod_noop(a as int, b as int, n);
    vstd::arithmetic::div_mod::lemma_add_mod_noop((a % group_order()) as int, b as int, n);
    vstd::arithmetic::div_mod::lemma_mod_twice(a as int, n);
}

/// A sum in the field is a scalar.
pub proof fn lemma_sum_bound(nodes: Seq<nat>, term: spec_fn(nat) -> nat)
    ensures
        field_sum(nodes, term) < group_order(),
{
    if nodes.len() > 0 {
        lemma_field_bounds(field_sum(nodes.drop_last(), term), term(nodes.last()));
    }
}

/// The sum over a list is the term of its first number and the sum over the
/// rest.
pub proof fn lemma_sum_first(x: nat, rest: Seq<nat>, term: spec_fn(nat) -> nat)
    ensures
        field_sum(seq![x] + rest, term) == field_add(term(x), field_sum(rest, term)),
    decreases rest.len(),
{
    let all = seq![x] + rest;
    if rest.len() == 0 {
        assert(all.drop_last() =~= Seq::<nat>::empty());
        assert(all.last() == x);
        assert(field_sum(all.drop_last(), term) == 0);
        assert(field_sum(rest, term) == 0);
        assert(field_sum(all, term) == field_add(0, term(x)));
        crate::field::lemma_field_add(0, term(x), 0);
    } else {
        assert(all.drop_last() =~= seq![x] + rest.drop_last());
        assert(all.last() == rest.last());
        assert(field_sum(all, term) == field_add(
            field_sum(seq![x] + rest.drop_last(), term),
            term(rest.last()),
        ));
        lemma_sum_first(x, rest.drop_last(), term);
        crate::field::lemma_field_add(
            term(x),
            field_sum(rest.drop_last(), term),
            term(rest.last()),
        );
    }
}

/// Where each term is a fixed multiple of another, so is the sum.
pub proof fn lemma_sum_scaled(
    nodes: Seq<nat>,
    scaled: spec_fn(nat) -> nat,
    term: spec_fn(nat) -> nat,
    k: nat,
)
    requires
        forall|i: int|
            0 <= i < nodes.len() ==> scaled(#[trigger] nodes[i]) == field_mul(k, term(nodes[i])),
    ensures
        field_sum(nodes, scaled) == field_mul(k, field_sum(nodes, term)),
    decreases nodes.len(),
{
    let ki = k as int;
    if nodes.len() == 0 {
        assert(ki * 0 == 0);
        lemma_reduces_scalar(0);
    } else {
        let rest = nodes.drop_last();
        let x = nodes.last();
        assert forall|i: int| 0 <= i < rest.len() implies scaled(#[trigger] rest[i]) == field_mul(
            k,
            term(rest[i]),
        ) by {
            assert(rest[i] == nodes[i]);
        }
        lemma_sum_scaled(rest, scaled, term, k);
        assert(nodes[nodes.len() - 1] == x);
        let s = field_sum(rest, term);
        let t = term(x);
        let si = s as int;
        let ti = t as int;
        // k * (s + t) == k * s + k * t, in the field
        assert(reduces(field_mul(k, s), ki * si));
        assert(reduces(field_mul(k, t), ki * ti));
        lemma_reduces_add(field_mul(k, s), ki * si, field_mul(k, t), ki * ti);
        assert(reduces(field_add(s, t), si + ti));
        vstd::arithmetic::div_mod::lemma_mul_mod_noop_right(ki, si + ti, group_order() as int);
        assert(ki * (si + ti) == ki * si + ki * ti) by (nonlinear_arith);
    }
}

/// Where each term is the sum of two others, so is the sum.
pub proof fn lemma_sum_added(
    nodes: Seq<nat>,
    term: spec_fn(nat) -> nat,
    p: spec_fn(nat) -> nat,
    q: spec_fn(nat) -> nat,
)
    requires
        forall|i: int|
            0 <= i < nodes.len() ==> term(#[trigger] nodes[i]) == field_add(
                p(nodes[i]),
                q(nodes[i]),
            ),
    ensures
        field_sum(nodes, term) == field_add(field_sum(nodes, p), field_sum(nodes, q)),
    decreases nodes.len(),
{
    if nodes.len() == 0 {
        lemma_reduces_scalar(0);
    } else {
        let rest = nodes.drop_last();
        let x = nodes.last();
        assert forall|i: int| 0 <= i < rest.len() implies term(#[trigger] rest[i]) == field_add(
            p(rest[i]),
            q(rest[i]),
        ) by {
            assert(rest[i] == nodes[i]);
        }
        lemma_sum_added(rest, term, p, q);
        assert(nodes[nodes.len() - 1] == x);
        let sp = field_sum(rest, p);
        let sq = field_sum(rest, q);
        let (spi, sqi, pi, qi) = (sp as int, sq as int, p(x) as int, q(x) as int);
        // (sp + sq) + (p + q) == (sp + p) + (sq + q), in the field
        assert(reduces(field_add(sp, sq), spi + sqi));
        assert(reduces(field_add(p(x), q(x)), pi + qi));
        lemma_reduces_add(field_add(sp, sq), spi + sqi, field_add(p(x), q(x)), pi + qi);
        assert(reduces(field_add(sp, p(x)), spi + pi));
        assert(reduces(field_add(sq, q(x)), sqi + qi));
        lemma_reduces_add(field_add(sp, p(x)), spi + pi, field_add(sq, q(x)), sqi + qi);
    }
}

/// Where each term is the difference of two others, so is the sum.
pub proof fn lemma_sum_subtracted(
    nodes: Seq<nat>,
    term: spec_fn(nat) -> nat,
    p: spec_fn(nat) -> nat,
    q: spec_fn(nat) -> nat,
)
    requires
        forall|i: int|
            0 <= i < nodes.len() ==> term(#[trigger] nodes[i]) == field_sub(
                p(nodes[i]),
                q(nodes[i]),
            ),
    ensures
        field_sum(nodes, term) == field_sub(field_sum(nodes, p), field_sum(nodes, q)),
    decreases nodes.len(),
{
    if nodes.len() == 0 {
        lemma_reduces_scalar(0);
    } else {
        let rest = nodes.drop_last();
        let x = nodes.last();
        assert forall|i: int| 0 <= i < rest.len() implies term(#[trigger] rest[i]) == field_sub(
            p(rest[i]),
            q(rest[i]),
        ) by {
            assert(rest[i] == nodes[i]);
        }
        lemma_sum_subtracted(rest, term, p, q);
        assert(nodes[nodes.len() - 1] == x);
        let sp = field_sum(rest, p);
        let sq = field_sum(rest, q);
        let (spi, sqi, pi, qi) = (sp as int, sq as int, p(x) as int, q(x) as int);
        // (sp - sq) + (p - q) == (sp + p) - (sq + q), in the field
        assert(reduces(field_sub(sp, sq), spi - sqi));
        assert(reduces(field_sub(p(x), q(x)), pi - qi));
        lemma_reduces_add(field_sub(sp, sq), spi - sqi, field_sub(p(x), q(x)), pi - qi);
        assert(reduces(field_add(sp, p(x)), spi + pi));
        assert(reduces(field_add(sq, q(x)), sqi + qi));
        lemma_reduces_sub(field_add(sp, p(x)), spi + pi, field_add(sq, q(x)), sqi + qi);
    }
}

/// Where two terms agree on every number of a list, so do their sums.
pub proof fn lemma_sum_same(nodes: Seq<nat>, p: spec_fn(nat) -> nat, q: spec_fn(nat) -> nat)
    requires
        forall|i: int| 0 <= i < nodes.len() ==> p(#[trigger] nodes[i]) == q(nodes[i]),
    ensures
        field_sum(nodes, p) == field_sum(nodes, q),
    decreases nodes.len(),
{
    if nodes.len() > 0 {
        let rest = nodes.drop_last();
        assert forall|i: int| 0 <= i < rest.len() implies p(#[trigger] rest[i]) == q(rest[i]) by {
            assert(rest[i] == nodes[i]);
        }
        lemma_sum_same(rest, p, q);
        assert(nodes[nodes.len() - 1] == nodes.last());
    }
}

/// The factors of a Lagrange coefficient may be multiplied in any order.
pub proof fn lemma_factors_commute(x: nat, product: nat, y: nat, z: nat)
    ensures
        lagrange_factor(x)(lagrange_factor(x)(product, y), z) == lagrange_factor(x)(
            lagrange_factor(x)(product, z),
            y,
        ),
{
    if y != x && z != x {
        let a = field_inverse(field_sub(y, x));
        let b = field_inverse(field_sub(z, x));
        let (pi, yi, zi, ai, bi) = (product as int, y as int, z as int, a as int, b as int);
        let py = field_mul(field_mul(product, y), a);
        let pz = field_mul(field_mul(product, z), b);
        assert(reduces(field_mul(product, y), pi * yi));
        assert(reduces(a % group_order(), ai));
        assert(reduces(b % group_order(), bi));
        assert(reduces(y % group_order(), yi));
        assert(reduces(z % group_order(), zi));
        lemma_reduces_mul(field_mul(product, y), pi * yi, a % group_order(), ai);
        lemma_reduces_mul(field_mul(product, z), pi * zi, b % group_order(), bi);
        vstd::arithmetic::div_mod::lemma_mul_mod_noop_right(
            field_mul(product, y) as int,
            ai,
            group_order() as int,
        );
        vstd::arithmetic::div_mod::lemma_mul_mod_noop_right(
            field_mul(product, z) as int,
            bi,
            group_order() as int,
        );
        assert(reduces(py, pi * yi * ai));
        assert(reduces(pz, pi * zi * bi));
        lemma_reduces_mul(py, pi * yi * ai, z % group_order(), zi);
        lemma_reduces_mul(pz, pi * zi * bi, y % group_order(), yi);
        vstd::arithmetic::div_mod::lemma_mul_mod_noop_right(py as int, zi, group_order() as int);
        vstd::arithmetic::div_mod::lemma_mul_mod_noop_right(pz as int, yi, group_order() as int);
        assert(reduces(field_mul(py, z), pi * yi * ai * zi));
        assert(reduces(field_mul(pz, y), pi * zi * bi * yi));
        lemma_reduces_mul(field_mul(py, z), pi * yi * ai * zi, b % group_order(), bi);
        lemma_reduces_mul(field_mul(pz, y), pi * zi * bi * yi, a % group_order(), ai);
        vstd::arithmetic::div_mod::lemma_mul_mod_noop_right(
            field_mul(py, z) as int,
            bi,
            group_order() as int,
        );
        vstd::arithmetic::div_mod::lemma_mul_mod_noop_right(
            field_mul(pz, y) as int,
            ai,
            group_order() as int,
        );
        assert(pi * yi * ai * zi * bi == pi * zi * bi * yi * ai) by (nonlinear_arith);
    }
}

/// Part of a list of distinct scalars is a list of distinct scalars.
proof fn lemma_distinct_part(xs: Seq<nat>, from: int, to: int)
    requires
        distinct_scalars(xs),
        0 <= from <= to <= xs.len(),
    ensures
        distinct_scalars(xs.subrange(from, to)),
{
    let part = xs.subrange(from, to);
    assert forall|i: int| 0 <= i < part.len() implies #[trigger] part[i] < group_order() by {
        assert(part[i] == xs[from + i]);
    }
    assert forall|i: int, j: int| 0 <= i < j < part.len() implies part[i] != part[j] by {
        assert(part[i] == xs[from + i]);
        assert(part[j] == xs[from + j]);
    }
}

/// A Lagrange coefficient among one coordinate more, times the difference of
/// that coordinate and its own, is the coefficient among the others times
/// that coordinate. The coordinate joins at the end of the list.
proof fn lemma_weight_last(left: Seq<nat>, a: nat, x: nat)
    requires
        is_field(),
        a < group_order(),
        x < group_order(),
        x != a,
    ensures
        field_mul(lagrange_coefficient(left.push(a), x), field_sub(a, x)) == field_mul(
            lagrange_coefficient(left, x),
            a,
        ),
{
    let xs = left.push(a);
    assert(xs.drop_last() =~= left);
    assert(xs.last() == a);
    let l = lagrange_coefficient(left, x);
    let d = field_sub(a, x);
    let i = field_inverse(d);
    lemma_field_sub_zero(a, x);
    lemma_field_bounds(a, x);
    assert(is_inverse_of(i, d));
    let la = field_mul(l, a);
    assert(lagrange_coefficient(xs, x) == field_mul(la, i));
    lemma_field_bounds(l, a);
    lemma_reduces_scalar(la);
    lemma_reduces_scalar(i);
    lemma_reduces_scalar(d);
    lemma_reduces_mul(la, la as int, i, i as int);
    lemma_reduces_mul(field_mul(la, i), la as int * i as int, d, d as int);
    assert((la as int * i as int) * d as int == la as int * (i * d)) by (nonlinear_arith);
    lemma_reduces_cancel(field_mul(field_mul(la, i), d), la as int, i, d);
}

/// The same for a coordinate that joins at the start of the list.
proof fn lemma_weight_first(b: nat, right: Seq<nat>, x: nat)
    requires
        is_field(),
        b < group_order(),
        x < group_order(),
        x != b,
    ensures
        field_mul(lagrange_coefficient(seq![b] + right, x), field_sub(b, x)) == field_mul(
            lagrange_coefficient(right, x),
            b,
        ),
{
    let f = lagrange_factor(x);
    assert(commutative_foldl(f)) by {
        assert forall|y: nat, z: nat, v: nat| #[trigger] f(f(v, y), z) == f(f(v, z), y) by {
            lemma_factors_commute(x, v, y, z);
        }
    }
    lemma_seq_union_to_multiset_commutative(seq![b], right);
    assert(right + seq![b] =~= right.push(b));
    lemma_fold_left_permutation(seq![b] + right, right.push(b), f, 1nat);
    lemma_weight_last(right, b, x);
}

/// The Lagrange coefficients of distinct coordinates add up to one.
pub proof fn lemma_weights_sum(xs: Seq<nat>)
    requires
        is_field(),
        distinct_scalars(xs),
        xs.len() >= 1,
    ensures
        field_sum(xs, weight(xs)) == 1,
    decreases xs.len(),
{
    let w = weight(xs);
    let left = xs.drop_last();
    let right = xs.drop_first();
    let a = xs.last();
    let b = xs.first();
    assert(a == xs[xs.len() - 1] && b == xs[0]);
    if xs.len() == 1 {
        assert(left =~= Seq::<nat>::empty());
        assert(field_sum(left, w) == 0);
        assert(lagrange_coefficient(left, a) == 1);
        assert(lagrange_coefficient(xs, a) == 1);
        lemma_reduces_scalar(1);
    } else {
        lemma_distinct_part(xs, 0, xs.len() - 1);
        lemma_distinct_part(xs, 1, xs.len() as int);
        assert(left =~= xs.subrange(0, xs.len() - 1));
        assert(right =~= xs.subrange(1, xs.len() as int));
        lemma_weights_sum(left);
        lemma_weights_sum(right);
        let wl = weight(left);
        let wr = weight(right);
        let d = field_sub(a, b);
        let u = field_sum(xs, w);
        let ta = |x: nat| field_mul(w(x), field_sub(a, x));
        let tb = |x: nat| field_mul(w(x), field_sub(b, x));
        let td = |x: nat| field_mul(d, w(x));
        // The sum of the coefficients, times a - b.
        lemma_sum_scaled(xs, td, w, d);
        assert forall|i: int| 0 <= i < xs.len() implies td(#[trigger] xs[i]) == field_sub(
            ta(xs[i]),
            tb(xs[i]),
        ) by {
            let x = xs[i];
            let (wi, xi, ai, bi) = (w(x) as int, x as int, a as int, b as int);
            lemma_reduces_scalar(a);
            lemma_reduces_scalar(b);
            lemma_reduces_scalar(x);
            lemma_reduces_sub(a, ai, b, bi);
            lemma_reduces_sub(a, ai, x, xi);
            lemma_reduces_sub(b, bi, x, xi);
            assert(reduces(w(x) % group_order(), wi));
            vstd::arithmetic::div_mod::lemma_mul_mod_noop_left(wi, ai - xi, group_order() as int);
            vstd::arithmetic::div_mod::lemma_mul_mod_noop_left(wi, bi - xi, group_order() as int);
            lemma_reduces_mul(w(x) % group_order(), wi, field_sub(a, x), ai - xi);
            lemma_reduces_mul(w(x) % group_order(), wi, field_sub(b, x), bi - xi);
            vstd::arithmetic::div_mod::lemma_mul_mod_noop_left(
                wi,
                field_sub(a, x) as int,
                group_order() as int,
            );
            vstd::arithmetic::div_mod::lemma_mul_mod_noop_left(
                wi,
                field_sub(b, x) as int,
                group_order() as int,
            );
            assert(reduces(ta(x), wi * (ai - xi)));
            assert(reduces(tb(x), wi * (bi - xi)));
            lemma_reduces_sub(ta(x), wi * (ai - xi), tb(x), wi * (bi - xi));
            lemma_reduces_mul(d, ai - bi, w(x) % group_order(), wi);
            vstd::arithmetic::div_mod::lemma_mul_mod_noop_right(
                d as int,
                wi,
                group_order() as int,
            );
            assert(reduces(td(x), (ai - bi) * wi));
            assert(wi * (ai - xi) - wi * (bi - xi) == (ai - bi) * wi) by (nonlinear_arith);
        }
        lemma_sum_subtracted(xs, td, ta, tb);
        // The first of the two sums is a.
        let la = |x: nat| field_mul(a, wl(x));
        assert forall|i: int| 0 <= i < left.len() implies ta(#[trigger] left[i]) == la(
            left[i],
        ) by {
            let x = left[i];
            assert(x == xs[i]);
            assert(left.push(a) =~= xs);
            lemma_weight_last(left, a, x);
            crate::field::lemma_field_mul(a, wl(x), 1);
        }
        lemma_sum_same(left, ta, la);
        lemma_sum_scaled(left, la, wl, a);
        assert(field_sub(a, a) == 0) by {
            lemma_field_sub_zero(a, a);
        }
        assert(ta(a) == 0) by {
            assert(w(a) * 0 == 0);
            lemma_reduces_scalar(0);
        }
        assert(field_sum(xs, ta) == a) by {
            assert(a * 1 == a);
            lemma_reduces_scalar(a);
        }
        // The second is b.
        let lb = |x: nat| field_mul(b, wr(x));
        assert forall|i: int| 0 <= i < right.len() implies tb(#[trigger] right[i]) == lb(
            right[i],
        ) by {
            let x = right[i];
            assert(x == xs[i + 1]);
            assert(seq![b] + right =~= xs);
            lemma_weight_first(b, right, x);
            crate::field::lemma_field_mul(b, wr(x), 1);
        }
        lemma_sum_same(right, tb, lb);
        lemma_sum_scaled(right, lb, wr, b);
        assert(field_sub(b, b) == 0) by {
            lemma_field_sub_zero(b, b);
        }
        assert(tb(b) == 0) by {
            assert(w(b) * 0 == 0);
            lemma_reduces_scalar(0);
        }
        assert(field_sum(xs, tb) == b) by {
            assert(seq![b] + right =~= xs);
            lemma_sum_first(b, right, tb);
            assert(b * 1 == b);
            lemma_reduces_scalar(b);
            crate::field::lemma_field_add(0, b, 0);
        }
        // So the sum, times a - b, is a - b; and a - b has an inverse.
        assert(field_mul(d, u) == d);
        let inverse = field_inverse(d);
        lemma_field_sub_zero(a, b);
        lemma_field_bounds(a, b);
        assert(is_inverse_of(inverse, d));
        lemma_sum_bound(xs, w);
        lemma_reduces_scalar(u);
        lemma_reduces_scalar(d);
        lemma_reduces_scalar(inverse);
        lemma_reduces_mul(d, d as int, u, u as int);
        lemma_reduces_mul(inverse, inverse as int, d, d as int * u as int);
        assert(inverse as int * (d as int * u as int) == u as int * (inverse * d))
            by (nonlinear_arith);
        lemma_reduces_cancel(1, u as int, inverse, d);
    }
}

/// A Lagrange coefficient is a scalar.
pub proof fn lemma_weight_bound(xs: Seq<nat>, x: nat)
    ensures
        lagrange_coefficient(xs, x) < group_order(),
    decreases xs.len(),
{
    if xs.len() > 0 {
        lemma_weight_bound(xs.drop_last(), x);
        let before = lagrange_coefficient(xs.drop_last(), x);
        lemma_field_bounds(
            field_mul(before, xs.last()),
            field_inverse(field_sub(xs.last(), x)),
        );
    }
}

/// The values of a polynomial at distinct coordinates, at least as many as it
/// has coefficients, give its value at zero: each value is weighted by the
/// Lagrange coefficient of its coordinate, and the weighted values are summed.
pub proof fn lemma_interpolation(xs: Seq<nat>, coefficients: Seq<nat>)
    requires
        is_field(),
        distinct_scalars(xs),
        xs.len() >= 1,
        coefficients.len() <= xs.len(),
    ensures
        field_sum(xs, weighted_value(xs, coefficients)) == polynomial_value(coefficients, 0),
    decreases xs.len(),
{
    let c = coefficients;
    let w = weight(xs);
    let wv = weighted_value(xs, c);
    let left = xs.drop_last();
    let a = xs.last();
    assert(a == xs[xs.len() - 1]);
    let fa = polynomial_value(c, a);
    let fai = fa as int;
    let ai = a as int;
    lemma_value_bound(c, a);
    lemma_reduces_scalar(fa);
    lemma_reduces_scalar(a);
    lemma_reduces_scalar(0);
    lemma_reduces_scalar(1);
    if xs.len() == 1 {
        assert(left =~= Seq::<nat>::empty());
        assert(field_sum(left, wv) == 0);
        assert(lagrange_coefficient(left, a) == 1);
        assert(lagrange_coefficient(xs, a) == 1);
        assert(1 * fai == fai);
        assert(wv(a) == fa);
        assert(field_sum(xs, wv) == fa);
        if c.len() == 1 {
            let rest = c.drop_first();
            assert(polynomial_value(rest, a) == 0);
            assert(polynomial_value(rest, 0) == 0);
            assert(a * 0 == 0);
            assert(0 * 0 == 0);
        }
    } else {
        let g = quotient(c, a);
        let k = field_sub(0, a);
        let wvl = weighted_value(left, g);
        let p = |x: nat| field_mul(fa, w(x));
        let r = |x: nat| field_mul(field_mul(w(x), field_sub(x, a)), polynomial_value(g, x));
        let rl = |x: nat| field_mul(k, wvl(x));
        assert(left.push(a) =~= xs);
        lemma_distinct_part(xs, 0, xs.len() - 1);
        assert(left =~= xs.subrange(0, xs.len() - 1));
        lemma_quotient_len(c, a);
        lemma_interpolation(left, g);
        lemma_weights_sum(xs);
        lemma_reduces_sub(0, 0, a, ai);
        // Each weighted value falls into a part with the value at a and a
        // part with the quotient.
        assert forall|i: int| 0 <= i < xs.len() implies wv(#[trigger] xs[i]) == field_add(
            p(xs[i]),
            r(xs[i]),
        ) by {
            let x = xs[i];
            let gx = polynomial_value(g, x);
            let (wi, xi, gi) = (w(x) as int, x as int, gx as int);
            lemma_weight_bound(xs, x);
            lemma_value_bound(g, x);
            lemma_reduces_scalar(w(x));
            lemma_reduces_scalar(x);
            lemma_reduces_scalar(gx);
            lemma_quotient(c, a, x);
            lemma_reduces_sub(x, xi, a, ai);
            lemma_reduces_mul(field_sub(x, a), xi - ai, gx, gi);
            lemma_reduces_add(fa, fai, field_mul(field_sub(x, a), gx), (xi - ai) * gi);
            lemma_reduces_mul(w(x), wi, polynomial_value(c, x), fai + (xi - ai) * gi);
            lemma_reduces_mul(fa, fai, w(x), wi);
            lemma_reduces_mul(w(x), wi, field_sub(x, a), xi - ai);
            lemma_reduces_mul(field_mul(w(x), field_sub(x, a)), wi * (xi - ai), gx, gi);
            lemma_reduces_add(p(x), fai * wi, r(x), (wi * (xi - ai)) * gi);
            assert(wi * (fai + (xi - ai) * gi) == fai * wi + (wi * (xi - ai)) * gi)
                by (nonlinear_arith);
        }
        lemma_sum_added(xs, wv, p, r);
        // The first part sums to the value at a.
        lemma_sum_scaled(xs, p, w, fa);
        assert(field_sum(xs, p) == fa) by {
            assert(fai * 1 == fai);
        }
        // The second part sums, over the coordinates before a, to -a times
        // what the quotient interpolates to.
        assert forall|i: int| 0 <= i < left.len() implies r(#[trigger] left[i]) == rl(
            left[i],
        ) by {
            let x = left[i];
            assert(x == xs[i]);
            let gx = polynomial_value(g, x);
            let ll = lagrange_coefficient(left, x);
            let (wi, xi, gi, li) = (w(x) as int, x as int, gx as int, ll as int);
            let n = group_order() as int;
            lemma_weight_bound(xs, x);
            lemma_weight_bound(left, x);
            lemma_value_bound(g, x);
            lemma_reduces_scalar(w(x));
            lemma_reduces_scalar(ll);
            lemma_reduces_scalar(x);
            lemma_reduces_scalar(gx);
            lemma_weight_last(left, a, x);
            // w * (a - x) and l * a have the same residue
            lemma_reduces_sub(a, ai, x, xi);
            lemma_reduces_mul(w(x), wi, field_sub(a, x), ai - xi);
            lemma_reduces_mul(ll, li, a, ai);
            assert((wi * (ai - xi)) % n == (li * ai) % n);
            // and so have their negatives
            vstd::arithmetic::div_mod::lemma_sub_mod_noop(0, wi * (ai - xi), n);
            vstd::arithmetic::div_mod::lemma_sub_mod_noop(0, li * ai, n);
            assert((0 - wi * (ai - xi)) % n == (0 - li * ai) % n);
            lemma_reduces_sub(x, xi, a, ai);
            lemma_reduces_mul(w(x), wi, field_sub(x, a), xi - ai);
            assert(wi * (xi - ai) == 0 - wi * (ai - xi)) by (nonlinear_arith);
            let m = field_mul(w(x), field_sub(x, a));
            assert(reduces(m, 0 - li * ai));
            lemma_reduces_mul(m, 0 - li * ai, gx, gi);
            lemma_reduces_mul(ll, li, gx, gi);
            lemma_reduces_mul(k, 0 - ai, wvl(x), li * gi);
            assert((0 - li * ai) * gi == (0 - ai) * (li * gi)) by (nonlinear_arith);
        }
        lemma_sum_same(left, r, rl);
        lemma_sum_scaled(left, rl, wvl, k);
        assert(field_sub(a, a) == 0) by {
            lemma_field_sub_zero(a, a);
        }
        assert(r(a) == 0) by {
            assert(w(a) * 0 == 0);
            assert(0 * polynomial_value(g, a) == 0);
        }
        let tail = field_mul(k, polynomial_value(g, 0));
        assert(field_sum(xs, r) == tail) by {
            lemma_field_bounds(k, polynomial_value(g, 0));
            lemma_reduces_scalar(tail);
            lemma_reduces_add(tail, tail as int, 0, 0);
        }
        lemma_quotient(c, a, 0);
    }
}

} // verus!
