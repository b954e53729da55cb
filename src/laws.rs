use vstd::prelude::*;

verus! {

use crate::bigdecimal::{
    Model, Kind, add_model, sub_model, mul_model, div_model, rem_model, neg_model, equals, less, max_prec,
    zero_model, round_value, int_value, scaled, common_base, DEFAULT_PRECISION,
};
use crate::magnitude::{pow2, power, lemma_pow2_unfold};
use crate::rounding::{lemma_round_exact, round_ratio};

/// Every binary operation returns its result at the larger of its operands'
/// precisions.
pub proof fn law_precision_is_max(x: Model, y: Model)
    requires
        x.wf(),
        y.wf(),
    ensures
        add_model(x, y).prec == max_prec(x, y),
        sub_model(x, y).prec == max_prec(x, y),
        mul_model(x, y).prec == max_prec(x, y),
        div_model(x, y).prec == max_prec(x, y),
        rem_model(x, y).prec == max_prec(x, y),
        neg_model(x).prec == x.prec,
{
}

/// NaN is unordered: it is neither equal to, below nor above any value, itself
/// included.
pub proof fn law_nan_unordered(x: Model, y: Model)
    requires
        x.is_nan(),
    ensures
        !equals(x, y),
        !equals(y, x),
        !less(x, y),
        !less(y, x),
{
}

/// Equality is reflexive on every value but NaN, and symmetric.
pub proof fn law_equality(x: Model, y: Model)
    requires
        x.wf(),
        y.wf(),
    ensures
        !x.is_nan() ==> equals(x, x),
        equals(x, y) == equals(y, x),
{
}

/// Zeros are equal whatever their signs and precisions.
pub proof fn law_signed_zeros_equal(p: nat, q: nat, a: bool, b: bool)
    ensures
        equals(zero_model(p, a), zero_model(q, b)),
{
}

/// Negating twice gives the value back.
pub proof fn law_double_negation(x: Model)
    requires
        x.wf(),
    ensures
        neg_model(neg_model(x)) == x,
        !x.is_nan() ==> equals(neg_model(neg_model(x)), x),
{
}

/// A number less itself is zero.
pub proof fn law_self_difference_is_zero(x: Model)
    requires
        x.wf(),
        x.is_number(),
    ensures
        sub_model(x, x).kind is Zero,
        equals(sub_model(x, x), zero_model(x.prec, false)),
{
}

/// A finite value scaled by `2^j` and rounded back at a precision no smaller than
/// its own is the same value, with its significand widened to the new precision.
proof fn lemma_round_back(x: Model, p: nat, j: nat)
    requires
        x.wf(),
        x.kind is Finite,
        x.prec <= p <= u64::MAX,
    ensures
        ({
            let r = round_value(p, x.neg, x.mant * pow2(j), 1, x.exp - j);
            &&& r == (Model {
                prec: p,
                neg: x.neg,
                kind: Kind::Finite,
                mant: x.mant * pow2((p - x.prec) as nat),
                exp: x.exp + x.prec - p,
            })
            &&& equals(r, x)
        }),
{
    lemma_round_exact(2, p, x.prec, x.mant, j);
    lemma_pow2_unfold(j);
    assert(x.mant * pow2(j) >= 1) by (nonlinear_arith)
        requires x.mant >= pow2((x.prec - 1) as nat), pow2((x.prec - 1) as nat) >= 1 || x.mant >= 1,
            pow2(j) >= 1;
    let r = round_value(p, x.neg, x.mant * pow2(j), 1, x.exp - j);
    lemma_pow2_unfold(0);
    let b = common_base(r, x);
    assert(b == r.exp);
    assert((r.exp - b) as nat == 0);
    assert((x.exp - b) as nat == (p - x.prec) as nat);
    assert(r.mant * pow2(0) == r.mant);
    assert(scaled(r, b) == scaled(x, b));
}

/// Adding zero gives the value back.
pub proof fn law_add_zero(x: Model)
    requires
        x.wf(),
        x.is_number(),
    ensures
        equals(add_model(x, zero_model(DEFAULT_PRECISION as nat, false)), x),
{
    if x.kind is Finite {
        lemma_pow2_unfold(0);
        lemma_round_back(x, max_prec(x, zero_model(DEFAULT_PRECISION as nat, false)), 0);
        assert(x.mant * pow2(0) == x.mant);
    }
}

/// One at the default precision is `2^52 * 2^-52`.
proof fn lemma_one()
    ensures
        int_value(1) == (Model { prec: DEFAULT_PRECISION as nat, neg: false, kind: Kind::Finite, mant: pow2(52), exp: -52 }),
{
    lemma_round_exact(2, 53, 1, 1, 0);
    assert(power(2, 0) == 1);
    assert(power(2, 1) == 2);
    assert(round_ratio(2, 53, 1, 1) == (pow2(52), -52int));
}

/// Multiplying by one gives the value back.
pub proof fn law_mul_one(x: Model)
    requires
        x.wf(),
        x.is_number(),
    ensures
        equals(mul_model(x, int_value(1)), x),
{
    lemma_one();
    if x.kind is Finite {
        lemma_round_back(x, max_prec(x, int_value(1)), 52);
        assert(x.mant * pow2(52) == x.mant * int_value(1).mant);
        assert(x.exp + int_value(1).exp == x.exp - 52);
    }
}

} // verus!
