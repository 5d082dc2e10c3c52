//! Exact numbers for amplitudes.
//!
//! Every amplitude that the gates of the vocabulary can produce from a basis
//! state is an integer combination of the powers of `w = e^(i*pi/4)`, divided
//! by a power of `sqrt(2)`. This module holds such numbers without the
//! division, with their arithmetic and their squared modulus, and shows that
//! the squared modulus of a product is the product of the squared moduli.

use vstd::prelude::*;

verus! {

/// The number `whole + root * sqrt(2)`.
pub struct RootTwo {
    pub whole: int,
    pub root: int,
}

impl RootTwo {
    /// The number zero.
    pub open spec fn zero() -> RootTwo {
        RootTwo { whole: 0, root: 0 }
    }

    /// The number one.
    pub open spec fn one() -> RootTwo {
        RootTwo { whole: 1, root: 0 }
    }

    /// The sum.
    pub open spec fn plus(self, other: RootTwo) -> RootTwo {
        RootTwo { whole: self.whole + other.whole, root: self.root + other.root }
    }

    /// The product, with `sqrt(2)^2 = 2` taken into account.
    pub open spec fn times(self, other: RootTwo) -> RootTwo {
        RootTwo {
            whole: self.whole * other.whole + 2 * (self.root * other.root),
            root: self.whole * other.root + self.root * other.whole,
        }
    }

    /// Twice the number.
    pub open spec fn doubled(self) -> RootTwo {
        RootTwo { whole: 2 * self.whole, root: 2 * self.root }
    }
}

/// The number `a + b*w + c*w^2 + d*w^3`, where `w = e^(i*pi/4)`, so that
/// `w^2 = i` and `w^4 = -1`.
pub struct Cyclotomic {
    pub a: int,
    pub b: int,
    pub c: int,
    pub d: int,
}

impl Cyclotomic {
    /// The number zero.
    pub open spec fn zero() -> Cyclotomic {
        Cyclotomic { a: 0, b: 0, c: 0, d: 0 }
    }

    /// The number one.
    pub open spec fn one() -> Cyclotomic {
        Cyclotomic { a: 1, b: 0, c: 0, d: 0 }
    }

    /// The sum.
    pub open spec fn plus(self, other: Cyclotomic) -> Cyclotomic {
        Cyclotomic {
            a: self.a + other.a,
            b: self.b + other.b,
            c: self.c + other.c,
            d: self.d + other.d,
        }
    }

    /// The product, with `w^4 = -1` taken into account.
    pub open spec fn times(self, other: Cyclotomic) -> Cyclotomic {
        Cyclotomic {
            a: self.a * other.a - self.b * other.d - self.c * other.c - self.d * other.b,
            b: self.a * other.b + self.b * other.a - self.c * other.d - self.d * other.c,
            c: self.a * other.c + self.b * other.b + self.c * other.a - self.d * other.d,
            d: self.a * other.d + self.b * other.c + self.c * other.b + self.d * other.a,
        }
    }

    /// The squared modulus: the number times its complex conjugate, which is
    /// real and lies in the integers extended by `sqrt(2) = w - w^3`.
    #[verifier::opaque]
    pub open spec fn norm(self) -> RootTwo {
        RootTwo {
            whole: self.a * self.a + self.b * self.b + self.c * self.c + self.d * self.d,
            root: self.a * self.b + self.b * self.c + self.c * self.d - self.d * self.a,
        }
    }
}

/// The complex conjugate: `w` goes to `-w^3`, `w^2` to `-w^2`, `w^3` to `-w`.
pub open spec fn conjugate(number: Cyclotomic) -> Cyclotomic {
    Cyclotomic { a: number.a, b: -number.d, c: -number.c, d: -number.b }
}

/// The number embedded in the larger ring: `sqrt(2)` is `w - w^3`.
pub open spec fn embedded(number: RootTwo) -> Cyclotomic {
    Cyclotomic { a: number.whole, b: number.root, c: 0, d: -number.root }
}

/// The squared length of a vector: the sum of the squared moduli of its
/// components.
pub open spec fn squared_length(vector: Seq<Cyclotomic>) -> RootTwo
    decreases vector.len(),
{
    if vector.len() == 0 {
        RootTwo::zero()
    } else {
        squared_length(vector.drop_last()).plus(vector.last().norm())
    }
}

/// A number times zero, one or minus one.
pub proof fn lemma_unit_product(unit: int, value: int)
    requires
        unit == 0 || unit == 1 || unit == -1,
    ensures
        unit * value == (if unit == 0 {
            0
        } else if unit == 1 {
            value
        } else {
            -value
        }),
{
    assert(unit * value == (if unit == 0 {
        0
    } else if unit == 1 {
        value
    } else {
        -value
    })) by (nonlinear_arith)
        requires
            unit == 0 || unit == 1 || unit == -1,
    ;
}

/// Signs and zeros in a product of two integers.
proof fn lemma_signs(x: int, y: int)
    ensures
        x * (-y) == -(x * y),
        (-x) * y == -(x * y),
        (-x) * (-y) == x * y,
        x * y == y * x,
        x * 0 == 0,
        0 * x == 0,
{
    assert(x * (-y) == -(x * y) && (-x) * y == -(x * y) && (-x) * (-y) == x * y && x * y == y * x
        && x * 0 == 0 && 0 * x == 0) by (nonlinear_arith);
}

/// A sum of two integers times a factor, either way round.
proof fn lemma_sum_times(first: int, second: int, factor: int)
    ensures
        factor * (first + second) == factor * first + factor * second,
        (first + second) * factor == first * factor + second * factor,
{
    assert(factor * (first + second) == factor * first + factor * second && (first + second)
        * factor == first * factor + second * factor) by (nonlinear_arith);
}

/// A sum of four integers times a factor, either way round.
proof fn lemma_four_times(first: int, second: int, third: int, fourth: int, factor: int)
    ensures
        (first + second + third + fourth) * factor == first * factor + second * factor + third
            * factor + fourth * factor,
        factor * (first + second + third + fourth) == factor * first + factor * second + factor
            * third + factor * fourth,
{
    assert((first + second + third + fourth) * factor == first * factor + second * factor + third
        * factor + fourth * factor) by (nonlinear_arith);
    assert(factor * (first + second + third + fourth) == factor * first + factor * second + factor
        * third + factor * fourth) by (nonlinear_arith);
}

/// Multiplication is commutative.
pub proof fn lemma_times_is_commutative(first: Cyclotomic, second: Cyclotomic)
    ensures
        first.times(second) == second.times(first),
{
    let Cyclotomic { a, b, c, d } = first;
    let Cyclotomic { a: e, b: f, c: g, d: h } = second;
    lemma_signs(a, e);
    lemma_signs(a, f);
    lemma_signs(a, g);
    lemma_signs(a, h);
    lemma_signs(b, e);
    lemma_signs(b, f);
    lemma_signs(b, g);
    lemma_signs(b, h);
    lemma_signs(c, e);
    lemma_signs(c, f);
    lemma_signs(c, g);
    lemma_signs(c, h);
    lemma_signs(d, e);
    lemma_signs(d, f);
    lemma_signs(d, g);
    lemma_signs(d, h);
}

/// Multiplication is associative.
pub proof fn lemma_times_is_associative(first: Cyclotomic, second: Cyclotomic, third: Cyclotomic)
    ensures
        first.times(second).times(third) == first.times(second.times(third)),
{
    broadcast use {
        vstd::arithmetic::mul::lemma_mul_is_associative,
        vstd::arithmetic::mul::lemma_mul_unary_negation,
    };

    let Cyclotomic { a, b, c, d } = first;
    let Cyclotomic { a: e, b: f, c: g, d: h } = second;
    let Cyclotomic { a: p, b: q, c: r, d: s } = third;
    lemma_four_times(a * e, -(b * h), -(c * g), -(d * f), p);
    lemma_four_times(a * e, -(b * h), -(c * g), -(d * f), q);
    lemma_four_times(a * e, -(b * h), -(c * g), -(d * f), r);
    lemma_four_times(a * e, -(b * h), -(c * g), -(d * f), s);
    lemma_four_times(a * f, b * e, -(c * h), -(d * g), p);
    lemma_four_times(a * f, b * e, -(c * h), -(d * g), q);
    lemma_four_times(a * f, b * e, -(c * h), -(d * g), r);
    lemma_four_times(a * f, b * e, -(c * h), -(d * g), s);
    lemma_four_times(a * g, b * f, c * e, -(d * h), p);
    lemma_four_times(a * g, b * f, c * e, -(d * h), q);
    lemma_four_times(a * g, b * f, c * e, -(d * h), r);
    lemma_four_times(a * g, b * f, c * e, -(d * h), s);
    lemma_four_times(a * h, b * g, c * f, d * e, p);
    lemma_four_times(a * h, b * g, c * f, d * e, q);
    lemma_four_times(a * h, b * g, c * f, d * e, r);
    lemma_four_times(a * h, b * g, c * f, d * e, s);
    lemma_four_times(e * p, -(f * s), -(g * r), -(h * q), a);
    lemma_four_times(e * p, -(f * s), -(g * r), -(h * q), b);
    lemma_four_times(e * p, -(f * s), -(g * r), -(h * q), c);
    lemma_four_times(e * p, -(f * s), -(g * r), -(h * q), d);
    lemma_four_times(e * q, f * p, -(g * s), -(h * r), a);
    lemma_four_times(e * q, f * p, -(g * s), -(h * r), b);
    lemma_four_times(e * q, f * p, -(g * s), -(h * r), c);
    lemma_four_times(e * q, f * p, -(g * s), -(h * r), d);
    lemma_four_times(e * r, f * q, g * p, -(h * s), a);
    lemma_four_times(e * r, f * q, g * p, -(h * s), b);
    lemma_four_times(e * r, f * q, g * p, -(h * s), c);
    lemma_four_times(e * r, f * q, g * p, -(h * s), d);
    lemma_four_times(e * s, f * r, g * q, h * p, a);
    lemma_four_times(e * s, f * r, g * q, h * p, b);
    lemma_four_times(e * s, f * r, g * q, h * p, c);
    lemma_four_times(e * s, f * r, g * q, h * p, d);
}

/// Four factors can be paired either way.
pub proof fn lemma_times_interchange(
    first: Cyclotomic,
    second: Cyclotomic,
    third: Cyclotomic,
    fourth: Cyclotomic,
)
    ensures
        first.times(second).times(third.times(fourth)) == first.times(third).times(
            second.times(fourth),
        ),
{
    lemma_times_is_associative(first, second, third.times(fourth));
    lemma_times_is_associative(second, third, fourth);
    lemma_times_is_commutative(second, third);
    lemma_times_is_associative(third, second, fourth);
    lemma_times_is_associative(first, third, second.times(fourth));
}

/// The conjugate of a product is the product of the conjugates.
pub proof fn lemma_conjugate_of_product(first: Cyclotomic, second: Cyclotomic)
    ensures
        conjugate(first.times(second)) == conjugate(first).times(conjugate(second)),
{
    let Cyclotomic { a, b, c, d } = first;
    let Cyclotomic { a: e, b: f, c: g, d: h } = second;
    lemma_signs(a, e);
    lemma_signs(a, f);
    lemma_signs(a, g);
    lemma_signs(a, h);
    lemma_signs(b, e);
    lemma_signs(b, f);
    lemma_signs(b, g);
    lemma_signs(b, h);
    lemma_signs(c, e);
    lemma_signs(c, f);
    lemma_signs(c, g);
    lemma_signs(c, h);
    lemma_signs(d, e);
    lemma_signs(d, f);
    lemma_signs(d, g);
    lemma_signs(d, h);
}

/// A number times its conjugate is its squared modulus.
pub proof fn lemma_norm_is_product(number: Cyclotomic)
    ensures
        number.times(conjugate(number)) == embedded(number.norm()),
{
    reveal(Cyclotomic::norm);
    let Cyclotomic { a, b, c, d } = number;
    lemma_signs(a, a);
    lemma_signs(a, b);
    lemma_signs(a, c);
    lemma_signs(a, d);
    lemma_signs(b, a);
    lemma_signs(b, b);
    lemma_signs(b, c);
    lemma_signs(b, d);
    lemma_signs(c, a);
    lemma_signs(c, b);
    lemma_signs(c, c);
    lemma_signs(c, d);
    lemma_signs(d, a);
    lemma_signs(d, b);
    lemma_signs(d, c);
    lemma_signs(d, d);
}

/// Embedding keeps products.
pub proof fn lemma_embedded_product(first: RootTwo, second: RootTwo)
    ensures
        embedded(first).times(embedded(second)) == embedded(first.times(second)),
{
    let RootTwo { whole: x, root: y } = first;
    let RootTwo { whole: u, root: v } = second;
    lemma_signs(x, u);
    lemma_signs(x, v);
    lemma_signs(y, u);
    lemma_signs(y, v);
    lemma_signs(x, 0);
    lemma_signs(y, 0);
    lemma_signs(0, u);
    lemma_signs(0, v);
    lemma_signs(0, 0);
    lemma_signs(v, 0);
    lemma_signs(u, 0);
}

/// The squared modulus of a product is the product of the squared moduli.
pub proof fn lemma_norm_of_product(first: Cyclotomic, second: Cyclotomic)
    ensures
        first.times(second).norm() == first.norm().times(second.norm()),
{
    lemma_norm_is_product(first.times(second));
    lemma_conjugate_of_product(first, second);
    lemma_times_interchange(first, second, conjugate(first), conjugate(second));
    lemma_norm_is_product(first);
    lemma_norm_is_product(second);
    lemma_embedded_product(first.norm(), second.norm());
}

/// Multiplication of numbers with a root of two distributes over their
/// addition, and zero times anything is zero.
pub proof fn lemma_root_two_distributes(factor: RootTwo, first: RootTwo, second: RootTwo)
    ensures
        factor.times(first.plus(second)) == factor.times(first).plus(factor.times(second)),
        first.plus(second).times(factor) == first.times(factor).plus(second.times(factor)),
        factor.times(RootTwo::zero()) == RootTwo::zero(),
        RootTwo::zero().times(factor) == RootTwo::zero(),
{
    lemma_sum_times(first.whole, second.whole, factor.whole);
    lemma_sum_times(first.root, second.root, factor.whole);
    lemma_sum_times(first.whole, second.whole, factor.root);
    lemma_sum_times(first.root, second.root, factor.root);
    lemma_signs(factor.whole, 0);
    lemma_signs(factor.root, 0);
}

/// One has squared modulus one, and zero has squared modulus zero.
pub proof fn lemma_norm_of_basis()
    ensures
        Cyclotomic::one().norm() == RootTwo::one(),
        Cyclotomic::zero().norm() == RootTwo::zero(),
{
    reveal(Cyclotomic::norm);
    let one = Cyclotomic::one();
    let zero = Cyclotomic::zero();
    lemma_unit_product(one.a, one.a);
    lemma_unit_product(one.b, one.b);
    lemma_unit_product(one.a, one.b);
    lemma_unit_product(one.b, one.c);
    lemma_unit_product(one.c, one.d);
    lemma_unit_product(one.d, one.a);
    lemma_unit_product(zero.a, zero.a);
    lemma_unit_product(zero.a, zero.b);
}

/// The squared length of two vectors, one after the other, is the sum of
/// their squared lengths.
pub proof fn lemma_length_of_concat(first: Seq<Cyclotomic>, second: Seq<Cyclotomic>)
    ensures
        squared_length(first + second) == squared_length(first).plus(squared_length(second)),
    decreases second.len(),
{
    if second.len() == 0 {
        assert(first + second =~= first);
    } else {
        lemma_length_of_concat(first, second.drop_last());
        assert((first + second).drop_last() =~= first + second.drop_last());
        assert((first + second).last() == second.last());
    }
}

/// The squared length of a vector of two components.
pub proof fn lemma_length_of_two(vector: Seq<Cyclotomic>)
    requires
        vector.len() == 2,
    ensures
        squared_length(vector) == vector[0].norm().plus(vector[1].norm()),
{
    reveal_with_fuel(squared_length, 3);
    assert(vector.drop_last().drop_last().len() == 0);
    assert(vector.drop_last().last() == vector[0]);
}

/// The squared length of a vector of four components.
pub proof fn lemma_length_of_four(vector: Seq<Cyclotomic>)
    requires
        vector.len() == 4,
    ensures
        squared_length(vector) == vector[0].norm().plus(vector[1].norm()).plus(
            vector[2].norm(),
        ).plus(vector[3].norm()),
{
    reveal_with_fuel(squared_length, 5);
    let three = vector.drop_last();
    let two = three.drop_last();
    let one = two.drop_last();
    assert(one.drop_last().len() == 0);
    assert(one.last() == vector[0]);
    assert(two.last() == vector[1]);
    assert(three.last() == vector[2]);
}

} // verus!
