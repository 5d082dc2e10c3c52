//! The matrices of the gates are unitary.
//!
//! With every entry taken `sqrt(2)` times, so that all arithmetic stays
//! within the integers, the matrix of a gate doubles the squared length of
//! every vector: the matrix itself keeps it.

use crate::exact::{
    lemma_length_of_four, lemma_length_of_two, lemma_unit_product, squared_length, Cyclotomic,
    RootTwo,
};
use crate::gate::{matrix_of, Entry, Gate};
use vstd::prelude::*;

verus! {

/// `sqrt(2)` times the value of a matrix entry.
pub open spec fn scaled(entry: Entry) -> Cyclotomic {
    match entry {
        Entry::Zero => Cyclotomic { a: 0, b: 0, c: 0, d: 0 },
        Entry::One => Cyclotomic { a: 0, b: 1, c: 0, d: -1 },
        Entry::MinusOne => Cyclotomic { a: 0, b: -1, c: 0, d: 1 },
        Entry::Imaginary => Cyclotomic { a: 0, b: 1, c: 0, d: 1 },
        Entry::MinusImaginary => Cyclotomic { a: 0, b: -1, c: 0, d: -1 },
        Entry::RootHalf => Cyclotomic { a: 1, b: 0, c: 0, d: 0 },
        Entry::MinusRootHalf => Cyclotomic { a: -1, b: 0, c: 0, d: 0 },
        Entry::EighthTurn => Cyclotomic { a: 1, b: 0, c: 1, d: 0 },
    }
}

/// `sqrt(2)` times a matrix entry times a number, written out: what
/// `scaled(entry).times(value)` comes to.
pub open spec fn scale(entry: Entry, value: Cyclotomic) -> Cyclotomic {
    let Cyclotomic { a, b, c, d } = value;
    match entry {
        Entry::Zero => Cyclotomic { a: 0, b: 0, c: 0, d: 0 },
        Entry::One => Cyclotomic { a: b - d, b: a + c, c: b + d, d: c - a },
        Entry::MinusOne => Cyclotomic { a: d - b, b: -a - c, c: -b - d, d: a - c },
        Entry::Imaginary => Cyclotomic { a: -d - b, b: a - c, c: b - d, d: c + a },
        Entry::MinusImaginary => Cyclotomic { a: d + b, b: c - a, c: d - b, d: -c - a },
        Entry::RootHalf => Cyclotomic { a, b, c, d },
        Entry::MinusRootHalf => Cyclotomic { a: -a, b: -b, c: -c, d: -d },
        Entry::EighthTurn => Cyclotomic { a: a - c, b: b - d, c: c + a, d: d + b },
    }
}

/// A squared modulus times twice the squared modulus of a matrix entry,
/// which is `0`, `1` or `2`.
pub open spec fn weighted(entry: Entry, norm: RootTwo) -> RootTwo {
    match entry {
        Entry::Zero => RootTwo::zero(),
        Entry::RootHalf | Entry::MinusRootHalf => norm,
        _ => norm.doubled(),
    }
}

/// A row of a matrix times a vector, every entry of the row taken `sqrt(2)`
/// times. Rows have two entries or four.
pub open spec fn dot(row: Seq<Entry>, vector: Seq<Cyclotomic>) -> Cyclotomic {
    if row.len() == 2 {
        scale(row[0], vector[0]).plus(scale(row[1], vector[1]))
    } else {
        scale(row[0], vector[0]).plus(scale(row[1], vector[1])).plus(scale(row[2], vector[2])).plus(
            scale(row[3], vector[3]),
        )
    }
}

/// A matrix times a vector, every entry of the matrix taken `sqrt(2)` times.
pub open spec fn product(matrix: Seq<Seq<Entry>>, vector: Seq<Cyclotomic>) -> Seq<Cyclotomic> {
    Seq::new(matrix.len(), |row: int| dot(matrix[row], vector))
}

/// The row of four entries that holds a one at `place` and zeros elsewhere.
pub open spec fn unit_row(place: int) -> Seq<Entry> {
    Seq::new(4, |column: int| if column == place { Entry::One } else { Entry::Zero })
}

/// `scale` is the product that it is said to be.
pub proof fn lemma_scale_is_product(entry: Entry, value: Cyclotomic)
    ensures
        scale(entry, value) == scaled(entry).times(value),
{
    let Cyclotomic { a, b, c, d } = value;
    let Cyclotomic { a: e, b: f, c: g, d: h } = scaled(entry);
    lemma_unit_product(e, a);
    lemma_unit_product(e, b);
    lemma_unit_product(e, c);
    lemma_unit_product(e, d);
    lemma_unit_product(f, a);
    lemma_unit_product(f, b);
    lemma_unit_product(f, c);
    lemma_unit_product(f, d);
    lemma_unit_product(g, a);
    lemma_unit_product(g, b);
    lemma_unit_product(g, c);
    lemma_unit_product(g, d);
    lemma_unit_product(h, a);
    lemma_unit_product(h, b);
    lemma_unit_product(h, c);
    lemma_unit_product(h, d);
}

/// The squares and mixed products that the squared modulus of `sqrt(2)`
/// times a number is made of.
proof fn lemma_square_sum(a: int, b: int, c: int, d: int)
    ensures
        (b - d) * (b - d) + (a + c) * (a + c) + (b + d) * (b + d) + (c - a) * (c - a) == 2 * (a * a
            + b * b + c * c + d * d),
        (b - d) * (a + c) + (a + c) * (b + d) + (b + d) * (c - a) - (c - a) * (b - d) == 2 * (a * b
            + b * c + c * d - d * a),
{
    assert((b - d) * (b - d) + (b + d) * (b + d) == 2 * (b * b) + 2 * (d * d))
        by (nonlinear_arith);
    assert((a + c) * (a + c) + (c - a) * (c - a) == 2 * (a * a) + 2 * (c * c))
        by (nonlinear_arith);
    assert((b - d) * (a + c) - (c - a) * (b - d) == 2 * (a * b) - 2 * (d * a)) by (nonlinear_arith);
    assert((a + c) * (b + d) + (b + d) * (c - a) == 2 * (b * c) + 2 * (c * d)) by (nonlinear_arith);
}

/// Products of negated integers.
proof fn lemma_negated_products(a: int, b: int, c: int, d: int)
    ensures
        (-a) * (-a) == a * a,
        (-a) * (-b) == a * b,
        (-b) * (-c) == b * c,
        (-c) * (-d) == c * d,
        (-d) * (-a) == d * a,
        (-b) * (-b) == b * b,
        (-c) * (-c) == c * c,
        (-d) * (-d) == d * d,
{
    assert((-a) * (-a) == a * a && (-a) * (-b) == a * b && (-b) * (-c) == b * c && (-c) * (-d) == c
        * d) by (nonlinear_arith);
    assert((-d) * (-a) == d * a && (-b) * (-b) == b * b && (-c) * (-c) == c * c && (-d) * (-d) == d
        * d) by (nonlinear_arith);
}

/// Multiplying a number by `sqrt(2)` times a matrix entry multiplies its
/// squared modulus by twice the squared modulus of the entry.
pub proof fn lemma_norm_of_scale(entry: Entry, value: Cyclotomic)
    ensures
        scale(entry, value).norm() == weighted(entry, value.norm()),
{
    reveal(Cyclotomic::norm);
    let Cyclotomic { a, b, c, d } = value;
    match entry {
        Entry::Zero => {
            let nothing = scale(entry, value);
            lemma_unit_product(nothing.a, nothing.a);
            lemma_unit_product(nothing.b, nothing.b);
            lemma_unit_product(nothing.c, nothing.c);
            lemma_unit_product(nothing.d, nothing.d);
            lemma_unit_product(nothing.a, nothing.b);
            lemma_unit_product(nothing.b, nothing.c);
            lemma_unit_product(nothing.c, nothing.d);
            lemma_unit_product(nothing.d, nothing.a);
        },
        Entry::One => {
            lemma_square_sum(a, b, c, d);
        },
        Entry::MinusOne => {
            lemma_square_sum(a, b, c, d);
            lemma_negated_products(b - d, a + c, b + d, c - a);
            assert(d - b == -(b - d) && -a - c == -(a + c) && -b - d == -(b + d) && a - c == -(c
                - a));
        },
        Entry::Imaginary => {
            assert((-d - b) * (-d - b) + (a - c) * (a - c) + (b - d) * (b - d) + (c + a) * (c + a)
                == 2 * (a * a + b * b + c * c + d * d)) by (nonlinear_arith);
            assert((-d - b) * (a - c) + (a - c) * (b - d) + (b - d) * (c + a) - (c + a) * (-d - b)
                == 2 * (a * b + b * c + c * d - d * a)) by (nonlinear_arith);
        },
        Entry::MinusImaginary => {
            assert((d + b) * (d + b) + (c - a) * (c - a) + (d - b) * (d - b) + (-c - a) * (-c - a)
                == 2 * (a * a + b * b + c * c + d * d)) by (nonlinear_arith);
            assert((d + b) * (c - a) + (c - a) * (d - b) + (d - b) * (-c - a) - (-c - a) * (d + b)
                == 2 * (a * b + b * c + c * d - d * a)) by (nonlinear_arith);
        },
        Entry::RootHalf => {},
        Entry::MinusRootHalf => {
            lemma_negated_products(a, b, c, d);
        },
        Entry::EighthTurn => {
            assert((a - c) * (a - c) + (b - d) * (b - d) + (c + a) * (c + a) + (d + b) * (d + b)
                == 2 * (a * a + b * b + c * c + d * d)) by (nonlinear_arith);
            assert((a - c) * (b - d) + (b - d) * (c + a) + (c + a) * (d + b) - (d + b) * (a - c)
                == 2 * (a * b + b * c + c * d - d * a)) by (nonlinear_arith);
        },
    }
}

/// The products of a sum and of a difference, added up.
proof fn lemma_expand(x: int, y: int, u: int, v: int)
    ensures
        (x + y) * (u + v) + (x - y) * (u - v) == 2 * (x * u) + 2 * (y * v),
{
    assert((x + y) * (u + v) + (x - y) * (u - v) == 2 * (x * u) + 2 * (y * v)) by (nonlinear_arith);
}

/// The squared moduli of the sum and of the difference of two numbers add up
/// to twice the sum of their squared moduli.
pub proof fn lemma_sum_and_difference(first: Cyclotomic, second: Cyclotomic)
    ensures
        first.plus(second).norm().plus(first.plus(scale(Entry::MinusRootHalf, second)).norm())
            == first.norm().plus(second.norm()).doubled(),
{
    reveal(Cyclotomic::norm);
    let Cyclotomic { a, b, c, d } = first;
    let Cyclotomic { a: e, b: f, c: g, d: h } = second;
    lemma_expand(a, e, a, e);
    lemma_expand(b, f, b, f);
    lemma_expand(c, g, c, g);
    lemma_expand(d, h, d, h);
    lemma_expand(a, e, b, f);
    lemma_expand(b, f, c, g);
    lemma_expand(c, g, d, h);
    lemma_expand(d, h, a, e);
    assert(a + -e == a - e && b + -f == b - f && c + -g == c - g && d + -h == d - h);
}

/// A row of two entries whose second is zero takes the first component.
proof fn lemma_dot_first(entry: Entry, vector: Seq<Cyclotomic>)
    requires
        vector.len() == 2,
    ensures
        dot(seq![entry, Entry::Zero], vector) == scale(entry, vector[0]),
        dot(seq![entry, Entry::Zero], vector).norm() == weighted(entry, vector[0].norm()),
{
    lemma_norm_of_scale(entry, vector[0]);
}

/// A row of two entries whose first is zero takes the second component.
proof fn lemma_dot_second(entry: Entry, vector: Seq<Cyclotomic>)
    requires
        vector.len() == 2,
    ensures
        dot(seq![Entry::Zero, entry], vector) == scale(entry, vector[1]),
        dot(seq![Entry::Zero, entry], vector).norm() == weighted(entry, vector[1].norm()),
{
    lemma_norm_of_scale(entry, vector[1]);
}

/// A row of four entries that holds a one at `place` and zeros elsewhere
/// takes component `place`, `sqrt(2)` times.
proof fn lemma_dot_unit(place: int, vector: Seq<Cyclotomic>)
    requires
        vector.len() == 4,
        0 <= place < 4,
    ensures
        dot(unit_row(place), vector) == scale(Entry::One, vector[place]),
        dot(unit_row(place), vector).norm() == vector[place].norm().doubled(),
{
    lemma_norm_of_scale(Entry::One, vector[place]);
}

/// The matrices of the gates on one qubit.
proof fn lemma_small_matrix_is_unitary(gate: Gate, vector: Seq<Cyclotomic>)
    requires
        matrix_of(gate).len() == 2,
        vector.len() == 2,
    ensures
        squared_length(product(matrix_of(gate), vector)) == squared_length(vector).doubled(),
{
    let matrix = matrix_of(gate);
    let image = product(matrix, vector);
    lemma_length_of_two(vector);
    lemma_length_of_two(image);
    assert(image[0] == dot(matrix[0], vector));
    assert(image[1] == dot(matrix[1], vector));
    if gate == Gate::Hadamard {
        lemma_sum_and_difference(vector[0], vector[1]);
        assert(image[0] == vector[0].plus(vector[1]));
        assert(image[1] == vector[0].plus(scale(Entry::MinusRootHalf, vector[1])));
    } else if gate == Gate::PauliX || gate == Gate::PauliY {
        assert(matrix[0] =~= seq![Entry::Zero, matrix[0][1]]);
        assert(matrix[1] =~= seq![matrix[1][0], Entry::Zero]);
        lemma_dot_second(matrix[0][1], vector);
        lemma_dot_first(matrix[1][0], vector);
    } else {
        assert(matrix[0] =~= seq![matrix[0][0], Entry::Zero]);
        assert(matrix[1] =~= seq![Entry::Zero, matrix[1][1]]);
        lemma_dot_first(matrix[0][0], vector);
        lemma_dot_second(matrix[1][1], vector);
    }
}

/// The matrices of the gates on two qubits: each row is a unit row.
proof fn lemma_large_matrix_is_unitary(gate: Gate, vector: Seq<Cyclotomic>)
    requires
        matrix_of(gate).len() == 4,
        vector.len() == 4,
    ensures
        squared_length(product(matrix_of(gate), vector)) == squared_length(vector).doubled(),
{
    let matrix = matrix_of(gate);
    let image = product(matrix, vector);
    lemma_length_of_four(vector);
    lemma_length_of_four(image);
    assert(image[0] == dot(matrix[0], vector));
    assert(image[1] == dot(matrix[1], vector));
    assert(image[2] == dot(matrix[2], vector));
    assert(image[3] == dot(matrix[3], vector));
    lemma_dot_unit(0, vector);
    lemma_dot_unit(1, vector);
    lemma_dot_unit(2, vector);
    lemma_dot_unit(3, vector);
    assert(matrix[0] =~= unit_row(0));
    assert(matrix[3] =~= unit_row(3) || matrix[3] =~= unit_row(2));
    assert(matrix[1] =~= unit_row(1) || matrix[1] =~= unit_row(2));
    assert(matrix[2] =~= unit_row(1) || matrix[2] =~= unit_row(3));
}

/// The matrix of every gate is unitary: taken `sqrt(2)` times, it doubles
/// the squared length of every vector.
pub proof fn lemma_matrix_is_unitary(gate: Gate, vector: Seq<Cyclotomic>)
    requires
        vector.len() == matrix_of(gate).len(),
    ensures
        product(matrix_of(gate), vector).len() == vector.len(),
        squared_length(product(matrix_of(gate), vector)) == squared_length(vector).doubled(),
{
    if matrix_of(gate).len() == 2 {
        lemma_small_matrix_is_unitary(gate, vector);
    } else {
        lemma_large_matrix_is_unitary(gate, vector);
    }
}

} // verus!
