//! Tables whose rows split the numbers below a bound among them.
//!
//! Two tables of this library are of that kind: the clusters of a register,
//! which split its qubits, and the orbits of a gate, which split the basis
//! indices of a cluster.

use vstd::prelude::*;

verus! {

/// `value` stands in row `row` of the table, at place `place`.
pub open spec fn occurs_at(table: Seq<Seq<nat>>, value: nat, row: int, place: int) -> bool {
    &&& 0 <= row < table.len()
    &&& 0 <= place < table[row].len()
    &&& table[row][place] == value
}

/// `value` stands somewhere in the table.
pub open spec fn occurs(table: Seq<Seq<nat>>, value: nat) -> bool {
    exists|row: int, place: int| occurs_at(table, value, row, place)
}

/// The rows of the table split the numbers below `count`: every entry is
/// below `count`, and every number below `count` stands in the table in
/// exactly one place.
pub open spec fn is_partition(table: Seq<Seq<nat>>, count: nat) -> bool {
    &&& forall|row: int, place: int|
        0 <= row < table.len() && 0 <= place < table[row].len() ==> #[trigger] table[row][place]
            < count
    &&& forall|value: nat| value < count ==> #[trigger] occurs(table, value)
    &&& forall|row: int, place: int, other_row: int, other_place: int|
        #![trigger table[row][place], table[other_row][other_place]]
        0 <= row < table.len() && 0 <= place < table[row].len() && 0 <= other_row < table.len()
            && 0 <= other_place < table[other_row].len() && table[row][place]
            == table[other_row][other_place] ==> row == other_row && place == other_place
}

/// The row and the place at which `value` stands in the table.
pub open spec fn position_of(table: Seq<Seq<nat>>, value: nat) -> (int, int) {
    choose|row: int, place: int| occurs_at(table, value, row, place)
}

/// In a partition a value that stands at some place stands nowhere else, so
/// that place is its position.
pub proof fn lemma_position_of(table: Seq<Seq<nat>>, count: nat, value: nat, row: int, place: int)
    requires
        is_partition(table, count),
        occurs_at(table, value, row, place),
    ensures
        position_of(table, value) == (row, place),
{
    let found = position_of(table, value);
    assert(occurs_at(table, value, found.0, found.1));
    assert(table[found.0][found.1] == table[row][place]);
}

/// The number of entries of the table.
pub open spec fn total_size(table: Seq<Seq<nat>>) -> nat
    decreases table.len(),
{
    if table.len() == 0 {
        0
    } else {
        total_size(table.drop_last()) + table.last().len()
    }
}

/// Taking a row out of a table takes its entries out of the total.
pub proof fn lemma_total_size_remove(table: Seq<Seq<nat>>, row: int)
    requires
        0 <= row < table.len(),
    ensures
        total_size(table) == total_size(table.remove(row)) + table[row].len(),
    decreases table.len(),
{
    if row == table.len() - 1 {
        assert(table.remove(row) =~= table.drop_last());
    } else {
        lemma_total_size_remove(table.drop_last(), row);
        assert(table.remove(row).drop_last() =~= table.drop_last().remove(row));
        assert(table.remove(row).last() == table.last());
    }
}

} // verus!
