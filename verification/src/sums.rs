//! Sums over the rows of a partition.
//!
//! Adding up one value for every number below a bound gives the same total
//! whether the numbers are taken in ascending order or row by row through a
//! table that splits them.

use crate::basis::first_indices;
use crate::exact::RootTwo;
use crate::partition::{is_partition, occurs, occurs_at};
use vstd::prelude::*;
use vstd::seq_lib::{
    lemma_no_dup_in_concat, to_multiset_contains, to_multiset_len, to_multiset_remove,
};

verus! {

/// The sum of the values at the given indices.
pub open spec fn sum_at(values: Seq<RootTwo>, indices: Seq<nat>) -> RootTwo
    decreases indices.len(),
{
    if indices.len() == 0 {
        RootTwo::zero()
    } else {
        sum_at(values, indices.drop_last()).plus(values[indices.last() as int])
    }
}

/// The sum of all values.
pub open spec fn sum_of(values: Seq<RootTwo>) -> RootTwo {
    sum_at(values, first_indices(values.len()))
}

/// The sum of the values at the entries of a table, taken row by row.
pub open spec fn sum_by_rows(values: Seq<RootTwo>, table: Seq<Seq<nat>>) -> RootTwo
    decreases table.len(),
{
    if table.len() == 0 {
        RootTwo::zero()
    } else {
        sum_by_rows(values, table.drop_last()).plus(sum_at(values, table.last()))
    }
}

/// The entries of a table in one list, row after row.
pub open spec fn entries(table: Seq<Seq<nat>>) -> Seq<nat>
    decreases table.len(),
{
    if table.len() == 0 {
        Seq::empty()
    } else {
        entries(table.drop_last()) + table.last()
    }
}

/// The sum over two lists of indices, one after the other, is the sum of
/// their sums.
pub proof fn lemma_sum_at_concat(values: Seq<RootTwo>, first: Seq<nat>, second: Seq<nat>)
    ensures
        sum_at(values, first + second) == sum_at(values, first).plus(sum_at(values, second)),
    decreases second.len(),
{
    if second.len() == 0 {
        assert(first + second =~= first);
    } else {
        lemma_sum_at_concat(values, first, second.drop_last());
        assert((first + second).drop_last() =~= first + second.drop_last());
        assert((first + second).last() == second.last());
    }
}

/// Taking an index out of a list takes its value out of the sum.
pub proof fn lemma_sum_at_remove(values: Seq<RootTwo>, indices: Seq<nat>, place: int)
    requires
        0 <= place < indices.len(),
    ensures
        sum_at(values, indices) == sum_at(values, indices.remove(place)).plus(
            values[indices[place] as int],
        ),
    decreases indices.len(),
{
    if place == indices.len() - 1 {
        assert(indices.remove(place) =~= indices.drop_last());
    } else {
        lemma_sum_at_remove(values, indices.drop_last(), place);
        assert(indices.remove(place).drop_last() =~= indices.drop_last().remove(place));
        assert(indices.remove(place).last() == indices.last());
    }
}

/// The order of the indices does not matter to the sum.
pub proof fn lemma_sum_at_permuted(values: Seq<RootTwo>, first: Seq<nat>, second: Seq<nat>)
    requires
        first.to_multiset() == second.to_multiset(),
    ensures
        sum_at(values, first) == sum_at(values, second),
    decreases first.len(),
{
    to_multiset_len(first);
    to_multiset_len(second);
    if first.len() > 0 {
        let index = first.last();
        let shorter = first.drop_last();
        assert(shorter =~= first.remove(first.len() - 1));
        to_multiset_remove(first, first.len() - 1);
        assert(first.contains(index)) by {
            assert(first[first.len() - 1] == index);
        }
        to_multiset_contains(first, index);
        to_multiset_contains(second, index);
        let place = choose|place: int| 0 <= place < second.len() && second[place] == index;
        to_multiset_remove(second, place);
        lemma_sum_at_permuted(values, shorter, second.remove(place));
        lemma_sum_at_remove(values, second, place);
    }
}

/// Summing over the entries of a table is summing row by row.
pub proof fn lemma_sum_at_entries(values: Seq<RootTwo>, table: Seq<Seq<nat>>)
    ensures
        sum_at(values, entries(table)) == sum_by_rows(values, table),
    decreases table.len(),
{
    if table.len() > 0 {
        lemma_sum_at_entries(values, table.drop_last());
        lemma_sum_at_concat(values, entries(table.drop_last()), table.last());
    }
}

/// No number stands in two places of the table.
pub open spec fn entries_differ(table: Seq<Seq<nat>>) -> bool {
    forall|row: int, place: int, other_row: int, other_place: int|
        #![trigger table[row][place], table[other_row][other_place]]
        0 <= row < table.len() && 0 <= place < table[row].len() && 0 <= other_row < table.len()
            && 0 <= other_place < table[other_row].len() && table[row][place]
            == table[other_row][other_place] ==> row == other_row && place == other_place
}

/// The entries of a table are the numbers that occur in it.
proof fn lemma_entries_occur(table: Seq<Seq<nat>>)
    ensures
        forall|value: nat| entries(table).contains(value) <==> #[trigger] occurs(table, value),
    decreases table.len(),
{
    if table.len() == 0 {
        assert forall|value: nat| #[trigger] occurs(table, value) implies false by {
            let (row, place) = choose|row: int, place: int| occurs_at(table, value, row, place);
        }
    } else {
        let above = table.drop_last();
        let last = table.len() - 1;
        lemma_entries_occur(above);
        assert forall|value: nat| entries(table).contains(value) implies #[trigger] occurs(
            table,
            value,
        ) by {
            let k = choose|k: int| 0 <= k < entries(table).len() && entries(table)[k] == value;
            if k < entries(above).len() {
                assert(entries(above)[k] == value);
                assert(entries(above).contains(value));
                assert(occurs(above, value));
                let (row, place) = choose|row: int, place: int| occurs_at(above, value, row, place);
                assert(occurs_at(table, value, row, place));
            } else {
                assert(occurs_at(table, value, last, k - entries(above).len()));
            }
        }
        assert forall|value: nat| #[trigger] occurs(table, value) implies entries(table).contains(
            value,
        ) by {
            let (row, place) = choose|row: int, place: int| occurs_at(table, value, row, place);
            if row < last {
                assert(occurs_at(above, value, row, place));
                assert(occurs(above, value));
                assert(entries(above).contains(value));
                let k = choose|k: int| 0 <= k < entries(above).len() && entries(above)[k] == value;
                assert(entries(table)[k] == value);
            } else {
                assert(entries(table)[entries(above).len() + place] == value);
            }
        }
    }
}

/// The entries of a table in which no number stands twice are distinct.
proof fn lemma_entries_distinct(table: Seq<Seq<nat>>)
    requires
        entries_differ(table),
    ensures
        entries(table).no_duplicates(),
    decreases table.len(),
{
    if table.len() > 0 {
        let above = table.drop_last();
        let last = table.len() - 1;
        assert(entries_differ(above)) by {
            assert forall|row: int, place: int, other_row: int, other_place: int|
                #![trigger above[row][place], above[other_row][other_place]]
                0 <= row < above.len() && 0 <= place < above[row].len() && 0 <= other_row
                    < above.len() && 0 <= other_place < above[other_row].len() && above[row][place]
                    == above[other_row][other_place] implies row == other_row && place
                == other_place by {
                assert(table[row][place] == table[other_row][other_place]);
            }
        }
        lemma_entries_distinct(above);
        lemma_entries_occur(above);
        assert(table[last].no_duplicates()) by {
            assert forall|i: int, j: int|
                0 <= i < table[last].len() && 0 <= j < table[last].len() && i != j implies table[last][i]
                != table[last][j] by {
                if table[last][i] == table[last][j] {
                    assert(i == j);
                }
            }
        }
        assert forall|i: int, j: int|
            0 <= i < entries(above).len() && 0 <= j < table[last].len() implies entries(above)[i]
            != table[last][j] by {
            let value = entries(above)[i];
            assert(entries(above).contains(value));
            assert(occurs(above, value));
            let (row, place) = choose|row: int, place: int| occurs_at(above, value, row, place);
            if value == table[last][j] {
                assert(table[row][place] == table[last][j]);
            }
        }
        lemma_no_dup_in_concat(entries(above), table[last]);
    }
}

/// The entries of a partition of the numbers below `count` are those
/// numbers, each once.
pub proof fn lemma_entries_of_partition(table: Seq<Seq<nat>>, count: nat)
    requires
        is_partition(table, count),
    ensures
        entries(table).to_multiset() == first_indices(count).to_multiset(),
{
    let listed = entries(table);
    let ascending = first_indices(count);
    lemma_entries_occur(table);
    lemma_entries_distinct(table);
    listed.lemma_multiset_has_no_duplicates();
    ascending.lemma_multiset_has_no_duplicates();
    assert forall|value: nat|
        listed.to_multiset().count(value) == ascending.to_multiset().count(value) by {
        to_multiset_contains(listed, value);
        to_multiset_contains(ascending, value);
        if value < count {
            assert(occurs(table, value));
            assert(ascending[value as int] == value);
        } else {
            if occurs(table, value) {
                let (row, place) = choose|row: int, place: int| occurs_at(table, value, row, place);
                assert(table[row][place] < count);
            }
        }
    }
    assert(listed.to_multiset() =~= ascending.to_multiset());
}

/// Summing one value for every number below a bound gives the same total
/// row by row through a partition of those numbers as in ascending order.
pub proof fn lemma_sum_over_partition(values: Seq<RootTwo>, table: Seq<Seq<nat>>)
    requires
        is_partition(table, values.len()),
    ensures
        sum_by_rows(values, table) == sum_of(values),
{
    lemma_entries_of_partition(table, values.len());
    lemma_sum_at_permuted(values, entries(table), first_indices(values.len()));
    lemma_sum_at_entries(values, table);
}

} // verus!
