//! What the actions of a plan mean for exact amplitudes, and why they keep
//! every cluster at length one.
//!
//! Amplitudes are held `sqrt(2)^k` times, for a `k` that grows by one with
//! every gate, so that all arithmetic stays within the integers. A gate then
//! doubles the squared length of its cluster's vector, and a merge multiplies
//! the squared lengths of the two vectors it joins. Divided by `2^k`, the
//! squared length stays what it was at the start: one.

use crate::basis::{first_indices, lemma_orbits_partition, orbits, targets_fit, tensor_pairs};
use crate::circuit_parser::OperationModel;
use crate::exact::{
    lemma_length_of_concat, lemma_length_of_two, lemma_norm_of_basis, lemma_norm_of_product,
    lemma_root_two_distributes, squared_length, Cyclotomic, RootTwo,
};
use crate::gate::{matrix_of, Gate};
use crate::partition::{is_partition, lemma_position_of, occurs, occurs_at, position_of};
use crate::quantum_state::{
    actions_for, initial_layout, layout_after, layout_is_valid, lemma_cluster_sizes,
    merged_layout, without_two, ActionModel,
};
use crate::sums::{lemma_sum_over_partition, sum_at, sum_by_rows, sum_of};
use crate::unitary::{dot, lemma_matrix_is_unitary, product};
use vstd::arithmetic::div_mod::{
    lemma_div_pos_is_pos, lemma_fundamental_div_mod_converse, lemma_mod_bound,
    lemma_multiply_divide_lt,
};
use vstd::arithmetic::power2::{
    lemma2_to64, lemma_pow2_adds, lemma_pow2_pos, lemma_pow2_unfold, pow2,
};
use vstd::prelude::*;

verus! {

/// The amplitudes at the given indices, in the order of the indices.
pub open spec fn picked(amplitudes: Seq<Cyclotomic>, indices: Seq<nat>) -> Seq<Cyclotomic> {
    Seq::new(indices.len(), |k: int| amplitudes[indices[k] as int])
}

/// The squared moduli of the amplitudes.
pub open spec fn norms(amplitudes: Seq<Cyclotomic>) -> Seq<RootTwo> {
    Seq::new(amplitudes.len(), |index: int| amplitudes[index].norm())
}

/// What `Apply` does to the amplitudes of its cluster, `sqrt(2)` times: the
/// amplitude at place `m` of an orbit becomes row `m` of the matrix times
/// the amplitudes of that orbit.
pub open spec fn applied(gate: Gate, orbits: Seq<Seq<nat>>, amplitudes: Seq<Cyclotomic>) -> Seq<
    Cyclotomic,
> {
    Seq::new(
        amplitudes.len(),
        |index: int|
            {
                let (row, place) = position_of(orbits, index as nat);
                dot(matrix_of(gate)[place], picked(amplitudes, orbits[row]))
            },
    )
}

/// What `Merge` makes of the amplitudes of its two clusters: one product
/// for every pair of the table.
pub open spec fn merged(pairs: Seq<(nat, nat)>, first: Seq<Cyclotomic>, second: Seq<Cyclotomic>) -> Seq<
    Cyclotomic,
> {
    Seq::new(
        pairs.len(),
        |index: int| first[pairs[index].0 as int].times(second[pairs[index].1 as int]),
    )
}

/// The squared length of a vector is the sum of the squared moduli of its
/// components.
pub proof fn lemma_length_is_sum(amplitudes: Seq<Cyclotomic>)
    ensures
        squared_length(amplitudes) == sum_of(norms(amplitudes)),
    decreases amplitudes.len(),
{
    if amplitudes.len() > 0 {
        let shorter = amplitudes.drop_last();
        lemma_length_is_sum(shorter);
        assert(first_indices(amplitudes.len()).drop_last() =~= first_indices(shorter.len()));
        lemma_sum_at_agrees(norms(shorter), norms(amplitudes), first_indices(shorter.len()));
    }
}

/// The sum over some indices depends on the values at those indices only.
pub proof fn lemma_sum_at_agrees(first: Seq<RootTwo>, second: Seq<RootTwo>, indices: Seq<nat>)
    requires
        forall|k: int| 0 <= k < indices.len() ==> first[indices[k] as int] == second[indices[k] as int],
    ensures
        sum_at(first, indices) == sum_at(second, indices),
    decreases indices.len(),
{
    if indices.len() > 0 {
        let shorter = indices.drop_last();
        assert forall|k: int| 0 <= k < shorter.len() implies first[shorter[k] as int]
            == second[shorter[k] as int] by {
            assert(shorter[k] == indices[k]);
        }
        lemma_sum_at_agrees(first, second, shorter);
        assert(first[indices[indices.len() - 1] as int] == second[indices[indices.len() - 1] as int]);
    }
}

/// The squared moduli at some indices add up to the squared length of the
/// vector picked at those indices.
pub proof fn lemma_sum_at_is_length(amplitudes: Seq<Cyclotomic>, indices: Seq<nat>)
    requires
        forall|k: int| 0 <= k < indices.len() ==> #[trigger] indices[k] < amplitudes.len(),
    ensures
        sum_at(norms(amplitudes), indices) == squared_length(picked(amplitudes, indices)),
    decreases indices.len(),
{
    if indices.len() > 0 {
        let shorter = indices.drop_last();
        assert forall|k: int| 0 <= k < shorter.len() implies #[trigger] shorter[k]
            < amplitudes.len() by {
            assert(shorter[k] == indices[k]);
        }
        lemma_sum_at_is_length(amplitudes, shorter);
        assert(picked(amplitudes, indices).drop_last() =~= picked(amplitudes, shorter));
        assert(indices[indices.len() - 1] < amplitudes.len());
    }
}

/// If every row's sum doubles, the sum by rows doubles.
pub proof fn lemma_rows_doubled(after: Seq<RootTwo>, before: Seq<RootTwo>, table: Seq<Seq<nat>>)
    requires
        forall|row: int|
            0 <= row < table.len() ==> sum_at(after, #[trigger] table[row]) == sum_at(
                before,
                table[row],
            ).doubled(),
    ensures
        sum_by_rows(after, table) == sum_by_rows(before, table).doubled(),
    decreases table.len(),
{
    if table.len() > 0 {
        let above = table.drop_last();
        assert forall|row: int| 0 <= row < above.len() implies sum_at(after, #[trigger] above[row])
            == sum_at(before, above[row]).doubled() by {
            assert(above[row] == table[row]);
        }
        lemma_rows_doubled(after, before, above);
        assert(sum_at(after, table[table.len() - 1]) == sum_at(
            before,
            table[table.len() - 1],
        ).doubled());
    }
}

/// A gate keeps the length of its cluster's vector: applied `sqrt(2)` times
/// through any table of orbits that splits the indices of the vector, it
/// doubles the squared length.
pub proof fn lemma_gate_keeps_length(gate: Gate, orbits: Seq<Seq<nat>>, amplitudes: Seq<Cyclotomic>)
    requires
        is_partition(orbits, amplitudes.len()),
        forall|row: int|
            0 <= row < orbits.len() ==> (#[trigger] orbits[row]).len() == matrix_of(gate).len(),
    ensures
        applied(gate, orbits, amplitudes).len() == amplitudes.len(),
        squared_length(applied(gate, orbits, amplitudes)) == squared_length(amplitudes).doubled(),
{
    let after = applied(gate, orbits, amplitudes);
    let matrix = matrix_of(gate);
    assert forall|row: int| 0 <= row < orbits.len() implies sum_at(
        norms(after),
        #[trigger] orbits[row],
    ) == sum_at(norms(amplitudes), orbits[row]).doubled() by {
        let orbit = orbits[row];
        let inputs = picked(amplitudes, orbit);
        assert forall|place: int| 0 <= place < orbit.len() implies #[trigger] orbit[place]
            < amplitudes.len() by {
            assert(orbits[row][place] < amplitudes.len());
        }
        assert(picked(after, orbit) =~= product(matrix, inputs)) by {
            assert forall|place: int| 0 <= place < orbit.len() implies picked(after, orbit)[place]
                == product(matrix, inputs)[place] by {
                assert(orbits[row][place] < amplitudes.len());
                assert(occurs_at(orbits, orbit[place], row, place));
                lemma_position_of(orbits, amplitudes.len(), orbit[place], row, place);
            }
        }
        lemma_sum_at_is_length(after, orbit);
        lemma_sum_at_is_length(amplitudes, orbit);
        lemma_matrix_is_unitary(gate, inputs);
    }
    lemma_rows_doubled(norms(after), norms(amplitudes), orbits);
    lemma_sum_over_partition(norms(after), orbits);
    lemma_sum_over_partition(norms(amplitudes), orbits);
    lemma_length_is_sum(after);
    lemma_length_is_sum(amplitudes);
}

/// Every component of a vector times one factor.
pub open spec fn multiples(vector: Seq<Cyclotomic>, factor: Cyclotomic) -> Seq<Cyclotomic> {
    Seq::new(vector.len(), |index: int| vector[index].times(factor))
}

/// The tensor product of two vectors: the components of the first run
/// fastest.
pub open spec fn tensor(first: Seq<Cyclotomic>, second: Seq<Cyclotomic>) -> Seq<Cyclotomic> {
    Seq::new(
        first.len() * second.len(),
        |index: int| first[index % (first.len() as int)].times(second[index / (first.len() as int)]),
    )
}

/// Multiplying a vector by a factor multiplies its squared length by the
/// squared modulus of the factor.
pub proof fn lemma_length_of_multiples(vector: Seq<Cyclotomic>, factor: Cyclotomic)
    ensures
        squared_length(multiples(vector, factor)) == squared_length(vector).times(factor.norm()),
    decreases vector.len(),
{
    lemma_root_two_distributes(factor.norm(), RootTwo::zero(), RootTwo::zero());
    if vector.len() > 0 {
        let shorter = vector.drop_last();
        lemma_length_of_multiples(shorter, factor);
        assert(multiples(vector, factor).drop_last() =~= multiples(shorter, factor));
        lemma_norm_of_product(vector.last(), factor);
        lemma_root_two_distributes(factor.norm(), squared_length(shorter), vector.last().norm());
    }
}

/// The squared length of a tensor product is the product of the squared
/// lengths.
pub proof fn lemma_length_of_tensor(first: Seq<Cyclotomic>, second: Seq<Cyclotomic>)
    requires
        first.len() > 0,
    ensures
        squared_length(tensor(first, second)) == squared_length(first).times(
            squared_length(second),
        ),
    decreases second.len(),
{
    let width = first.len() as int;
    lemma_root_two_distributes(squared_length(first), RootTwo::zero(), RootTwo::zero());
    if second.len() == 0 {
        assert(width * 0 == 0) by (nonlinear_arith);
        assert(tensor(first, second).len() == 0);
    } else {
        let shorter = second.drop_last();
        let height = shorter.len() as int;
        let block = multiples(first, second.last());
        assert(width * (height + 1) == width * height + width && width * height >= 0)
            by (nonlinear_arith)
            requires
                width > 0,
                height >= 0,
        ;
        assert(tensor(first, second) =~= tensor(first, shorter) + block) by {
            assert forall|index: int| 0 <= index < width * (height + 1) implies tensor(
                first,
                second,
            )[index] == (tensor(first, shorter) + block)[index] by {
                if index < width * height {
                    lemma_multiply_divide_lt(index, width, height);
                    lemma_div_pos_is_pos(index, width);
                    lemma_mod_bound(index, width);
                } else {
                    let column = index - width * height;
                    assert(index == height * width + column) by (nonlinear_arith)
                        requires
                            column == index - width * height,
                    ;
                    lemma_fundamental_div_mod_converse(index, width, height, column);
                }
            }
        }
        lemma_length_of_concat(tensor(first, shorter), block);
        lemma_length_of_tensor(first, shorter);
        lemma_length_of_multiples(first, second.last());
        lemma_root_two_distributes(
            squared_length(first),
            squared_length(shorter),
            second.last().norm(),
        );
    }
}

/// A merge multiplies lengths: the squared length of the merged vector is
/// the product of the squared lengths of the two vectors it joins.
pub proof fn lemma_merge_multiplies_lengths(
    low_qubits: nat,
    high_qubits: nat,
    first: Seq<Cyclotomic>,
    second: Seq<Cyclotomic>,
)
    requires
        first.len() == pow2(low_qubits),
        second.len() == pow2(high_qubits),
    ensures
        merged(tensor_pairs(low_qubits, high_qubits), first, second).len() == pow2(
            low_qubits + high_qubits,
        ),
        squared_length(merged(tensor_pairs(low_qubits, high_qubits), first, second))
            == squared_length(first).times(squared_length(second)),
{
    lemma_pow2_adds(low_qubits, high_qubits);
    lemma_pow2_pos(low_qubits);
    assert(merged(tensor_pairs(low_qubits, high_qubits), first, second) =~= tensor(first, second));
    lemma_length_of_tensor(first, second);
}

/// A cluster with exact amplitudes: the amplitudes of the cluster are the
/// components of `amplitudes` divided by `sqrt(2)^halvings`.
pub struct ExactCluster {
    pub amplitudes: Seq<Cyclotomic>,
    pub halvings: nat,
}

/// The clusters of a fresh register: every qubit on its own, in state zero.
pub open spec fn fresh_register(qubits: nat) -> Seq<ExactCluster> {
    Seq::new(
        qubits,
        |qubit: int|
            ExactCluster { amplitudes: seq![Cyclotomic::one(), Cyclotomic::zero()], halvings: 0 },
    )
}

/// The clusters after an action is carried out on them.
pub open spec fn carried_out(state: Seq<ExactCluster>, action: ActionModel) -> Seq<ExactCluster> {
    match action {
        ActionModel::Merge { first, second, pairs } => without_two(
            state,
            first as int,
            second as int,
        ).push(
            ExactCluster {
                amplitudes: merged(
                    pairs,
                    state[first as int].amplitudes,
                    state[second as int].amplitudes,
                ),
                halvings: state[first as int].halvings + state[second as int].halvings,
            },
        ),
        ActionModel::Apply { cluster, gate, orbits } => state.update(
            cluster as int,
            ExactCluster {
                amplitudes: applied(gate, orbits, state[cluster as int].amplitudes),
                halvings: state[cluster as int].halvings + 1,
            },
        ),
    }
}

/// The clusters after a list of actions is carried out on them, in order.
pub open spec fn carried_out_all(state: Seq<ExactCluster>, actions: Seq<ActionModel>) -> Seq<
    ExactCluster,
>
    decreases actions.len(),
{
    if actions.len() == 0 {
        state
    } else {
        carried_out(carried_out_all(state, actions.drop_last()), actions.last())
    }
}

/// The amplitude vector of the cluster has length one: its squared length,
/// held `2^halvings` times, is `2^halvings`.
pub open spec fn has_length_one(cluster: ExactCluster) -> bool {
    squared_length(cluster.amplitudes) == RootTwo { whole: pow2(cluster.halvings) as int, root: 0 }
}

/// The clusters go with the layout: there is one for every cluster of the
/// layout, with one amplitude for every basis state of its qubits, and its
/// amplitude vector has length one.
pub open spec fn state_matches(state: Seq<ExactCluster>, layout: Seq<Seq<nat>>) -> bool {
    &&& state.len() == layout.len()
    &&& forall|k: int|
        0 <= k < state.len() ==> (#[trigger] state[k]).amplitudes.len() == pow2(layout[k].len())
            && has_length_one(state[k])
}

/// A fresh register goes with the fresh layout.
pub proof fn lemma_fresh_register_matches(qubits: nat)
    ensures
        state_matches(fresh_register(qubits), initial_layout(qubits)),
{
    lemma2_to64();
    lemma_norm_of_basis();
    lemma_length_of_two(seq![Cyclotomic::one(), Cyclotomic::zero()]);
}

/// Carrying out one action after others is carrying out the list that ends
/// with it, and carrying out the actions of two lists in turn is carrying
/// out their concatenation.
pub proof fn lemma_carried_out_in_turn(
    state: Seq<ExactCluster>,
    first: Seq<ActionModel>,
    second: Seq<ActionModel>,
)
    ensures
        carried_out_all(state, first + second) == carried_out_all(
            carried_out_all(state, first),
            second,
        ),
    decreases second.len(),
{
    if second.len() == 0 {
        assert(first + second =~= first);
    } else {
        lemma_carried_out_in_turn(state, first, second.drop_last());
        assert((first + second).drop_last() =~= first + second.drop_last());
        assert((first + second).last() == second.last());
    }
}

/// The identity leaves every amplitude as it is, whatever qubit it is
/// applied to.
pub proof fn lemma_identity_keeps_amplitudes(
    state: Seq<ExactCluster>,
    layout: Seq<Seq<nat>>,
    operation: OperationModel,
)
    requires
        operation.gate == Gate::Identity,
    ensures
        carried_out_all(state, actions_for(layout, operation)) == state,
        layout_after(layout, operation) == layout,
{
}

/// A gate applied to a cluster of matching clusters leaves them matching.
pub proof fn lemma_apply_keeps_length_one(
    state: Seq<ExactCluster>,
    layout: Seq<Seq<nat>>,
    cluster: int,
    gate: Gate,
    targets: Seq<nat>,
)
    requires
        state_matches(state, layout),
        0 <= cluster < layout.len(),
        layout[cluster].len() <= 6,
        targets_fit(layout[cluster].len(), targets),
        targets.len() == gate.arity(),
    ensures
        state_matches(
            carried_out(
                state,
                ActionModel::Apply {
                    cluster: cluster as nat,
                    gate,
                    orbits: orbits(layout[cluster].len(), targets),
                },
            ),
            layout,
        ),
{
    let table = orbits(layout[cluster].len(), targets);
    let before = state[cluster];
    lemma2_to64();
    lemma_orbits_partition(layout[cluster].len(), targets);
    assert(matrix_of(gate).len() == pow2(targets.len()));
    lemma_gate_keeps_length(gate, table, before.amplitudes);
    lemma_pow2_unfold(before.halvings + 1);
    assert(has_length_one(before));
}

/// Merging two clusters of matching clusters gives clusters that match the
/// merged layout.
pub proof fn lemma_merge_keeps_length_one(
    state: Seq<ExactCluster>,
    layout: Seq<Seq<nat>>,
    first: int,
    second: int,
)
    requires
        state_matches(state, layout),
        0 <= first < layout.len(),
        0 <= second < layout.len(),
        first != second,
    ensures
        state_matches(
            carried_out(
                state,
                ActionModel::Merge {
                    first: first as nat,
                    second: second as nat,
                    pairs: tensor_pairs(layout[first].len(), layout[second].len()),
                },
            ),
            merged_layout(layout, first, second),
        ),
{
    let after = carried_out(
        state,
        ActionModel::Merge {
            first: first as nat,
            second: second as nat,
            pairs: tensor_pairs(layout[first].len(), layout[second].len()),
        },
    );
    let joined = merged_layout(layout, first, second);
    let low = state[first];
    let high = state[second];
    let last = layout.len() - 2;
    assert(has_length_one(low) && has_length_one(high));
    lemma_merge_multiplies_lengths(
        layout[first].len(),
        layout[second].len(),
        low.amplitudes,
        high.amplitudes,
    );
    lemma_pow2_adds(low.halvings, high.halvings);
    let whole_low = pow2(low.halvings) as int;
    let whole_high = pow2(high.halvings) as int;
    assert(whole_low * whole_high + 2 * (0int * 0int) == whole_low * whole_high && whole_low * 0
        + 0 * whole_high == 0) by (nonlinear_arith);
    assert(has_length_one(after[last]));
    assert forall|k: int| 0 <= k < after.len() implies (#[trigger] after[k]).amplitudes.len()
        == pow2(joined[k].len()) && has_length_one(after[k]) by {
        if k < last {
            let source = if first < second {
                if k < first {
                    k
                } else if k + 1 < second {
                    k + 1
                } else {
                    k + 2
                }
            } else {
                if k < second {
                    k
                } else if k + 1 < first {
                    k + 1
                } else {
                    k + 2
                }
            };
            assert(after[k] == state[source]);
            assert(joined[k] == layout[source]);
        }
    }
}

/// An operation that fits, carried out on clusters that match the layout,
/// leaves clusters that match the layout after it: every cluster still has
/// an amplitude vector of length one.
pub proof fn lemma_operation_keeps_length_one(
    state: Seq<ExactCluster>,
    layout: Seq<Seq<nat>>,
    qubits: nat,
    operation: OperationModel,
)
    requires
        layout_is_valid(layout, qubits),
        operation.fits(qubits),
        state_matches(state, layout),
    ensures
        state_matches(
            carried_out_all(state, actions_for(layout, operation)),
            layout_after(layout, operation),
        ),
{
    let actions = actions_for(layout, operation);
    let gate = operation.gate;
    reveal_with_fuel(carried_out_all, 3);
    assert(occurs(layout, operation.qubits[0]));
    let (cluster, place) = position_of(layout, operation.qubits[0]);
    assert(occurs_at(layout, operation.qubits[0], cluster, place));
    lemma_cluster_sizes(layout, cluster, cluster);
    if gate == Gate::Identity {
    } else if gate.arity() == 1 {
        let targets = seq![place as nat];
        lemma_apply_keeps_length_one(state, layout, cluster, gate, targets);
        assert(actions.drop_last() =~= Seq::<ActionModel>::empty());
    } else {
        assert(occurs(layout, operation.qubits[1]));
        let (other_cluster, other_place) = position_of(layout, operation.qubits[1]);
        assert(occurs_at(layout, operation.qubits[1], other_cluster, other_place));
        assert(operation.qubits[0] != operation.qubits[1]);
        if cluster == other_cluster {
            let targets = seq![place as nat, other_place as nat];
            lemma_apply_keeps_length_one(state, layout, cluster, gate, targets);
            assert(actions.drop_last() =~= Seq::<ActionModel>::empty());
        } else {
            let joined = merged_layout(layout, cluster, other_cluster);
            let last = layout.len() - 2;
            let targets = seq![place as nat, (layout[cluster].len() + other_place) as nat];
            lemma_cluster_sizes(layout, cluster, other_cluster);
            lemma_merge_keeps_length_one(state, layout, cluster, other_cluster);
            let between = carried_out(state, actions[0]);
            assert(joined[last] == layout[cluster] + layout[other_cluster]);
            lemma_apply_keeps_length_one(between, joined, last, gate, targets);
            assert(actions.drop_last() =~= seq![actions[0]]);
            assert(actions.drop_last().drop_last() =~= Seq::<ActionModel>::empty());
        }
    }
}

} // verus!
