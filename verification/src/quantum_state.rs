//! The register: which qubits are tracked together, and what every operation
//! asks of their amplitudes.
//!
//! The register's qubits are split into clusters. A cluster lists its qubits
//! in the order in which they joined it, and that order never changes: the
//! cluster's `i`-th qubit is bit `i` of its basis indices. A gate on qubits of
//! one cluster combines amplitudes of that cluster, orbit by orbit. A gate on
//! qubits of two clusters first merges them into one, which takes their place
//! at the end of the list.

use crate::basis::{
    natural_pairs, natural_rows, naturals, orbit_table, orbits, tensor_pair_table, tensor_pairs,
};
use crate::circuit_parser::{Operation, OperationModel};
use crate::gate::{Gate, MAX_QUBITS};
use crate::partition::{
    is_partition, lemma_position_of, lemma_total_size_remove, occurs, occurs_at, position_of,
    total_size,
};
use vstd::prelude::*;

verus! {

/// One thing to do to the amplitudes of a register.
#[derive(Debug, PartialEq, Eq)]
pub enum Action {
    /// Replace clusters `first` and `second` by their tensor product, put at
    /// the end of the list: amplitude `i` of the product is amplitude
    /// `pairs[i].0` of `first` times amplitude `pairs[i].1` of `second`.
    Merge { first: usize, second: usize, pairs: Vec<(usize, usize)> },
    /// Multiply the amplitudes of `cluster` by the matrix of `gate`, orbit by
    /// orbit: the amplitudes at the indices of one orbit, in the order listed,
    /// form the vector that the matrix is applied to.
    Apply { cluster: usize, gate: Gate, orbits: Vec<Vec<usize>> },
}

/// An action as a mathematical value.
pub enum ActionModel {
    Merge { first: nat, second: nat, pairs: Seq<(nat, nat)> },
    Apply { cluster: nat, gate: Gate, orbits: Seq<Seq<nat>> },
}

impl View for Action {
    type V = ActionModel;

    open spec fn view(&self) -> ActionModel {
        match *self {
            Action::Merge { first, second, pairs } => ActionModel::Merge {
                first: first as nat,
                second: second as nat,
                pairs: natural_pairs(pairs@),
            },
            Action::Apply { cluster, gate, orbits } => ActionModel::Apply {
                cluster: cluster as nat,
                gate,
                orbits: natural_rows(orbits@),
            },
        }
    }
}

impl DeepView for Action {
    type V = ActionModel;

    open spec fn deep_view(&self) -> ActionModel {
        self@
    }
}

/// The layout of a fresh register: every qubit a cluster of its own, in
/// qubit order.
pub open spec fn initial_layout(qubits: nat) -> Seq<Seq<nat>> {
    Seq::new(qubits, |qubit: int| seq![qubit as nat])
}

/// A layout that a register of `qubits` qubits can have: the clusters split
/// the qubits among them, none is empty, and there are no more qubits than
/// the limit allows.
pub open spec fn layout_is_valid(layout: Seq<Seq<nat>>, qubits: nat) -> bool {
    &&& qubits <= MAX_QUBITS
    &&& is_partition(layout, qubits)
    &&& total_size(layout) == qubits
    &&& forall|row: int| 0 <= row < layout.len() ==> (#[trigger] layout[row]).len() > 0
}

/// The list without its items `first` and `second`, the others in their
/// order.
pub open spec fn without_two<T>(items: Seq<T>, first: int, second: int) -> Seq<T> {
    if first < second {
        items.remove(second).remove(first)
    } else {
        items.remove(first).remove(second)
    }
}

/// The layout after clusters `first` and `second` have merged: the other
/// clusters keep their order, and the merged cluster comes last, with the
/// qubits of `first` followed by those of `second`.
pub open spec fn merged_layout(layout: Seq<Seq<nat>>, first: int, second: int) -> Seq<Seq<nat>> {
    without_two(layout, first, second).push(layout[first] + layout[second])
}

/// The layout after an operation: unchanged, unless the operation acts on
/// qubits of two clusters, which then merge, the cluster of the operation's
/// first qubit first.
pub open spec fn layout_after(layout: Seq<Seq<nat>>, operation: OperationModel) -> Seq<Seq<nat>> {
    if operation.gate.arity() == 2 && position_of(layout, operation.qubits[0]).0 != position_of(
        layout,
        operation.qubits[1],
    ).0 {
        merged_layout(
            layout,
            position_of(layout, operation.qubits[0]).0,
            position_of(layout, operation.qubits[1]).0,
        )
    } else {
        layout
    }
}

/// What an operation asks of the amplitudes of a register with the given
/// layout. The identity asks nothing. A gate on one qubit, or on two qubits
/// of one cluster, is applied to that cluster at the places of its qubits.
/// A gate on qubits of two clusters asks for their merge first, and is then
/// applied to the merged cluster, where the qubits of the second cluster
/// stand behind those of the first.
pub open spec fn actions_for(layout: Seq<Seq<nat>>, operation: OperationModel) -> Seq<ActionModel> {
    let (cluster, place) = position_of(layout, operation.qubits[0]);
    if operation.gate == Gate::Identity {
        Seq::empty()
    } else if operation.gate.arity() == 1 {
        seq![
            ActionModel::Apply {
                cluster: cluster as nat,
                gate: operation.gate,
                orbits: orbits(layout[cluster].len(), seq![place as nat]),
            },
        ]
    } else {
        let (other_cluster, other_place) = position_of(layout, operation.qubits[1]);
        if cluster == other_cluster {
            seq![
                ActionModel::Apply {
                    cluster: cluster as nat,
                    gate: operation.gate,
                    orbits: orbits(layout[cluster].len(), seq![place as nat, other_place as nat]),
                },
            ]
        } else {
            seq![
                ActionModel::Merge {
                    first: cluster as nat,
                    second: other_cluster as nat,
                    pairs: tensor_pairs(layout[cluster].len(), layout[other_cluster].len()),
                },
                ActionModel::Apply {
                    cluster: (layout.len() - 2) as nat,
                    gate: operation.gate,
                    orbits: orbits(
                        layout[cluster].len() + layout[other_cluster].len(),
                        seq![place as nat, (layout[cluster].len() + other_place) as nat],
                    ),
                },
            ]
        }
    }
}

/// The identity asks nothing of the amplitudes and leaves the layout as it is,
/// whatever qubit it is applied to.
pub proof fn lemma_identity_changes_nothing(layout: Seq<Seq<nat>>, operation: OperationModel)
    requires
        operation.gate == Gate::Identity,
    ensures
        actions_for(layout, operation) == Seq::<ActionModel>::empty(),
        layout_after(layout, operation) == layout,
{
}

/// A fresh register is validly laid out.
pub proof fn lemma_initial_layout_valid(qubits: nat)
    requires
        qubits <= MAX_QUBITS,
    ensures
        layout_is_valid(initial_layout(qubits), qubits),
{
    let layout = initial_layout(qubits);
    assert forall|value: nat| value < qubits implies #[trigger] occurs(layout, value) by {
        assert(occurs_at(layout, value, value as int, 0));
    }
    lemma_initial_layout_size(qubits);
}

/// A fresh layout has one entry per qubit.
proof fn lemma_initial_layout_size(qubits: nat)
    ensures
        total_size(initial_layout(qubits)) == qubits,
    decreases qubits,
{
    if qubits > 0 {
        lemma_initial_layout_size((qubits - 1) as nat);
        assert(initial_layout(qubits).drop_last() =~= initial_layout((qubits - 1) as nat));
    }
}

/// No cluster, and no two clusters together, hold more qubits than the
/// register has.
pub proof fn lemma_cluster_sizes(layout: Seq<Seq<nat>>, first: int, second: int)
    requires
        0 <= first < layout.len(),
        0 <= second < layout.len(),
    ensures
        layout[first].len() <= total_size(layout),
        first != second ==> layout[first].len() + layout[second].len() <= total_size(layout),
        first != second ==> total_size(merged_layout(layout, first, second)) == total_size(layout),
{
    lemma_total_size_remove(layout, first);
    if first != second {
        let merged = merged_layout(layout, first, second);
        assert(merged.drop_last() =~= without_two(layout, first, second));
        if first < second {
            lemma_total_size_remove(layout, second);
            lemma_total_size_remove(layout.remove(second), first);
        } else {
            lemma_total_size_remove(layout.remove(first), second);
        }
    }
}

/// Merging two clusters of a valid layout gives a valid layout.
pub proof fn lemma_merge_keeps_valid(layout: Seq<Seq<nat>>, qubits: nat, first: int, second: int)
    requires
        layout_is_valid(layout, qubits),
        0 <= first < layout.len(),
        0 <= second < layout.len(),
        first != second,
    ensures
        layout_is_valid(merged_layout(layout, first, second), qubits),
{
    let merged = merged_layout(layout, first, second);
    let rest = without_two(layout, first, second);
    let low = if first < second { first } else { second };
    let high = if first < second { second } else { first };
    let last = layout.len() - 2;
    lemma_cluster_sizes(layout, first, second);
    assert(merged.len() == layout.len() - 1);
    assert forall|row: int| 0 <= row < last implies #[trigger] merged[row] == layout[if row < low {
        row
    } else if row + 1 < high {
        row + 1
    } else {
        row + 2
    }] by {}
    assert(merged[last] == layout[first] + layout[second]);
    assert forall|value: nat| value < qubits implies #[trigger] occurs(merged, value) by {
        assert(occurs(layout, value));
        let (row, place) = choose|row: int, place: int| occurs_at(layout, value, row, place);
        if row == first {
            assert(occurs_at(merged, value, last, place));
        } else if row == second {
            assert(occurs_at(merged, value, last, layout[first].len() + place));
        } else if row < low {
            assert(occurs_at(merged, value, row, place));
        } else if row < high {
            assert(occurs_at(merged, value, row - 1, place));
        } else {
            assert(occurs_at(merged, value, row - 2, place));
        }
    }
    assert forall|row: int, place: int|
        0 <= row < merged.len() && 0 <= place < merged[row].len() implies #[trigger] merged[row][place]
        < qubits by {
        lemma_origin(layout, first, second, row, place);
    }
    assert forall|row: int, place: int, other_row: int, other_place: int|
        #![trigger merged[row][place], merged[other_row][other_place]]
        0 <= row < merged.len() && 0 <= place < merged[row].len() && 0 <= other_row < merged.len()
            && 0 <= other_place < merged[other_row].len() && merged[row][place]
            == merged[other_row][other_place] implies row == other_row && place == other_place by {
        lemma_origin(layout, first, second, row, place);
        lemma_origin(layout, first, second, other_row, other_place);
        let here = origin(layout, first, second, row, place);
        let there = origin(layout, first, second, other_row, other_place);
        assert(layout[here.0][here.1] == layout[there.0][there.1]);
    }
}

/// An operation that fits keeps a valid layout valid, and never adds a
/// cluster.
pub proof fn lemma_operation_keeps_valid(
    layout: Seq<Seq<nat>>,
    qubits: nat,
    operation: OperationModel,
)
    requires
        layout_is_valid(layout, qubits),
        operation.fits(qubits),
    ensures
        layout_is_valid(layout_after(layout, operation), qubits),
        layout_after(layout, operation).len() <= layout.len(),
{
    if operation.gate.arity() == 2 {
        let first = operation.qubits[0];
        let second = operation.qubits[1];
        assert(occurs(layout, first));
        assert(occurs(layout, second));
        let here = position_of(layout, first);
        let there = position_of(layout, second);
        assert(occurs_at(layout, first, here.0, here.1));
        assert(occurs_at(layout, second, there.0, there.1));
        if here.0 != there.0 {
            lemma_merge_keeps_valid(layout, qubits, here.0, there.0);
        }
    }
}

/// All qubits of `cluster` stand together in one cluster of the layout.
pub open spec fn lies_within(cluster: Seq<nat>, layout: Seq<Seq<nat>>) -> bool {
    exists|row: int|
        0 <= row < layout.len() && forall|place: int|
            0 <= place < cluster.len() ==> (#[trigger] layout[row]).contains(cluster[place])
}

/// Clusters only grow: after an operation that fits, the qubits of every
/// cluster still stand together in one cluster.
pub proof fn lemma_clusters_only_grow(layout: Seq<Seq<nat>>, qubits: nat, operation: OperationModel)
    requires
        layout_is_valid(layout, qubits),
        operation.fits(qubits),
    ensures
        forall|row: int|
            0 <= row < layout.len() ==> lies_within(
                #[trigger] layout[row],
                layout_after(layout, operation),
            ),
{
    let after = layout_after(layout, operation);
    assert forall|row: int| 0 <= row < layout.len() implies lies_within(
        #[trigger] layout[row],
        after,
    ) by {
        let cluster = layout[row];
        if after == layout {
            assert forall|place: int| 0 <= place < cluster.len() implies (#[trigger] after[row]).contains(
                cluster[place],
            ) by {
                assert(after[row][place] == cluster[place]);
            }
        } else {
            let first = position_of(layout, operation.qubits[0]).0;
            let second = position_of(layout, operation.qubits[1]).0;
            assert(occurs(layout, operation.qubits[0]));
            assert(occurs(layout, operation.qubits[1]));
            assert(occurs_at(
                layout,
                operation.qubits[0],
                first,
                position_of(layout, operation.qubits[0]).1,
            ));
            assert(occurs_at(
                layout,
                operation.qubits[1],
                second,
                position_of(layout, operation.qubits[1]).1,
            ));
            let low = if first < second { first } else { second };
            let high = if first < second { second } else { first };
            let last = layout.len() - 2;
            let target = if row == first || row == second {
                last
            } else if row < low {
                row
            } else if row < high {
                row - 1
            } else {
                row - 2
            };
            assert(after[last] == layout[first] + layout[second]);
            assert forall|place: int| 0 <= place < cluster.len() implies (
            #[trigger] after[target]).contains(cluster[place]) by {
                if row == first {
                    assert(after[target][place] == cluster[place]);
                } else if row == second {
                    assert(after[target][layout[first].len() + place] == cluster[place]);
                } else {
                    assert(after[target] == layout[row]);
                    assert(after[target][place] == cluster[place]);
                }
            }
        }
    }
}

/// Where the entry at (`row`, `place`) of the merged layout stood before the
/// merge.
spec fn origin(layout: Seq<Seq<nat>>, first: int, second: int, row: int, place: int) -> (int, int) {
    let low = if first < second { first } else { second };
    let high = if first < second { second } else { first };
    if row == layout.len() - 2 {
        if place < layout[first].len() {
            (first, place)
        } else {
            (second, place - layout[first].len())
        }
    } else if row < low {
        (row, place)
    } else if row + 1 < high {
        (row + 1, place)
    } else {
        (row + 2, place)
    }
}

/// Every entry of the merged layout stood at its origin before the merge,
/// and the entries of the merged cluster are those of the two clusters.
proof fn lemma_origin(layout: Seq<Seq<nat>>, first: int, second: int, row: int, place: int)
    requires
        0 <= first < layout.len(),
        0 <= second < layout.len(),
        first != second,
        0 <= row < merged_layout(layout, first, second).len(),
        0 <= place < merged_layout(layout, first, second)[row].len(),
    ensures
        ({
            let (old_row, old_place) = origin(layout, first, second, row, place);
            &&& 0 <= old_row < layout.len()
            &&& 0 <= old_place < layout[old_row].len()
            &&& layout[old_row][old_place] == merged_layout(layout, first, second)[row][place]
            &&& row == layout.len() - 2 <==> old_row == first || old_row == second
        }),
{
}

/// The qubit lists of a register's clusters, in cluster order.
#[derive(Debug)]
pub struct ClusterLayout {
    clusters: Vec<Vec<usize>>,
    qubits: usize,
}

impl View for ClusterLayout {
    type V = Seq<Seq<nat>>;

    closed spec fn view(&self) -> Seq<Seq<nat>> {
        natural_rows(self.clusters@)
    }
}

/// A copy of a list of indices.
fn copy_of(indices: &Vec<usize>) -> (copy: Vec<usize>)
    ensures
        copy@ == indices@,
{
    let mut copy: Vec<usize> = Vec::new();
    let mut i: usize = 0;
    while i < indices.len()
        invariant
            i <= indices.len(),
            copy@ == indices@.take(i as int),
        decreases indices.len() - i,
    {
        copy.push(indices[i]);
        assert(copy@ =~= indices@.take(i + 1));
        i += 1;
    }
    assert(copy@ =~= indices@);
    copy
}

/// The two lists of indices, one after the other.
fn concatenation(first: &Vec<usize>, second: &Vec<usize>) -> (joined: Vec<usize>)
    ensures
        joined@ == first@ + second@,
{
    let mut joined: Vec<usize> = copy_of(first);
    let mut i: usize = 0;
    while i < second.len()
        invariant
            i <= second.len(),
            joined@ == first@ + second@.take(i as int),
        decreases second.len() - i,
    {
        joined.push(second[i]);
        assert(joined@ =~= first@ + second@.take(i + 1));
        i += 1;
    }
    assert(joined@ =~= first@ + second@);
    joined
}

/// A copy of a table of indices that shares nothing with it.
fn copy_of_rows(rows: &Vec<Vec<usize>>) -> (copy: Vec<Vec<usize>>)
    ensures
        natural_rows(copy@) == natural_rows(rows@),
{
    let mut copy: Vec<Vec<usize>> = Vec::new();
    let mut i: usize = 0;
    while i < rows.len()
        invariant
            i <= rows.len(),
            copy.len() == i,
            forall|k: int| 0 <= k < i ==> (#[trigger] copy[k])@ == rows[k]@,
        decreases rows.len() - i,
    {
        copy.push(copy_of(&rows[i]));
        i += 1;
    }
    assert(natural_rows(copy@) =~= natural_rows(rows@));
    copy
}

impl ClusterLayout {
    /// The number of qubits of the register.
    pub closed spec fn qubit_count(&self) -> nat {
        self.qubits as nat
    }

    /// The layout is one that a register can have.
    pub open spec fn wf(&self) -> bool {
        layout_is_valid(self@, self.qubit_count())
    }

    /// A fresh register of `qubits` qubits: every qubit a cluster of its own.
    pub fn initialize(qubits: usize) -> (layout: Self)
        requires
            qubits <= MAX_QUBITS,
        ensures
            layout.wf(),
            layout.qubit_count() == qubits,
            layout@ == initial_layout(qubits as nat),
    {
        let mut clusters: Vec<Vec<usize>> = Vec::new();
        let mut qubit: usize = 0;
        while qubit < qubits
            invariant
                qubit <= qubits,
                clusters.len() == qubit,
                forall|k: int| 0 <= k < qubit ==> naturals((#[trigger] clusters[k])@) == seq![k as nat],
            decreases qubits - qubit,
        {
            let mut cluster: Vec<usize> = Vec::new();
            cluster.push(qubit);
            assert(naturals(cluster@) =~= seq![qubit as nat]);
            clusters.push(cluster);
            qubit += 1;
        }
        let layout = ClusterLayout { clusters, qubits };
        proof {
            assert(layout@ =~= initial_layout(qubits as nat));
            lemma_initial_layout_valid(qubits as nat);
        }
        layout
    }

    /// The number of qubits of the register.
    pub fn qubits(&self) -> (count: usize)
        ensures
            count == self.qubit_count(),
    {
        self.qubits
    }

    /// A copy of the clusters' qubit lists, in cluster order. It shares
    /// nothing with the register: what happens to the register later does not
    /// change it.
    pub fn snapshot(&self) -> (clusters: Vec<Vec<usize>>)
        ensures
            natural_rows(clusters@) == self@,
    {
        copy_of_rows(&self.clusters)
    }

    /// The cluster that holds `qubit`, and the place of `qubit` in it.
    pub fn locate(&self, qubit: usize) -> (position: (usize, usize))
        requires
            self.wf(),
            qubit < self.qubit_count(),
        ensures
            (position.0 as int, position.1 as int) == position_of(self@, qubit as nat),
            occurs_at(self@, qubit as nat, position.0 as int, position.1 as int),
    {
        let mut row: usize = 0;
        while row < self.clusters.len()
            invariant
                row <= self.clusters.len(),
                self.wf(),
                forall|r: int, p: int|
                    0 <= r < row && 0 <= p < self@[r].len() ==> #[trigger] self@[r][p] != qubit,
            decreases self.clusters.len() - row,
        {
            let mut place: usize = 0;
            while place < self.clusters[row].len()
                invariant
                    row < self.clusters.len(),
                    place <= self.clusters[row as int].len(),
                    self.wf(),
                    forall|p: int| 0 <= p < place ==> #[trigger] self@[row as int][p] != qubit,
                decreases self.clusters[row as int].len() - place,
            {
                if self.clusters[row][place] == qubit {
                    proof {
                        assert(occurs_at(self@, qubit as nat, row as int, place as int));
                        lemma_position_of(
                            self@,
                            self.qubit_count(),
                            qubit as nat,
                            row as int,
                            place as int,
                        );
                    }
                    return (row, place);
                }
                place += 1;
            }
            row += 1;
        }
        proof {
            assert(occurs(self@, qubit as nat));
            let (r, p) = choose|r: int, p: int| occurs_at(self@, qubit as nat, r, p);
            assert(self@[r][p] != qubit);
            assert(false);
        }
        (0, 0)
    }

    /// Takes an operation into account: merges the clusters of its qubits
    /// where they differ, and returns what the operation asks of the
    /// amplitudes, in the order in which it is to be done. The identity asks
    /// nothing and changes nothing.
    pub fn apply(&mut self, operation: &Operation) -> (actions: Vec<Action>)
        requires
            old(self).wf(),
            operation@.fits(old(self).qubit_count()),
        ensures
            final(self).wf(),
            final(self).qubit_count() == old(self).qubit_count(),
            final(self)@ == layout_after(old(self)@, operation@),
            actions.deep_view() == actions_for(old(self)@, operation@),
            operation@.gate == Gate::Identity ==> actions@.len() == 0 && final(self)@ == old(self)@,
            final(self)@.len() <= old(self)@.len(),
    {
        let ghost layout = self@;
        let ghost model = operation@;
        let gate = operation.gate;
        let mut actions: Vec<Action> = Vec::new();
        assert(model.qubits[0] == operation.qubits[0] && model.qubits[0] < self.qubit_count());
        let (cluster, place) = self.locate(operation.qubits[0]);
        if gate == Gate::Identity {
            assert(actions.deep_view() =~= actions_for(layout, model));
            return actions;
        }
        proof {
            lemma_cluster_sizes(layout, cluster as int, cluster as int);
        }
        if gate.qubits_needed() == 1 {
            let mut targets: Vec<usize> = Vec::new();
            targets.push(place);
            assert(naturals(targets@) =~= seq![place as nat]);
            let orbits = orbit_table(self.clusters[cluster].len(), &targets);
            actions.push(Action::Apply { cluster, gate, orbits });
            assert(actions.deep_view() =~= actions_for(layout, model));
            return actions;
        }
        assert(model.qubits[1] == operation.qubits[1] && model.qubits[1] < self.qubit_count());
        let (other_cluster, other_place) = self.locate(operation.qubits[1]);
        if cluster == other_cluster {
            let mut targets: Vec<usize> = Vec::new();
            targets.push(place);
            targets.push(other_place);
            assert(naturals(targets@) =~= seq![place as nat, other_place as nat]);
            assert(place != other_place) by {
                assert(model.qubits[0] != model.qubits[1]);
            }
            let orbits = orbit_table(self.clusters[cluster].len(), &targets);
            actions.push(Action::Apply { cluster, gate, orbits });
            assert(actions.deep_view() =~= actions_for(layout, model));
            return actions;
        }
        proof {
            lemma_cluster_sizes(layout, cluster as int, other_cluster as int);
            lemma_merge_keeps_valid(
                layout,
                self.qubit_count(),
                cluster as int,
                other_cluster as int,
            );
        }
        let low_qubits: usize = self.clusters[cluster].len();
        let high_qubits: usize = self.clusters[other_cluster].len();
        let pairs = tensor_pair_table(low_qubits, high_qubits);
        let merged = concatenation(&self.clusters[cluster], &self.clusters[other_cluster]);
        let low: usize = if cluster < other_cluster { cluster } else { other_cluster };
        let high: usize = if cluster < other_cluster { other_cluster } else { cluster };
        let count: usize = self.clusters.len();
        let mut clusters: Vec<Vec<usize>> = Vec::new();
        let mut row: usize = 0;
        while row < count
            invariant
                row <= count,
                count == self.clusters.len(),
                layout == natural_rows(self.clusters@),
                low < high < count,
                clusters.len() == (if row <= low {
                    row as int
                } else if row <= high {
                    row - 1
                } else {
                    row - 2
                }),
                forall|k: int|
                    0 <= k < clusters.len() ==> naturals((#[trigger] clusters[k])@) == layout[if k
                        < low {
                        k
                    } else if k + 1 < high {
                        k + 1
                    } else {
                        k + 2
                    }],
            decreases count - row,
        {
            if row != low && row != high {
                clusters.push(copy_of(&self.clusters[row]));
            }
            row += 1;
        }
        assert(naturals(merged@) =~= layout[cluster as int] + layout[other_cluster as int]);
        clusters.push(merged);
        assert(natural_rows(clusters@) =~= merged_layout(
            layout,
            cluster as int,
            other_cluster as int,
        ));
        let mut targets: Vec<usize> = Vec::new();
        targets.push(place);
        targets.push(low_qubits + other_place);
        assert(naturals(targets@) =~= seq![place as nat, (low_qubits + other_place) as nat]);
        let orbits = orbit_table(low_qubits + high_qubits, &targets);
        actions.push(Action::Merge { first: cluster, second: other_cluster, pairs });
        actions.push(Action::Apply { cluster: count - 2, gate, orbits });
        self.clusters = clusters;
        assert(actions.deep_view() =~= actions_for(layout, model));
        actions
    }
}

} // verus!
