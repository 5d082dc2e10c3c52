use quantum_simulator::basis::{orbit_table, power_of_two, tensor_pair_table};
use quantum_simulator::circuit_parser::Operation;
use quantum_simulator::gate::Gate;
use quantum_simulator::quantum_state::{Action, ClusterLayout};

fn op(gate: Gate, qubits: &[usize]) -> Operation {
    Operation { gate, qubits: qubits.to_vec() }
}

#[test]
fn powers_of_two_up_to_the_limit() {
    assert_eq!(
        (0..=6).map(power_of_two).collect::<Vec<usize>>(),
        vec![1, 2, 4, 8, 16, 32, 64]
    );
}

#[test]
fn tensor_pairs_put_the_first_cluster_in_the_low_bits() {
    assert_eq!(
        tensor_pair_table(1, 2),
        vec![(0, 0), (1, 0), (0, 1), (1, 1), (0, 2), (1, 2), (0, 3), (1, 3)]
    );
    assert_eq!(
        tensor_pair_table(2, 1),
        vec![(0, 0), (1, 0), (2, 0), (3, 0), (0, 1), (1, 1), (2, 1), (3, 1)]
    );
    assert_eq!(tensor_pair_table(0, 0), vec![(0, 0)]);
    assert_eq!(tensor_pair_table(3, 3).len(), 64);
}

#[test]
fn tensor_pairs_take_every_pair_once() {
    let table = tensor_pair_table(2, 3);
    let mut seen = vec![false; 32];
    for (low, high) in table {
        assert!(low < 4 && high < 8);
        assert!(!seen[low + 4 * high]);
        seen[low + 4 * high] = true;
    }
    assert!(seen.iter().all(|&hit| hit));
}

#[test]
fn orbits_of_a_single_target() {
    assert_eq!(orbit_table(1, &vec![0]), vec![vec![0, 1]]);
    assert_eq!(orbit_table(3, &vec![0]), vec![vec![0, 1], vec![2, 3], vec![4, 5], vec![6, 7]]);
    assert_eq!(orbit_table(3, &vec![1]), vec![vec![0, 2], vec![1, 3], vec![4, 6], vec![5, 7]]);
    assert_eq!(orbit_table(3, &vec![2]), vec![vec![0, 4], vec![1, 5], vec![2, 6], vec![3, 7]]);
}

#[test]
fn orbits_of_two_targets_follow_the_matrix_rows() {
    assert_eq!(orbit_table(2, &vec![0, 1]), vec![vec![0, 2, 1, 3]]);
    assert_eq!(orbit_table(2, &vec![1, 0]), vec![vec![0, 1, 2, 3]]);
    assert_eq!(orbit_table(3, &vec![2, 0]), vec![vec![0, 1, 4, 5], vec![2, 3, 6, 7]]);
    assert_eq!(orbit_table(3, &vec![0, 2]), vec![vec![0, 4, 1, 5], vec![2, 6, 3, 7]]);
}

#[test]
fn orbits_split_the_indices_of_the_largest_cluster() {
    for targets in [vec![3], vec![5, 0], vec![2, 4]] {
        let table = orbit_table(6, &targets);
        assert_eq!(table.len(), 64 >> targets.len());
        let mut seen = vec![false; 64];
        for orbit in table {
            assert_eq!(orbit.len(), 1 << targets.len());
            for index in orbit {
                assert!(!seen[index]);
                seen[index] = true;
            }
        }
        assert!(seen.iter().all(|&hit| hit));
    }
}

#[test]
fn fresh_register_has_one_cluster_per_qubit() {
    let layout = ClusterLayout::initialize(3);
    assert_eq!(layout.qubits(), 3);
    assert_eq!(layout.snapshot(), vec![vec![0], vec![1], vec![2]]);
    assert_eq!(ClusterLayout::initialize(0).snapshot(), Vec::<Vec<usize>>::new());
    assert_eq!(ClusterLayout::initialize(6).snapshot().len(), 6);
}

#[test]
fn locate_finds_cluster_and_place() {
    let mut layout = ClusterLayout::initialize(4);
    layout.apply(&op(Gate::Swap, &[3, 1]));
    assert_eq!(layout.snapshot(), vec![vec![0], vec![2], vec![3, 1]]);
    assert_eq!(layout.locate(0), (0, 0));
    assert_eq!(layout.locate(2), (1, 0));
    assert_eq!(layout.locate(3), (2, 0));
    assert_eq!(layout.locate(1), (2, 1));
}

#[test]
fn identity_asks_nothing_and_changes_nothing() {
    let mut layout = ClusterLayout::initialize(3);
    layout.apply(&op(Gate::ControlledNot, &[0, 1]));
    let before = layout.snapshot();
    for qubit in 0..3 {
        assert_eq!(layout.apply(&op(Gate::Identity, &[qubit])), vec![]);
        assert_eq!(layout.snapshot(), before);
    }
}

#[test]
fn single_qubit_gate_applies_within_its_cluster() {
    let mut layout = ClusterLayout::initialize(2);
    let actions = layout.apply(&op(Gate::Hadamard, &[1]));
    assert_eq!(
        actions,
        vec![Action::Apply { cluster: 1, gate: Gate::Hadamard, orbits: vec![vec![0, 1]] }]
    );
    assert_eq!(layout.snapshot(), vec![vec![0], vec![1]]);
}

#[test]
fn two_qubit_gate_merges_the_cluster_of_its_first_qubit_first() {
    let mut layout = ClusterLayout::initialize(3);
    let actions = layout.apply(&op(Gate::ControlledNot, &[2, 0]));
    assert_eq!(
        actions,
        vec![
            Action::Merge { first: 2, second: 0, pairs: vec![(0, 0), (1, 0), (0, 1), (1, 1)] },
            Action::Apply {
                cluster: 1,
                gate: Gate::ControlledNot,
                orbits: vec![vec![0, 2, 1, 3]]
            },
        ]
    );
    assert_eq!(layout.snapshot(), vec![vec![1], vec![2, 0]]);
}

#[test]
fn gate_inside_a_merged_cluster_uses_the_places_of_its_qubits() {
    let mut layout = ClusterLayout::initialize(3);
    layout.apply(&op(Gate::ControlledNot, &[2, 0]));
    let actions = layout.apply(&op(Gate::Hadamard, &[0]));
    assert_eq!(
        actions,
        vec![Action::Apply { cluster: 1, gate: Gate::Hadamard, orbits: vec![vec![0, 2], vec![1, 3]] }]
    );
    let actions = layout.apply(&op(Gate::Swap, &[0, 2]));
    assert_eq!(
        actions,
        vec![Action::Apply { cluster: 1, gate: Gate::Swap, orbits: vec![vec![0, 1, 2, 3]] }]
    );
    assert_eq!(layout.snapshot(), vec![vec![1], vec![2, 0]]);
}

#[test]
fn merging_with_a_larger_cluster_appends_its_qubits() {
    let mut layout = ClusterLayout::initialize(4);
    layout.apply(&op(Gate::Swap, &[1, 2]));
    assert_eq!(layout.snapshot(), vec![vec![0], vec![3], vec![1, 2]]);
    let actions = layout.apply(&op(Gate::ControlledNot, &[3, 2]));
    assert_eq!(
        actions,
        vec![
            Action::Merge {
                first: 1,
                second: 2,
                pairs: vec![(0, 0), (1, 0), (0, 1), (1, 1), (0, 2), (1, 2), (0, 3), (1, 3)]
            },
            Action::Apply {
                cluster: 1,
                gate: Gate::ControlledNot,
                orbits: vec![vec![0, 4, 1, 5], vec![2, 6, 3, 7]]
            },
        ]
    );
    assert_eq!(layout.snapshot(), vec![vec![0], vec![3, 1, 2]]);
}

#[test]
fn snapshot_is_not_changed_by_later_operations() {
    let mut layout = ClusterLayout::initialize(2);
    let earlier = layout.snapshot();
    layout.apply(&op(Gate::Swap, &[0, 1]));
    assert_eq!(earlier, vec![vec![0], vec![1]]);
    assert_eq!(layout.snapshot(), vec![vec![0, 1]]);
}
