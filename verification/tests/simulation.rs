use quantum_simulator::circuit_parser::UnparsedCircuit;
use quantum_simulator::error::QuantumCircuitError;
use quantum_simulator::gate::{Entry, Gate};
use quantum_simulator::quantum_state::Action;
use quantum_simulator::simulator::{simulate, StepPlan};

type Complex = (f64, f64);

#[derive(Clone, Debug)]
struct Cluster {
    qubits: Vec<usize>,
    amplitudes: Vec<Complex>,
}

fn value(entry: Entry) -> Complex {
    let h = std::f64::consts::FRAC_1_SQRT_2;
    match entry {
        Entry::Zero => (0.0, 0.0),
        Entry::One => (1.0, 0.0),
        Entry::MinusOne => (-1.0, 0.0),
        Entry::Imaginary => (0.0, 1.0),
        Entry::MinusImaginary => (0.0, -1.0),
        Entry::RootHalf => (h, 0.0),
        Entry::MinusRootHalf => (-h, 0.0),
        Entry::EighthTurn => (h, h),
    }
}

fn times(a: Complex, b: Complex) -> Complex {
    (a.0 * b.0 - a.1 * b.1, a.0 * b.1 + a.1 * b.0)
}

fn carry_out(clusters: &mut Vec<Cluster>, action: &Action) {
    match action {
        Action::Merge { first, second, pairs } => {
            let a = clusters[*first].clone();
            let b = clusters[*second].clone();
            let amplitudes =
                pairs.iter().map(|&(i, j)| times(a.amplitudes[i], b.amplitudes[j])).collect();
            let mut qubits = a.qubits.clone();
            qubits.extend(b.qubits.iter());
            clusters.remove(*first.max(second));
            clusters.remove(*first.min(second));
            clusters.push(Cluster { qubits, amplitudes });
        }
        Action::Apply { cluster, gate, orbits } => {
            let matrix = gate.matrix();
            let amplitudes = &mut clusters[*cluster].amplitudes;
            for orbit in orbits {
                let old: Vec<Complex> = orbit.iter().map(|&index| amplitudes[index]).collect();
                for (row, &index) in orbit.iter().enumerate() {
                    let mut sum = (0.0, 0.0);
                    for (col, &amplitude) in old.iter().enumerate() {
                        let term = times(value(matrix[row][col]), amplitude);
                        sum = (sum.0 + term.0, sum.1 + term.1);
                    }
                    amplitudes[index] = sum;
                }
            }
        }
    }
}

fn snapshots(rows: usize, plans: &[StepPlan]) -> Vec<Vec<Cluster>> {
    let mut clusters: Vec<Cluster> = (0..rows)
        .map(|qubit| Cluster { qubits: vec![qubit], amplitudes: vec![(1.0, 0.0), (0.0, 0.0)] })
        .collect();
    let mut taken = Vec::new();
    for plan in plans {
        for action in &plan.actions {
            carry_out(&mut clusters, action);
        }
        let shape: Vec<Vec<usize>> = clusters.iter().map(|c| c.qubits.clone()).collect();
        assert_eq!(shape, plan.clusters);
        taken.push(clusters.clone());
    }
    taken
}

fn run(rows: Vec<Vec<&str>>) -> Result<Vec<Vec<Cluster>>, QuantumCircuitError> {
    let count = rows.len();
    let plans = simulate(&UnparsedCircuit::from(rows))?;
    Ok(snapshots(count, &plans))
}

fn close(amplitudes: &[Complex], expected: &[Complex]) -> bool {
    amplitudes.len() == expected.len()
        && amplitudes
            .iter()
            .zip(expected)
            .all(|(a, e)| (a.0 - e.0).abs() < 1e-8 && (a.1 - e.1).abs() < 1e-8)
}

fn norm(amplitudes: &[Complex]) -> f64 {
    amplitudes.iter().map(|a| a.0 * a.0 + a.1 * a.1).sum::<f64>().sqrt()
}

const H: f64 = 0.70710678;

#[test]
fn independent_hadamards_stay_in_two_clusters() {
    let taken = run(vec![vec!["H", "I"], vec!["I", "H"]]).unwrap();
    assert_eq!(taken.len(), 2);
    assert_eq!(taken[0].len(), 2);
    assert_eq!(taken[0][0].qubits, vec![0]);
    assert!(close(&taken[0][0].amplitudes, &[(H, 0.0), (H, 0.0)]));
    assert_eq!(taken[0][1].qubits, vec![1]);
    assert_eq!(taken[0][1].amplitudes, vec![(1.0, 0.0), (0.0, 0.0)]);
    assert_eq!(taken[1].len(), 2);
    assert_eq!(taken[1][0].qubits, vec![0]);
    assert!(close(&taken[1][0].amplitudes, &[(H, 0.0), (H, 0.0)]));
    assert_eq!(taken[1][1].qubits, vec![1]);
    assert!(close(&taken[1][1].amplitudes, &[(H, 0.0), (H, 0.0)]));
}

#[test]
fn hadamard_then_controlled_not_gives_a_bell_state() {
    let taken = run(vec![vec!["H", "C_down"], vec!["I", "I"]]).unwrap();
    assert_eq!(taken.len(), 2);
    assert_eq!(taken[0].len(), 2);
    assert_eq!(taken[1].len(), 1);
    assert_eq!(taken[1][0].qubits, vec![0, 1]);
    assert!(close(&taken[1][0].amplitudes, &[(H, 0.0), (0.0, 0.0), (0.0, 0.0), (H, 0.0)]));
}

#[test]
fn swap_exchanges_the_states_of_its_qubits() {
    let taken = run(vec![vec!["X", "Swap"], vec!["I", "Swap"]]).unwrap();
    assert_eq!(taken.len(), 2);
    assert_eq!(taken[0].len(), 2);
    assert_eq!(taken[0][0].qubits, vec![0]);
    assert!(close(&taken[0][0].amplitudes, &[(0.0, 0.0), (1.0, 0.0)]));
    assert_eq!(taken[0][1].qubits, vec![1]);
    assert!(close(&taken[0][1].amplitudes, &[(1.0, 0.0), (0.0, 0.0)]));
    assert_eq!(taken[1].len(), 1);
    assert_eq!(taken[1][0].qubits, vec![0, 1]);
    assert!(close(
        &taken[1][0].amplitudes,
        &[(0.0, 0.0), (0.0, 0.0), (1.0, 0.0), (0.0, 0.0)]
    ));
}

#[test]
fn controlled_not_flips_the_target_only_when_the_control_is_set() {
    let taken = run(vec![vec!["I", "C_down"], vec!["I", "I"]]).unwrap();
    assert!(close(
        &taken[1][0].amplitudes,
        &[(1.0, 0.0), (0.0, 0.0), (0.0, 0.0), (0.0, 0.0)]
    ));
    let taken = run(vec![vec!["X", "C_down"], vec!["I", "I"]]).unwrap();
    assert!(close(
        &taken[1][0].amplitudes,
        &[(0.0, 0.0), (0.0, 0.0), (0.0, 0.0), (1.0, 0.0)]
    ));
    let taken = run(vec![vec!["I", "C_down"], vec!["X", "I"]]).unwrap();
    assert!(close(
        &taken[1][0].amplitudes,
        &[(0.0, 0.0), (0.0, 0.0), (1.0, 0.0), (0.0, 0.0)]
    ));
}

#[test]
fn token_below_a_control_still_acts_after_it() {
    let taken = run(vec![vec!["X", "C_down"], vec!["I", "X"]]).unwrap();
    assert_eq!(taken[1][0].qubits, vec![0, 1]);
    assert!(close(
        &taken[1][0].amplitudes,
        &[(0.0, 0.0), (1.0, 0.0), (0.0, 0.0), (0.0, 0.0)]
    ));
}

#[test]
fn phase_gates_turn_the_amplitude_of_one() {
    let taken = run(vec![vec!["X", "S"]]).unwrap();
    assert!(close(&taken[1][0].amplitudes, &[(0.0, 0.0), (0.0, 1.0)]));
    let taken = run(vec![vec!["X", "T"]]).unwrap();
    assert!(close(&taken[1][0].amplitudes, &[(0.0, 0.0), (H, H)]));
    let taken = run(vec![vec!["X", "Z"]]).unwrap();
    assert!(close(&taken[1][0].amplitudes, &[(0.0, 0.0), (-1.0, 0.0)]));
    let taken = run(vec![vec!["Y"]]).unwrap();
    assert!(close(&taken[0][0].amplitudes, &[(0.0, 0.0), (0.0, 1.0)]));
    let taken = run(vec![vec!["X", "Y"]]).unwrap();
    assert!(close(&taken[1][0].amplitudes, &[(0.0, -1.0), (0.0, 0.0)]));
}

#[test]
fn every_cluster_keeps_norm_one() {
    let taken = run(vec![
        vec!["H", "C_down", "T", "Swap", "Y", "H"],
        vec!["X", "S", "C_down", "Z", "C_down", "I"],
        vec!["T", "H", "I", "Swap", "H", "C_down"],
        vec!["H", "Y", "H", "C_down", "T", "S"],
        vec!["I", "Swap", "X", "H", "C_down", "T"],
        vec!["S", "Swap", "Z", "T", "I", "H"],
    ])
    .unwrap();
    assert_eq!(taken.len(), 6);
    for clusters in &taken {
        let mut qubits: Vec<usize> = clusters.iter().flat_map(|c| c.qubits.clone()).collect();
        qubits.sort();
        assert_eq!(qubits, vec![0, 1, 2, 3, 4, 5]);
        for cluster in clusters {
            assert_eq!(cluster.amplitudes.len(), 1 << cluster.qubits.len());
            assert!((norm(&cluster.amplitudes) - 1.0).abs() < 1e-9);
        }
    }
    assert_eq!(taken[5].len(), 1);
    assert_eq!(taken[5][0].amplitudes.len(), 64);
}

#[test]
fn identity_leaves_the_amplitudes_as_they_are() {
    let taken = run(vec![vec!["H", "C_down", "I", "I"], vec!["T", "I", "I", "I"]]).unwrap();
    assert_eq!(taken[2][0].amplitudes, taken[1][0].amplitudes);
    assert_eq!(taken[3][0].amplitudes, taken[1][0].amplitudes);
    let plans =
        simulate(&UnparsedCircuit::from(vec![vec!["H", "I"], vec!["I", "I"]])).unwrap();
    assert_eq!(plans[1].actions, vec![]);
    assert_eq!(plans[1].clusters, plans[0].clusters);
}

#[test]
fn one_snapshot_per_column() {
    for columns in 0..5 {
        let rows = vec![vec!["H"; columns], vec!["I"; columns], vec!["T"; columns]];
        assert_eq!(simulate(&UnparsedCircuit::from(rows)).unwrap().len(), columns);
    }
}

#[test]
fn plan_of_the_bell_circuit() {
    let plans =
        simulate(&UnparsedCircuit::from(vec![vec!["H", "C_down"], vec!["I", "I"]])).unwrap();
    assert_eq!(
        plans,
        vec![
            StepPlan {
                actions: vec![Action::Apply {
                    cluster: 0,
                    gate: Gate::Hadamard,
                    orbits: vec![vec![0, 1]]
                }],
                clusters: vec![vec![0], vec![1]],
            },
            StepPlan {
                actions: vec![
                    Action::Merge {
                        first: 0,
                        second: 1,
                        pairs: vec![(0, 0), (1, 0), (0, 1), (1, 1)]
                    },
                    Action::Apply {
                        cluster: 0,
                        gate: Gate::ControlledNot,
                        orbits: vec![vec![0, 2, 1, 3]]
                    },
                ],
                clusters: vec![vec![0, 1]],
            },
        ]
    );
}

#[test]
fn validator_errors_come_first() {
    let none: Vec<Vec<&str>> = Vec::new();
    assert_eq!(run(none).unwrap_err(), QuantumCircuitError::TooFewQubits);
    assert_eq!(run(vec![vec!["Swap"]; 7]).unwrap_err(), QuantumCircuitError::TooManyQubits);
    assert_eq!(
        run(vec![vec!["Swap", "H"], vec!["I"]]).unwrap_err(),
        QuantumCircuitError::InvalidRowLength
    );
    assert_eq!(
        run(vec![vec!["Swap", "H"], vec!["I", "?"]]).unwrap_err(),
        QuantumCircuitError::InvalidGate
    );
}

#[test]
fn unpaired_tokens_fail_the_simulation() {
    assert_eq!(
        run(vec![vec!["H", "Swap"], vec!["I", "I"]]).unwrap_err(),
        QuantumCircuitError::InvalidGate
    );
    assert_eq!(
        run(vec![vec!["H", "I"], vec!["I", "C_down"]]).unwrap_err(),
        QuantumCircuitError::InvalidGate
    );
    assert_eq!(run(vec![vec!["C_down"]]).unwrap_err(), QuantumCircuitError::InvalidGate);
}

#[test]
fn matrices_are_unitary_in_floating_point() {
    for gate in [
        Gate::Identity,
        Gate::Hadamard,
        Gate::PauliX,
        Gate::PauliY,
        Gate::PauliZ,
        Gate::TGate,
        Gate::SGate,
        Gate::Swap,
        Gate::ControlledNot,
    ] {
        let matrix = gate.matrix();
        let size = matrix.len();
        for i in 0..size {
            assert_eq!(matrix[i].len(), size);
            for j in 0..size {
                let mut sum = (0.0, 0.0);
                for k in 0..size {
                    let a = value(matrix[k][i]);
                    let term = times((a.0, -a.1), value(matrix[k][j]));
                    sum = (sum.0 + term.0, sum.1 + term.1);
                }
                let expected = if i == j { 1.0 } else { 0.0 };
                assert!((sum.0 - expected).abs() < 1e-12 && sum.1.abs() < 1e-12);
            }
        }
    }
}
