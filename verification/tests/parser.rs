use quantum_simulator::circuit_parser::{parse_circuit, parse_column, Operation, UnparsedCircuit};
use quantum_simulator::error::QuantumCircuitError;
use quantum_simulator::gate::{parse_token, Entry, Gate};

fn tokens(column: &[&str]) -> Vec<String> {
    column.iter().map(|token| token.to_string()).collect()
}

fn op(gate: Gate, qubits: &[usize]) -> Operation {
    Operation { gate, qubits: qubits.to_vec() }
}

#[test]
fn tokens_name_their_gates() {
    assert_eq!(parse_token("I"), Some(Gate::Identity));
    assert_eq!(parse_token("H"), Some(Gate::Hadamard));
    assert_eq!(parse_token("X"), Some(Gate::PauliX));
    assert_eq!(parse_token("Y"), Some(Gate::PauliY));
    assert_eq!(parse_token("Z"), Some(Gate::PauliZ));
    assert_eq!(parse_token("T"), Some(Gate::TGate));
    assert_eq!(parse_token("S"), Some(Gate::SGate));
    assert_eq!(parse_token("Swap"), Some(Gate::Swap));
    assert_eq!(parse_token("C_down"), Some(Gate::ControlledNot));
}

#[test]
fn other_tokens_name_no_gate() {
    assert_eq!(parse_token(""), None);
    assert_eq!(parse_token("A"), None);
    assert_eq!(parse_token("Swat"), None);
    assert_eq!(parse_token("swap"), None);
    assert_eq!(parse_token("C_dowN"), None);
    assert_eq!(parse_token("CNOT-1"), None);
    assert_eq!(parse_token("HH"), None);
}

#[test]
fn gates_need_one_or_two_qubits() {
    for gate in [
        Gate::Identity,
        Gate::Hadamard,
        Gate::PauliX,
        Gate::PauliY,
        Gate::PauliZ,
        Gate::TGate,
        Gate::SGate,
    ] {
        assert_eq!(gate.qubits_needed(), 1);
        assert_eq!(gate.matrix().len(), 2);
    }
    for gate in [Gate::Swap, Gate::ControlledNot] {
        assert_eq!(gate.qubits_needed(), 2);
        assert_eq!(gate.matrix().len(), 4);
    }
}

#[test]
fn matrices_hold_the_standard_entries() {
    let (zero, one, minus_one) = (Entry::Zero, Entry::One, Entry::MinusOne);
    let (i, minus_i) = (Entry::Imaginary, Entry::MinusImaginary);
    let (h, minus_h, w) = (Entry::RootHalf, Entry::MinusRootHalf, Entry::EighthTurn);
    assert_eq!(Gate::Identity.matrix(), vec![vec![one, zero], vec![zero, one]]);
    assert_eq!(Gate::Hadamard.matrix(), vec![vec![h, h], vec![h, minus_h]]);
    assert_eq!(Gate::PauliX.matrix(), vec![vec![zero, one], vec![one, zero]]);
    assert_eq!(Gate::PauliY.matrix(), vec![vec![zero, minus_i], vec![i, zero]]);
    assert_eq!(Gate::PauliZ.matrix(), vec![vec![one, zero], vec![zero, minus_one]]);
    assert_eq!(Gate::SGate.matrix(), vec![vec![one, zero], vec![zero, i]]);
    assert_eq!(Gate::TGate.matrix(), vec![vec![one, zero], vec![zero, w]]);
    assert_eq!(
        Gate::Swap.matrix(),
        vec![
            vec![one, zero, zero, zero],
            vec![zero, zero, one, zero],
            vec![zero, one, zero, zero],
            vec![zero, zero, zero, one]
        ]
    );
    assert_eq!(
        Gate::ControlledNot.matrix(),
        vec![
            vec![one, zero, zero, zero],
            vec![zero, one, zero, zero],
            vec![zero, zero, zero, one],
            vec![zero, zero, one, zero]
        ]
    );
}

#[test]
fn single_qubit_tokens_become_operations_in_row_order() {
    let step = parse_column(&tokens(&["H", "I", "T", "S", "X", "Y"])).unwrap();
    assert_eq!(
        step,
        vec![
            op(Gate::Hadamard, &[0]),
            op(Gate::Identity, &[1]),
            op(Gate::TGate, &[2]),
            op(Gate::SGate, &[3]),
            op(Gate::PauliX, &[4]),
            op(Gate::PauliY, &[5]),
        ]
    );
}

#[test]
fn swap_rows_are_paired_lower_row_first() {
    let step = parse_column(&tokens(&["Z", "Swap", "H", "Swap"])).unwrap();
    assert_eq!(
        step,
        vec![op(Gate::PauliZ, &[0]), op(Gate::Swap, &[1, 3]), op(Gate::Hadamard, &[2])]
    );
}

#[test]
fn control_acts_on_the_row_below() {
    let step = parse_column(&tokens(&["I", "C_down", "X"])).unwrap();
    assert_eq!(
        step,
        vec![op(Gate::Identity, &[0]), op(Gate::ControlledNot, &[1, 2]), op(Gate::PauliX, &[2])]
    );
}

#[test]
fn stacked_controls_chain_downwards() {
    let step = parse_column(&tokens(&["C_down", "C_down", "I"])).unwrap();
    assert_eq!(
        step,
        vec![
            op(Gate::ControlledNot, &[0, 1]),
            op(Gate::ControlledNot, &[1, 2]),
            op(Gate::Identity, &[2])
        ]
    );
}

#[test]
fn lone_swap_is_an_invalid_gate() {
    assert_eq!(parse_column(&tokens(&["Swap", "I"])), Err(QuantumCircuitError::InvalidGate));
}

#[test]
fn three_swaps_are_an_invalid_gate() {
    assert_eq!(
        parse_column(&tokens(&["Swap", "Swap", "Swap"])),
        Err(QuantumCircuitError::InvalidGate)
    );
}

#[test]
fn four_swaps_are_an_invalid_gate() {
    assert_eq!(
        parse_column(&tokens(&["Swap", "Swap", "Swap", "Swap"])),
        Err(QuantumCircuitError::InvalidGate)
    );
}

#[test]
fn control_on_the_last_row_is_an_invalid_gate() {
    assert_eq!(parse_column(&tokens(&["H", "C_down"])), Err(QuantumCircuitError::InvalidGate));
    assert_eq!(parse_column(&tokens(&["C_down"])), Err(QuantumCircuitError::InvalidGate));
}

#[test]
fn unknown_token_in_a_column_is_an_invalid_gate() {
    assert_eq!(parse_column(&tokens(&["H", "Q"])), Err(QuantumCircuitError::InvalidGate));
}

#[test]
fn empty_column_is_an_empty_step() {
    assert_eq!(parse_column(&tokens(&[])), Ok(vec![]));
}

#[test]
fn circuit_has_one_step_per_column() {
    let grid = UnparsedCircuit::from(vec![vec!["H", "C_down", "Swap"], vec!["I", "X", "Swap"]]);
    let steps = parse_circuit(&grid).unwrap();
    assert_eq!(
        steps,
        vec![
            vec![op(Gate::Hadamard, &[0]), op(Gate::Identity, &[1])],
            vec![op(Gate::ControlledNot, &[0, 1]), op(Gate::PauliX, &[1])],
            vec![op(Gate::Swap, &[0, 1])],
        ]
    );
}

#[test]
fn circuit_with_an_unpaired_column_is_rejected() {
    let grid = UnparsedCircuit::from(vec![vec!["H", "Swap"], vec!["I", "H"]]);
    assert_eq!(parse_circuit(&grid), Err(QuantumCircuitError::InvalidGate));
}

#[test]
fn circuit_without_columns_has_no_step() {
    let rows: Vec<Vec<&str>> = vec![vec![], vec![]];
    let grid = UnparsedCircuit::from(rows);
    assert_eq!(parse_circuit(&grid), Ok(vec![]));
}
