use quantum_simulator::circuit_parser::UnparsedCircuit;
use quantum_simulator::circuit_validator::{validate_col, validate_gate, validate_grid_input};
use quantum_simulator::error::QuantumCircuitError;

#[test]
fn test_validate_grid_input() {
    let valid_grid = vec![vec!["I", "H"], vec!["X", "Y"]];
    let invalid_grid = vec![vec!["I", "H"], vec!["X", "Y", "Z"]];

    assert_eq!(validate_grid_input(&UnparsedCircuit::from(valid_grid)), Ok(()));
    assert_eq!(
        validate_grid_input(&UnparsedCircuit::from(invalid_grid)),
        Err(QuantumCircuitError::InvalidRowLength)
    );
}

#[test]
fn test_validate_gate() {
    let valid_gate = "I";
    let invalid_gate = "A";

    assert_eq!(validate_gate(valid_gate), true);
    assert_eq!(validate_gate(invalid_gate), false);
}

#[test]
fn test_valid_gates_but_exceed_qubit_limit() {
    let grid = vec![
        vec!["I", "H"],
        vec!["X", "Y"],
        vec!["Z", "T"],
        vec!["S", "I"],
        vec!["H", "X"],
        vec!["Y", "Z"],
        vec!["I", "S"],
    ];
    assert_eq!(
        validate_grid_input(&UnparsedCircuit::from(grid)),
        Err(QuantumCircuitError::TooManyQubits)
    );
}

#[test]
fn test_valid_circuit_inconsistent_row_lengths() {
    let grid = vec![vec!["I", "H", "X"], vec!["X", "Y"]];
    assert_eq!(
        validate_grid_input(&UnparsedCircuit::from(grid)),
        Err(QuantumCircuitError::InvalidRowLength)
    );
}

#[test]
fn valid_circuit() {
    let grid = vec![vec!["H", "C_down"], vec!["I", "X"]];
    assert_eq!(validate_grid_input(&UnparsedCircuit::from(grid)), Ok(()));
}

#[test]
fn valid_circuit_with_single_gate() {
    let grid = vec![vec!["H"]];
    assert_eq!(validate_grid_input(&UnparsedCircuit::from(grid)), Ok(()));
}

#[test]
fn validate_swap_circuit() {
    let grid = vec![vec!["X", "Swap"], vec!["I", "Swap"]];
    assert_eq!(validate_grid_input(&UnparsedCircuit::from(grid)), Ok(()));
}

#[test]
fn empty_grid_has_too_few_qubits() {
    let grid: Vec<Vec<&str>> = Vec::new();
    assert_eq!(
        validate_grid_input(&UnparsedCircuit::from(grid)),
        Err(QuantumCircuitError::TooFewQubits)
    );
}

#[test]
fn qubit_limit_is_checked_before_row_lengths_and_tokens() {
    let grid = vec![
        vec!["I", "H"],
        vec!["X"],
        vec!["nope", "T"],
        vec!["S", "I"],
        vec!["H", "X"],
        vec!["Y", "Z"],
        vec!["I", "S"],
    ];
    assert_eq!(
        validate_grid_input(&UnparsedCircuit::from(grid)),
        Err(QuantumCircuitError::TooManyQubits)
    );
}

#[test]
fn row_lengths_are_checked_before_tokens() {
    let grid = vec![vec!["nope", "H"], vec!["X"]];
    assert_eq!(
        validate_grid_input(&UnparsedCircuit::from(grid)),
        Err(QuantumCircuitError::InvalidRowLength)
    );
}

#[test]
fn unknown_token_is_an_invalid_gate() {
    let grid = vec![vec!["I", "H"], vec!["X", "CNOT-1"]];
    assert_eq!(
        validate_grid_input(&UnparsedCircuit::from(grid)),
        Err(QuantumCircuitError::InvalidGate)
    );
}

#[test]
fn six_rows_are_accepted() {
    let grid = vec![vec!["I"], vec!["H"], vec!["X"], vec!["Y"], vec!["Z"], vec!["T"]];
    assert_eq!(validate_grid_input(&UnparsedCircuit::from(grid)), Ok(()));
}

#[test]
fn rows_without_columns_are_accepted() {
    let grid: Vec<Vec<&str>> = vec![vec![], vec![]];
    assert_eq!(validate_grid_input(&UnparsedCircuit::from(grid)), Ok(()));
}

#[test]
fn every_token_of_the_vocabulary_is_valid() {
    for token in ["I", "H", "X", "Y", "Z", "T", "S", "Swap", "C_down"] {
        assert!(validate_gate(token), "{}", token);
    }
}

#[test]
fn near_misses_are_not_in_the_vocabulary() {
    for token in ["", "i", "h", "II", "Swa", "Swap ", "swap", "C_down1", "C-down", "C_dowm", "Swop", "CNOT", "é"] {
        assert!(!validate_gate(token), "{}", token);
    }
}

#[test]
fn from_keeps_every_cell() {
    let grid = UnparsedCircuit::from(vec![vec!["H", "C_down"], vec!["I", "X"]]);
    assert_eq!(
        grid.circuit,
        vec![
            vec!["H".to_string(), "C_down".to_string()],
            vec!["I".to_string(), "X".to_string()]
        ]
    );
}

#[test]
fn validate_col_accepts_a_valid_column() {
    let col = vec!["H".to_string(), "Swap".to_string(), "Swap".to_string()];
    assert_eq!(validate_col(&col), Ok(()));
}

#[test]
fn validate_col_rejects_an_unknown_token() {
    let col = vec!["H".to_string(), "Q".to_string()];
    assert_eq!(validate_col(&col), Err(QuantumCircuitError::InvalidGate));
}
