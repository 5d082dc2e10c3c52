//! Checking the shape of a grid and the tokens in its cells.

use crate::circuit_parser::UnparsedCircuit;
use crate::error::QuantumCircuitError;
use crate::gate::{is_valid_token, parse_token, MAX_QUBITS};
use vstd::prelude::*;

verus! {

/// Every row is as long as the first.
pub open spec fn is_rectangular(grid: Seq<Seq<Seq<char>>>) -> bool {
    forall|r: int| 0 <= r < grid.len() ==> (#[trigger] grid[r]).len() == grid[0].len()
}

/// Every token of the list belongs to the vocabulary.
pub open spec fn all_tokens_valid(tokens: Seq<Seq<char>>) -> bool {
    forall|i: int| 0 <= i < tokens.len() ==> is_valid_token(#[trigger] tokens[i])
}

/// Every cell of the grid holds a token of the vocabulary.
pub open spec fn all_cells_valid(grid: Seq<Seq<Seq<char>>>) -> bool {
    forall|r: int| 0 <= r < grid.len() ==> all_tokens_valid(#[trigger] grid[r])
}

/// The verdict on a grid. The checks come in a fixed order and the first that
/// fails decides: no row, more than six rows, a row of another length than
/// the first, a cell outside the vocabulary.
pub open spec fn validation_result(grid: Seq<Seq<Seq<char>>>) -> Result<(), QuantumCircuitError> {
    if grid.len() == 0 {
        Err(QuantumCircuitError::TooFewQubits)
    } else if grid.len() > MAX_QUBITS {
        Err(QuantumCircuitError::TooManyQubits)
    } else if !is_rectangular(grid) {
        Err(QuantumCircuitError::InvalidRowLength)
    } else if !all_cells_valid(grid) {
        Err(QuantumCircuitError::InvalidGate)
    } else {
        Ok(())
    }
}

/// A grid of one to six rows, all of one length, whose cells all hold tokens
/// of the vocabulary, passes validation.
pub proof fn lemma_well_formed_grid_is_accepted(grid: Seq<Seq<Seq<char>>>)
    requires
        1 <= grid.len() <= MAX_QUBITS,
        is_rectangular(grid),
        all_cells_valid(grid),
    ensures
        validation_result(grid) == Ok::<(), QuantumCircuitError>(()),
{
}

/// Which error a grid is rejected with: no row comes before too many rows,
/// that before rows of different lengths, and that before an unknown token.
pub proof fn lemma_validation_order(grid: Seq<Seq<Seq<char>>>)
    ensures
        grid.len() == 0 ==> validation_result(grid) == Err::<(), QuantumCircuitError>(
            QuantumCircuitError::TooFewQubits,
        ),
        grid.len() > MAX_QUBITS ==> validation_result(grid) == Err::<(), QuantumCircuitError>(
            QuantumCircuitError::TooManyQubits,
        ),
        1 <= grid.len() <= MAX_QUBITS && !is_rectangular(grid) ==> validation_result(grid) == Err::<
            (),
            QuantumCircuitError,
        >(QuantumCircuitError::InvalidRowLength),
        1 <= grid.len() <= MAX_QUBITS && is_rectangular(grid) && !all_cells_valid(grid)
            ==> validation_result(grid) == Err::<(), QuantumCircuitError>(
            QuantumCircuitError::InvalidGate,
        ),
{
}

/// Whether `gate` is a token of the vocabulary.
pub fn validate_gate(gate: &str) -> (valid: bool)
    ensures
        valid == is_valid_token(gate@),
{
    parse_token(gate).is_some()
}

/// Checks the tokens of one column: `InvalidGate` if any is outside the
/// vocabulary.
pub fn validate_col(row: &Vec<String>) -> (result: Result<(), QuantumCircuitError>)
    ensures
        all_tokens_valid(row.deep_view()) ==> result == Ok::<(), QuantumCircuitError>(()),
        !all_tokens_valid(row.deep_view()) ==> result == Err::<(), QuantumCircuitError>(
            QuantumCircuitError::InvalidGate,
        ),
{
    let mut i: usize = 0;
    while i < row.len()
        invariant
            i <= row.len(),
            forall|k: int| 0 <= k < i ==> is_valid_token(#[trigger] row.deep_view()[k]),
        decreases row.len() - i,
    {
        if !validate_gate(row[i].as_str()) {
            assert(!is_valid_token(row.deep_view()[i as int]));
            return Err(QuantumCircuitError::InvalidGate);
        }
        i += 1;
    }
    Ok(())
}

/// Checks a grid: between one and six rows, all of one length, every cell a
/// token of the vocabulary. Whether multi-row gates have their partners is
/// left to the parser.
pub fn validate_grid_input(grid: &UnparsedCircuit) -> (result: Result<(), QuantumCircuitError>)
    ensures
        result == validation_result(grid@),
        (1 <= grid@.len() <= 6 && is_rectangular(grid@) && all_cells_valid(grid@)) <==> result is Ok,
{
    let rows: usize = grid.circuit.len();
    if rows == 0 {
        return Err(QuantumCircuitError::TooFewQubits);
    }
    if rows > MAX_QUBITS {
        return Err(QuantumCircuitError::TooManyQubits);
    }
    let row_length: usize = grid.circuit[0].len();
    let mut r: usize = 0;
    while r < rows
        invariant
            r <= rows,
            0 < rows <= MAX_QUBITS,
            rows == grid@.len(),
            row_length == grid@[0].len(),
            forall|k: int| 0 <= k < r ==> (#[trigger] grid@[k]).len() == row_length,
        decreases rows - r,
    {
        if grid.circuit[r].len() != row_length {
            assert(grid@[r as int].len() != grid@[0].len());
            return Err(QuantumCircuitError::InvalidRowLength);
        }
        r += 1;
    }
    let mut c: usize = 0;
    while c < row_length
        invariant
            c <= row_length,
            rows == grid@.len(),
            0 < rows <= MAX_QUBITS,
            is_rectangular(grid@),
            row_length == grid@[0].len(),
            forall|i: int, k: int|
                0 <= i < rows && 0 <= k < c ==> is_valid_token(#[trigger] grid@[i][k]),
        decreases row_length - c,
    {
        let mut col: Vec<String> = Vec::new();
        let mut i: usize = 0;
        while i < rows
            invariant
                i <= rows,
                rows == grid@.len(),
                c < row_length,
                is_rectangular(grid@),
                row_length == grid@[0].len(),
                col.len() == i,
                forall|k: int| 0 <= k < i ==> (#[trigger] col[k])@ == grid@[k][c as int],
            decreases rows - i,
        {
            assert(grid@[i as int].len() == row_length);
            col.push(grid.circuit[i][c].clone());
            i += 1;
        }
        match validate_col(&col) {
            Ok(_) => (),
            Err(err) => {
                proof {
                    let bad = choose|k: int|
                        0 <= k < col.len() && !is_valid_token(#[trigger] col.deep_view()[k]);
                    assert(col.deep_view()[bad] == grid@[bad][c as int]);
                    assert(!all_tokens_valid(grid@[bad]));
                }
                return Err(err);
            },
        }
        assert forall|i: int, k: int| 0 <= i < rows && 0 <= k < c + 1 implies is_valid_token(
            #[trigger] grid@[i][k],
        ) by {
            if k == c {
                assert(col.deep_view()[i] == grid@[i][k]);
            }
        }
        c += 1;
    }
    assert(all_cells_valid(grid@)) by {
        assert forall|i: int| 0 <= i < grid@.len() implies all_tokens_valid(#[trigger] grid@[i]) by {
            assert(grid@[i].len() == row_length);
        }
    }
    Ok(())
}

} // verus!
