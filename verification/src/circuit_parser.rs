//! Reading a checked grid as a circuit: one step per column, each step an
//! ordered list of gate operations.

use crate::basis::naturals;
use crate::circuit_validator::{all_tokens_valid, validation_result};
use crate::error::QuantumCircuitError;
use crate::gate::{is_valid_token, parse_token, token_gate, Gate};
use vstd::prelude::*;
use vstd::std_specs::convert::FromSpecImpl;
use vstd::string::StringExecFns;

verus! {

/// A circuit as it arrives: a grid of gate tokens, one row per qubit and one
/// column per time step.
#[derive(Debug)]
pub struct UnparsedCircuit {
    pub circuit: Vec<Vec<String>>,
}

impl View for UnparsedCircuit {
    type V = Seq<Seq<Seq<char>>>;

    /// The grid as rows of tokens, each token a sequence of characters.
    open spec fn view(&self) -> Seq<Seq<Seq<char>>> {
        self.circuit.deep_view()
    }
}

/// Rows of string slices as rows of tokens.
pub open spec fn rows_view(rows: Seq<Vec<&str>>) -> Seq<Seq<Seq<char>>> {
    Seq::new(rows.len(), |r: int| Seq::new(rows[r].len() as nat, |c: int| rows[r][c]@))
}

impl<'a> FromSpecImpl<Vec<Vec<&'a str>>> for UnparsedCircuit {
    /// Strings with the same characters need not be the same value, so the
    /// rows do not determine the grid itself, only its cells: what `from`
    /// returns is said by its own `ensures`.
    open spec fn obeys_from_spec() -> bool {
        false
    }

    /// Not used: see `obeys_from_spec`.
    open spec fn from_spec(rows: Vec<Vec<&'a str>>) -> Self {
        arbitrary()
    }
}

impl<'a> From<Vec<Vec<&'a str>>> for UnparsedCircuit {
    /// Builds the grid that holds, cell for cell, the tokens of `rows`.
    fn from(rows: Vec<Vec<&'a str>>) -> (grid: Self)
        ensures
            grid@ == rows_view(rows@),
    {
        let mut circuit: Vec<Vec<String>> = Vec::new();
        let mut r: usize = 0;
        while r < rows.len()
            invariant
                r <= rows.len(),
                circuit.len() == r,
                forall|k: int|
                    0 <= k < r ==> (#[trigger] circuit[k]).deep_view() == rows_view(rows@)[k],
            decreases rows.len() - r,
        {
            let mut row: Vec<String> = Vec::new();
            let mut c: usize = 0;
            while c < rows[r].len()
                invariant
                    r < rows.len(),
                    c <= rows[r as int].len(),
                    row.len() == c,
                    forall|k: int| 0 <= k < c ==> (#[trigger] row[k])@ == rows[r as int][k]@,
                decreases rows[r as int].len() - c,
            {
                row.push(String::from_str(rows[r][c]));
                c += 1;
            }
            assert(row.deep_view() =~= rows_view(rows@)[r as int]);
            circuit.push(row);
            r += 1;
        }
        let grid = UnparsedCircuit { circuit };
        assert(grid@ =~= rows_view(rows@));
        grid
    }
}

/// One gate and the qubits it acts on, in the order that matters to it: for a
/// controlled-not the control comes first and the target second.
#[derive(Debug, PartialEq, Eq)]
pub struct Operation {
    pub gate: Gate,
    pub qubits: Vec<usize>,
}

/// An operation as a mathematical value.
pub struct OperationModel {
    pub gate: Gate,
    pub qubits: Seq<nat>,
}

impl View for Operation {
    type V = OperationModel;

    open spec fn view(&self) -> OperationModel {
        OperationModel { gate: self.gate, qubits: naturals(self.qubits@) }
    }
}

impl DeepView for Operation {
    type V = OperationModel;

    open spec fn deep_view(&self) -> OperationModel {
        self@
    }
}

impl OperationModel {
    /// The operation can act on a register of `qubit_count` qubits: it names
    /// as many qubits as its gate needs, all of them in the register and no
    /// two the same.
    pub open spec fn fits(self, qubit_count: nat) -> bool {
        &&& self.qubits.len() == self.gate.arity()
        &&& forall|i: int| 0 <= i < self.qubits.len() ==> #[trigger] self.qubits[i] < qubit_count
        &&& self.qubits.no_duplicates()
    }
}

/// Column `c` of a grid, top row first.
pub open spec fn column(grid: Seq<Seq<Seq<char>>>, c: int) -> Seq<Seq<char>> {
    Seq::new(grid.len(), |r: int| grid[r][c])
}

/// The rows of a column that hold `Swap`, in ascending order.
pub open spec fn swap_rows(col: Seq<Seq<char>>) -> Seq<nat>
    decreases col.len(),
{
    if col.len() == 0 {
        Seq::empty()
    } else {
        let above = swap_rows(col.drop_last());
        if token_gate(col.last()) == Some(Gate::Swap) {
            above.push((col.len() - 1) as nat)
        } else {
            above
        }
    }
}

/// Every multi-row token of the column has its partner: `Swap` stands on no
/// row or on exactly two, and `C_down` does not stand on the last row.
pub open spec fn column_is_paired(col: Seq<Seq<char>>) -> bool {
    &&& swap_rows(col).len() == 0 || swap_rows(col).len() == 2
    &&& col.len() > 0 ==> token_gate(col.last()) != Some(Gate::ControlledNot)
}

/// What row `r` of a column contributes to its step. A single-qubit token
/// gives that gate on qubit `r`. `C_down` gives a controlled-not with control
/// `r` and target `r + 1`; the token on row `r + 1` still contributes on its
/// own. The upper of two `Swap` rows gives the swap of both; the lower gives
/// nothing.
pub open spec fn row_operations(col: Seq<Seq<char>>, r: int) -> Seq<OperationModel> {
    match token_gate(col[r]) {
        None => Seq::empty(),
        Some(Gate::Swap) => if swap_rows(col).len() == 2 && swap_rows(col)[0] == r {
            seq![OperationModel { gate: Gate::Swap, qubits: swap_rows(col) }]
        } else {
            Seq::empty()
        },
        Some(Gate::ControlledNot) => seq![
            OperationModel { gate: Gate::ControlledNot, qubits: seq![r as nat, (r + 1) as nat] },
        ],
        Some(gate) => seq![OperationModel { gate, qubits: seq![r as nat] }],
    }
}

/// The operations that the first `rows` rows of a column contribute, in row
/// order.
pub open spec fn operations_above(col: Seq<Seq<char>>, rows: int) -> Seq<OperationModel>
    decreases rows,
{
    if rows <= 0 {
        Seq::empty()
    } else {
        operations_above(col, rows - 1) + row_operations(col, rows - 1)
    }
}

/// The step that a column stands for.
pub open spec fn column_operations(col: Seq<Seq<char>>) -> Seq<OperationModel> {
    operations_above(col, col.len() as int)
}

/// Every column of the grid is paired.
pub open spec fn circuit_is_paired(grid: Seq<Seq<Seq<char>>>) -> bool {
    forall|c: int| 0 <= c < grid[0].len() ==> column_is_paired(#[trigger] column(grid, c))
}

/// The circuit that a grid stands for: one step per column, in column order.
pub open spec fn circuit_steps(grid: Seq<Seq<Seq<char>>>) -> Seq<Seq<OperationModel>> {
    Seq::new(grid[0].len(), |c: int| column_operations(column(grid, c)))
}

/// The `Swap` rows of a column are rows of the column, in strictly ascending
/// order.
pub proof fn lemma_swap_rows_ascend(col: Seq<Seq<char>>)
    ensures
        swap_rows(col).len() <= col.len(),
        forall|i: int| 0 <= i < swap_rows(col).len() ==> #[trigger] swap_rows(col)[i] < col.len(),
        forall|i: int, j: int|
            0 <= i < j < swap_rows(col).len() ==> swap_rows(col)[i] < swap_rows(col)[j],
    decreases col.len(),
{
    if col.len() > 0 {
        lemma_swap_rows_ascend(col.drop_last());
    }
}

/// Every operation of a paired column of valid tokens fits a register with
/// one qubit per row.
pub proof fn lemma_column_operations_fit(col: Seq<Seq<char>>)
    requires
        all_tokens_valid(col),
        column_is_paired(col),
    ensures
        forall|i: int|
            0 <= i < column_operations(col).len() ==> (#[trigger] column_operations(col)[i]).fits(
                col.len(),
            ),
{
    lemma_operations_above_fit(col, col.len() as int);
}

/// The operations of the first rows of a paired column of valid tokens fit.
proof fn lemma_operations_above_fit(col: Seq<Seq<char>>, rows: int)
    requires
        all_tokens_valid(col),
        column_is_paired(col),
        0 <= rows <= col.len(),
    ensures
        forall|i: int|
            0 <= i < operations_above(col, rows).len() ==> (#[trigger] operations_above(
                col,
                rows,
            )[i]).fits(col.len()),
    decreases rows,
{
    if rows > 0 {
        lemma_operations_above_fit(col, rows - 1);
        lemma_swap_rows_ascend(col);
        let r = rows - 1;
        let here = row_operations(col, r);
        assert(is_valid_token(col[r]));
        assert forall|i: int| 0 <= i < here.len() implies (#[trigger] here[i]).fits(col.len()) by {
            let op = here[i];
            if op.gate == Gate::ControlledNot {
                assert(token_gate(col[r]) == Some(Gate::ControlledNot));
                assert(r != col.len() - 1);
                assert(op.qubits =~= seq![r as nat, (r + 1) as nat]);
            } else if op.gate == Gate::Swap {
                assert(op.qubits == swap_rows(col));
            } else {
                assert(op.qubits =~= seq![r as nat]);
            }
        }
        let above = operations_above(col, rows - 1);
        assert forall|i: int| 0 <= i < operations_above(col, rows).len() implies (
        #[trigger] operations_above(col, rows)[i]).fits(col.len()) by {
            if i < above.len() {
                assert(operations_above(col, rows)[i] == above[i]);
            } else {
                assert(operations_above(col, rows)[i] == here[i - above.len()]);
            }
        }
    }
}

/// Reads one column as a step. The column is given as its tokens, top row
/// first. Fails with `InvalidGate` if a token is outside the vocabulary or a
/// multi-row token lacks its partner.
pub fn parse_column(col: &Vec<String>) -> (result: Result<Vec<Operation>, QuantumCircuitError>)
    ensures
        result is Ok <==> all_tokens_valid(col.deep_view()) && column_is_paired(col.deep_view()),
        result is Err ==> result == Err::<Vec<Operation>, QuantumCircuitError>(
            QuantumCircuitError::InvalidGate,
        ),
        result is Ok ==> result.unwrap().deep_view() == column_operations(col.deep_view()),
{
    let ghost tokens = col.deep_view();
    let rows: usize = col.len();
    let mut gates: Vec<Gate> = Vec::new();
    let mut swaps: Vec<usize> = Vec::new();
    let mut r: usize = 0;
    while r < rows
        invariant
            r <= rows,
            rows == col.len(),
            tokens == col.deep_view(),
            gates.len() == r,
            forall|k: int| 0 <= k < r ==> token_gate(tokens[k]) == Some(#[trigger] gates[k]),
            naturals(swaps@) == swap_rows(tokens.take(r as int)),
        decreases rows - r,
    {
        assert(tokens.take(r + 1).drop_last() =~= tokens.take(r as int));
        assert(tokens.take(r + 1).last() == tokens[r as int]);
        match parse_token(col[r].as_str()) {
            None => {
                assert(!is_valid_token(tokens[r as int]));
                return Err(QuantumCircuitError::InvalidGate);
            },
            Some(gate) => {
                if gate == Gate::Swap {
                    swaps.push(r);
                    assert(naturals(swaps@) =~= swap_rows(tokens.take(r as int)).push(r as nat));
                }
                gates.push(gate);
            },
        }
        r += 1;
    }
    assert(tokens.take(rows as int) =~= tokens);
    assert forall|k: int| 0 <= k < tokens.len() implies is_valid_token(#[trigger] tokens[k]) by {
        assert(token_gate(tokens[k]) == Some(gates[k]));
    }
    if swaps.len() != 0 && swaps.len() != 2 {
        return Err(QuantumCircuitError::InvalidGate);
    }
    if rows > 0 && gates[rows - 1] == Gate::ControlledNot {
        return Err(QuantumCircuitError::InvalidGate);
    }
    proof {
        lemma_swap_rows_ascend(tokens);
    }
    let mut operations: Vec<Operation> = Vec::new();
    let mut r: usize = 0;
    while r < rows
        invariant
            r <= rows,
            rows == col.len(),
            tokens == col.deep_view(),
            gates.len() == rows,
            forall|k: int| 0 <= k < rows ==> token_gate(tokens[k]) == Some(#[trigger] gates[k]),
            naturals(swaps@) == swap_rows(tokens),
            column_is_paired(tokens),
            forall|i: int| 0 <= i < swap_rows(tokens).len() ==> #[trigger] swap_rows(tokens)[i] < rows,
            operations.deep_view() == operations_above(tokens, r as int),
        decreases rows - r,
    {
        let gate = gates[r];
        let ghost before = operations.deep_view();
        match gate {
            Gate::Swap => {
                if swaps.len() == 2 && swaps[0] == r {
                    let mut qubits: Vec<usize> = Vec::new();
                    qubits.push(swaps[0]);
                    qubits.push(swaps[1]);
                    assert(naturals(qubits@) =~= naturals(swaps@));
                    operations.push(Operation { gate, qubits });
                }
            },
            Gate::ControlledNot => {
                let mut qubits: Vec<usize> = Vec::new();
                qubits.push(r);
                qubits.push(r + 1);
                assert(naturals(qubits@) =~= seq![r as nat, (r + 1) as nat]);
                operations.push(Operation { gate, qubits });
            },
            _ => {
                let mut qubits: Vec<usize> = Vec::new();
                qubits.push(r);
                assert(naturals(qubits@) =~= seq![r as nat]);
                operations.push(Operation { gate, qubits });
            },
        }
        assert(operations.deep_view() =~= before + row_operations(tokens, r as int));
        r += 1;
    }
    Ok(operations)
}

/// Reads a checked grid as a circuit: one step per column, in column order.
/// Fails with `InvalidGate` if some column is not paired.
pub fn parse_circuit(grid: &UnparsedCircuit) -> (result: Result<
    Vec<Vec<Operation>>,
    QuantumCircuitError,
>)
    requires
        validation_result(grid@) is Ok,
    ensures
        result is Ok <==> circuit_is_paired(grid@),
        result is Err ==> result == Err::<Vec<Vec<Operation>>, QuantumCircuitError>(
            QuantumCircuitError::InvalidGate,
        ),
        result is Ok ==> result.unwrap().deep_view() == circuit_steps(grid@),
{
    let rows: usize = grid.circuit.len();
    let columns: usize = grid.circuit[0].len();
    let mut steps: Vec<Vec<Operation>> = Vec::new();
    let mut c: usize = 0;
    while c < columns
        invariant
            c <= columns,
            rows == grid@.len(),
            columns == grid@[0].len(),
            validation_result(grid@) is Ok,
            steps.len() == c,
            forall|k: int| 0 <= k < c ==> column_is_paired(#[trigger] column(grid@, k)),
            forall|k: int|
                0 <= k < c ==> (#[trigger] steps[k]).deep_view() == column_operations(
                    column(grid@, k),
                ),
        decreases columns - c,
    {
        let mut col: Vec<String> = Vec::new();
        let mut r: usize = 0;
        while r < rows
            invariant
                r <= rows,
                rows == grid@.len(),
                c < columns,
                columns == grid@[0].len(),
                validation_result(grid@) is Ok,
                col.len() == r,
                forall|k: int| 0 <= k < r ==> (#[trigger] col[k])@ == grid@[k][c as int],
            decreases rows - r,
        {
            assert(grid@[r as int].len() == columns);
            col.push(grid.circuit[r][c].clone());
            r += 1;
        }
        assert(col.deep_view() =~= column(grid@, c as int));
        assert(all_tokens_valid(col.deep_view())) by {
            assert forall|k: int| 0 <= k < col.len() implies is_valid_token(
                #[trigger] col.deep_view()[k],
            ) by {
                assert(all_tokens_valid(grid@[k]));
                assert(grid@[k].len() == columns);
            }
        }
        match parse_column(&col) {
            Ok(step) => {
                steps.push(step);
            },
            Err(err) => {
                return Err(err);
            },
        }
        c += 1;
    }
    assert(steps.deep_view() =~= circuit_steps(grid@));
    Ok(steps)
}

} // verus!
