//! The vocabulary: the closed set of gates and the tokens that name them.

use vstd::prelude::*;
use vstd::string::StrSliceExecFns;

verus! {

/// The largest number of qubits a circuit may have. It keeps every cluster
/// at `2^6 = 64` amplitudes or fewer.
pub const MAX_QUBITS: usize = 6;

/// A gate of the vocabulary.
#[derive(Debug, Clone, Copy, PartialEq, Eq, Structural)]
pub enum Gate {
    Identity,
    Hadamard,
    PauliX,
    PauliY,
    PauliZ,
    TGate,
    SGate,
    Swap,
    ControlledNot,
}

impl Gate {
    /// The number of qubits a gate of this kind acts on.
    pub open spec fn arity(self) -> nat {
        match self {
            Gate::Swap | Gate::ControlledNot => 2,
            _ => 1,
        }
    }

    /// The matrix of this gate, row by row.
    pub fn matrix(self) -> (rows: Vec<Vec<Entry>>)
        ensures
            entry_rows(rows@) == matrix_of(self),
    {
        let rows = match self {
            Gate::Identity => vec![vec![Entry::One, Entry::Zero], vec![Entry::Zero, Entry::One]],
            Gate::Hadamard => vec![
                vec![Entry::RootHalf, Entry::RootHalf],
                vec![Entry::RootHalf, Entry::MinusRootHalf],
            ],
            Gate::PauliX => vec![vec![Entry::Zero, Entry::One], vec![Entry::One, Entry::Zero]],
            Gate::PauliY => vec![
                vec![Entry::Zero, Entry::MinusImaginary],
                vec![Entry::Imaginary, Entry::Zero],
            ],
            Gate::PauliZ => vec![vec![Entry::One, Entry::Zero], vec![Entry::Zero, Entry::MinusOne]],
            Gate::TGate => vec![vec![Entry::One, Entry::Zero], vec![Entry::Zero, Entry::EighthTurn]],
            Gate::SGate => vec![vec![Entry::One, Entry::Zero], vec![Entry::Zero, Entry::Imaginary]],
            Gate::Swap => vec![
                vec![Entry::One, Entry::Zero, Entry::Zero, Entry::Zero],
                vec![Entry::Zero, Entry::Zero, Entry::One, Entry::Zero],
                vec![Entry::Zero, Entry::One, Entry::Zero, Entry::Zero],
                vec![Entry::Zero, Entry::Zero, Entry::Zero, Entry::One],
            ],
            Gate::ControlledNot => vec![
                vec![Entry::One, Entry::Zero, Entry::Zero, Entry::Zero],
                vec![Entry::Zero, Entry::One, Entry::Zero, Entry::Zero],
                vec![Entry::Zero, Entry::Zero, Entry::Zero, Entry::One],
                vec![Entry::Zero, Entry::Zero, Entry::One, Entry::Zero],
            ],
        };
        assert(entry_rows(rows@) =~~= matrix_of(self));
        rows
    }

    /// The number of qubits a gate of this kind acts on.
    pub fn qubits_needed(self) -> (count: usize)
        ensures
            count == self.arity(),
    {
        match self {
            Gate::Swap | Gate::ControlledNot => 2,
            _ => 1,
        }
    }
}

/// An entry of a gate's matrix. The matrices of the vocabulary need eight
/// complex numbers and no others.
#[derive(Debug, Clone, Copy, PartialEq, Eq, Structural)]
pub enum Entry {
    /// `0`
    Zero,
    /// `1`
    One,
    /// `-1`
    MinusOne,
    /// The imaginary unit `i`.
    Imaginary,
    /// `-i`
    MinusImaginary,
    /// `1/sqrt(2)`
    RootHalf,
    /// `-1/sqrt(2)`
    MinusRootHalf,
    /// `e^(i*pi/4)`, the square root of `i` in the first quadrant.
    EighthTurn,
}

/// Rows of entries as a matrix.
pub open spec fn entry_rows(rows: Seq<Vec<Entry>>) -> Seq<Seq<Entry>> {
    rows.map_values(|row: Vec<Entry>| row@)
}

/// The unitary matrix of a gate, row by row: two rows for a gate on one
/// qubit, four for a gate on two. Rows and columns of a two-qubit gate are
/// numbered by the states of its qubits, the first qubit as the more
/// significant bit.
pub open spec fn matrix_of(gate: Gate) -> Seq<Seq<Entry>> {
    match gate {
        Gate::Identity => seq![seq![Entry::One, Entry::Zero], seq![Entry::Zero, Entry::One]],
        Gate::Hadamard => seq![
            seq![Entry::RootHalf, Entry::RootHalf],
            seq![Entry::RootHalf, Entry::MinusRootHalf],
        ],
        Gate::PauliX => seq![seq![Entry::Zero, Entry::One], seq![Entry::One, Entry::Zero]],
        Gate::PauliY => seq![
            seq![Entry::Zero, Entry::MinusImaginary],
            seq![Entry::Imaginary, Entry::Zero],
        ],
        Gate::PauliZ => seq![seq![Entry::One, Entry::Zero], seq![Entry::Zero, Entry::MinusOne]],
        Gate::TGate => seq![seq![Entry::One, Entry::Zero], seq![Entry::Zero, Entry::EighthTurn]],
        Gate::SGate => seq![seq![Entry::One, Entry::Zero], seq![Entry::Zero, Entry::Imaginary]],
        Gate::Swap => seq![
            seq![Entry::One, Entry::Zero, Entry::Zero, Entry::Zero],
            seq![Entry::Zero, Entry::Zero, Entry::One, Entry::Zero],
            seq![Entry::Zero, Entry::One, Entry::Zero, Entry::Zero],
            seq![Entry::Zero, Entry::Zero, Entry::Zero, Entry::One],
        ],
        Gate::ControlledNot => seq![
            seq![Entry::One, Entry::Zero, Entry::Zero, Entry::Zero],
            seq![Entry::Zero, Entry::One, Entry::Zero, Entry::Zero],
            seq![Entry::Zero, Entry::Zero, Entry::Zero, Entry::One],
            seq![Entry::Zero, Entry::Zero, Entry::One, Entry::Zero],
        ],
    }
}

/// Which gate a token names: `I`, `H`, `X`, `Y`, `Z`, `T` and `S` name the
/// single-qubit gates, `Swap` one half of a swap, and `C_down` the control of
/// a controlled-not whose target is the next row. Any other token names none.
pub open spec fn token_gate(token: Seq<char>) -> Option<Gate> {
    if token == "I"@ {
        Some(Gate::Identity)
    } else if token == "H"@ {
        Some(Gate::Hadamard)
    } else if token == "X"@ {
        Some(Gate::PauliX)
    } else if token == "Y"@ {
        Some(Gate::PauliY)
    } else if token == "Z"@ {
        Some(Gate::PauliZ)
    } else if token == "T"@ {
        Some(Gate::TGate)
    } else if token == "S"@ {
        Some(Gate::SGate)
    } else if token == "Swap"@ {
        Some(Gate::Swap)
    } else if token == "C_down"@ {
        Some(Gate::ControlledNot)
    } else {
        None
    }
}

/// Whether a token belongs to the vocabulary.
pub open spec fn is_valid_token(token: Seq<char>) -> bool {
    token_gate(token) is Some
}

/// Reads a token as a gate of the vocabulary, if it names one.
pub fn parse_token(token: &str) -> (gate: Option<Gate>)
    ensures
        gate == token_gate(token@),
{
    proof {
        reveal_strlit("I");
        reveal_strlit("H");
        reveal_strlit("X");
        reveal_strlit("Y");
        reveal_strlit("Z");
        reveal_strlit("T");
        reveal_strlit("S");
        reveal_strlit("Swap");
        reveal_strlit("C_down");
    }
    let length: usize = token.unicode_len();
    if length == 1 {
        let c = token.get_char(0);
        if c == 'I' {
            assert(token@ =~= "I"@);
            Some(Gate::Identity)
        } else if c == 'H' {
            assert(token@ =~= "H"@);
            Some(Gate::Hadamard)
        } else if c == 'X' {
            assert(token@ =~= "X"@);
            Some(Gate::PauliX)
        } else if c == 'Y' {
            assert(token@ =~= "Y"@);
            Some(Gate::PauliY)
        } else if c == 'Z' {
            assert(token@ =~= "Z"@);
            Some(Gate::PauliZ)
        } else if c == 'T' {
            assert(token@ =~= "T"@);
            Some(Gate::TGate)
        } else if c == 'S' {
            assert(token@ =~= "S"@);
            Some(Gate::SGate)
        } else {
            None
        }
    } else if length == 4 {
        if token.get_char(0) == 'S' && token.get_char(1) == 'w' && token.get_char(2) == 'a'
            && token.get_char(3) == 'p' {
            assert(token@ =~= "Swap"@);
            Some(Gate::Swap)
        } else {
            None
        }
    } else if length == 6 {
        if token.get_char(0) == 'C' && token.get_char(1) == '_' && token.get_char(2) == 'd'
            && token.get_char(3) == 'o' && token.get_char(4) == 'w' && token.get_char(5) == 'n' {
            assert(token@ =~= "C_down"@);
            Some(Gate::ControlledNot)
        } else {
            None
        }
    } else {
        None
    }
}

} // verus!
