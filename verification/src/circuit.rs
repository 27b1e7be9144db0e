//! The ACIR circuits that the encoder reads: opcodes over witnesses and
//! field elements.

use vstd::prelude::*;

use crate::field::FieldValue;

verus! {

/// A witness of the circuit, by its index.
#[derive(Clone, Copy, Debug, PartialEq, Eq, Structural)]
pub struct Witness(pub u32);

/// A polynomial of degree at most two over the witnesses:
/// `sum q_M * wL * wR + sum q_L * w + q_c`.
pub struct Expression {
    pub mul_terms: Vec<(FieldValue, Witness, Witness)>,
    pub linear_combinations: Vec<(FieldValue, Witness)>,
    pub q_c: FieldValue,
}

impl Expression {
    /// Whether the expression is the constant 1 (no terms, constant term 1).
    pub open spec fn spec_is_one(&self) -> bool {
        &&& self.mul_terms.len() == 0
        &&& self.linear_combinations.len() == 0
        &&& self.q_c.value() == 1
    }

    /// Whether the expression is the constant 1 (no terms, constant term 1).
    pub fn is_one(&self) -> (b: bool)
        ensures
            b == self.spec_is_one(),
    {
        self.mul_terms.len() == 0 && self.linear_combinations.len() == 0 && self.q_c.is_one()
    }
}

/// An input of a black-box function: a constant or a witness.
pub enum FunctionInput {
    Constant(FieldValue),
    Witness(Witness),
}

/// A call to a black-box function. Only `AND` and `RANGE` carry the data the
/// encoder reads; the others are recognised by name.
pub enum BlackBoxFuncCall {
    And { lhs: FunctionInput, rhs: FunctionInput, num_bits: u32, output: Witness },
    Xor,
    Range { input: FunctionInput, num_bits: u32 },
    AES128Encrypt,
    Blake2s,
    Blake3,
    EcdsaSecp256k1,
    EcdsaSecp256r1,
    MultiScalarMul,
    EmbeddedCurveAdd,
    Keccakf1600,
    RecursiveAggregation,
    Poseidon2Permutation,
    Sha256Compression,
}

/// An input of a call to an unconstrained (Brillig) function.
pub enum BrilligInputs {
    Single(Expression),
    Array(Vec<Expression>),
    MemoryArray(u32),
}

/// An output of a call to an unconstrained (Brillig) function.
pub enum BrilligOutputs {
    Simple(Witness),
    Array(Vec<Witness>),
}

/// Whether a memory operation reads or writes.
#[derive(Clone, Copy, Debug, PartialEq, Eq, Structural)]
pub enum MemOpKind {
    Read,
    Write,
}

/// A read or a write of one cell of a memory block.
pub struct MemOp {
    pub operation: MemOpKind,
    pub index: Expression,
    pub value: Expression,
}

/// The kind of a memory block.
#[derive(Clone, Copy, Debug, PartialEq, Eq, Structural)]
pub enum BlockType {
    Memory,
    CallData(u32),
    ReturnData,
}

/// An opcode of an ACIR circuit.
pub enum Opcode {
    AssertZero(Expression),
    BlackBoxFuncCall(BlackBoxFuncCall),
    MemoryOp { block_id: u32, op: MemOp },
    MemoryInit { block_id: u32, init: Vec<Witness>, block_type: BlockType },
    BrilligCall {
        id: u32,
        inputs: Vec<BrilligInputs>,
        outputs: Vec<BrilligOutputs>,
        predicate: Expression,
    },
    Call { id: u32, inputs: Vec<Witness>, outputs: Vec<Witness>, predicate: Expression },
}

/// An ACIR circuit: its opcodes, and the highest witness index it uses.
pub struct Circuit {
    pub current_witness_index: u32,
    pub opcodes: Vec<Opcode>,
}

} // verus!
