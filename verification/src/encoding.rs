//! What the encoder sends to the solver for each part of a circuit, stated
//! as functions from the encoder's state to its next state.

use vstd::arithmetic::power2::pow2;
use vstd::prelude::*;

use crate::circuit::{
    BlackBoxFuncCall, BlockType, BrilligInputs, BrilligOutputs, Expression, FunctionInput,
    MemOpKind, Opcode, Witness,
};
use crate::field::{field_text, FieldValue};
use crate::smt::{app_text, ff_literal, CommandSpec, Type};
use crate::text::{actlit_text, decimal, memory_text, witness_text};

verus! {

/// The largest witness index.
pub open spec fn max_index() -> nat {
    4294967295
}

/// What the encoder has produced so far: the next fresh witness index, the
/// commands sent to the solver, the activation literals of the verification
/// conditions with the opcode locations they come from, and the witnesses to
/// print with theirs.
pub struct EncState {
    pub next: nat,
    pub cmds: Seq<CommandSpec>,
    pub ver_conds: Seq<(Seq<char>, usize)>,
    pub print_locs: Seq<(u32, usize)>,
}

/// The result of encoding a part of a circuit: the next state; an
/// unsupported construct, with the state reached when it was met; or a
/// circuit that breaks an assumption of the encoder.
pub enum Outcome {
    Done(EncState),
    Failed(EncState, Seq<char>),
    Halted(Seq<char>),
}

/// What the encoding depends on besides the circuit.
pub struct Params {
    pub use_int: bool,
    pub strict: bool,
    pub prime: Seq<char>,
    pub names: Seq<Seq<char>>,
}

pub open spec fn overflow_msg() -> Seq<char> {
    "witness index overflow"@
}

pub open spec fn eq_text(a: Seq<char>, b: Seq<char>) -> Seq<char> {
    app_text("="@, seq![a, b])
}

pub open spec fn imp_text(a: Seq<char>, b: Seq<char>) -> Seq<char> {
    app_text("=>"@, seq![a, b])
}

pub open spec fn not_text(a: Seq<char>) -> Seq<char> {
    app_text("not"@, seq![a])
}

pub open spec fn lt_text(a: Seq<char>, b: Seq<char>) -> Seq<char> {
    app_text("<"@, seq![a, b])
}

pub open spec fn ff_zero() -> Seq<char> {
    "(as ff0 FF)"@
}

pub open spec fn ff_one() -> Seq<char> {
    "(as ff1 FF)"@
}

pub open spec fn wt(w: Witness) -> Seq<char> {
    witness_text(w.0 as nat)
}

pub open spec fn fv_text(v: FieldValue) -> Seq<char> {
    field_text(v.value())
}

/// The term alone when there is one, else the operator applied to all of them.
pub open spec fn sum_text(op: Seq<char>, items: Seq<Seq<char>>) -> Seq<char> {
    if items.len() == 1 {
        items[0]
    } else {
        app_text(op, items)
    }
}

// ---------------------------------------------------------------- expressions

pub open spec fn mul_term_ff(t: (FieldValue, Witness, Witness)) -> Seq<char> {
    app_text("ff.mul"@, seq![ff_literal(fv_text(t.0)), wt(t.1), wt(t.2)])
}

pub open spec fn lin_term_ff(t: (FieldValue, Witness)) -> Seq<char> {
    app_text("ff.mul"@, seq![ff_literal(fv_text(t.0)), wt(t.1)])
}

/// The terms of an expression in the field encoding: products, then linear terms.
pub open spec fn terms_ff(e: Expression) -> Seq<Seq<char>> {
    e.mul_terms@.map_values(|t: (FieldValue, Witness, Witness)| mul_term_ff(t))
        + e.linear_combinations@.map_values(|t: (FieldValue, Witness)| lin_term_ff(t))
}

/// An expression in the field encoding: the sum of its terms and its constant,
/// or the constant alone.
pub open spec fn expr_ff(e: Expression) -> Seq<char> {
    let c = ff_literal(fv_text(e.q_c));
    if terms_ff(e).len() == 0 {
        c
    } else {
        app_text("ff.add"@, terms_ff(e).push(c))
    }
}

pub open spec fn mul_term_int(t: (FieldValue, Witness, Witness)) -> Seq<char> {
    app_text("*"@, seq![fv_text(t.0), wt(t.1), wt(t.2)])
}

pub open spec fn lin_term_int(t: (FieldValue, Witness)) -> Seq<char> {
    app_text("*"@, seq![fv_text(t.0), wt(t.1)])
}

pub open spec fn terms_int(e: Expression) -> Seq<Seq<char>> {
    e.mul_terms@.map_values(|t: (FieldValue, Witness, Witness)| mul_term_int(t))
        + e.linear_combinations@.map_values(|t: (FieldValue, Witness)| lin_term_int(t))
}

/// An expression in the integer encoding: the sum of its terms and its
/// constant reduced modulo the prime, or the constant alone.
pub open spec fn expr_int(e: Expression, prime: Seq<char>) -> Seq<char> {
    let c = fv_text(e.q_c);
    if terms_int(e).len() == 0 {
        c
    } else {
        app_text("mod"@, seq![app_text("+"@, terms_int(e).push(c)), prime])
    }
}

// ---------------------------------------------------------------- state steps

pub open spec fn with_cmd(st: EncState, c: CommandSpec) -> EncState {
    EncState { cmds: st.cmds.push(c), ..st }
}

pub open spec fn with_assert(st: EncState, t: Seq<char>) -> EncState {
    with_cmd(st, CommandSpec::Assert(t))
}

/// Declares the next fresh witness (when there is room for it).
pub open spec fn fresh(st: EncState, ty: Type) -> EncState {
    EncState {
        next: st.next + 1,
        cmds: st.cmds.push(CommandSpec::Declare(witness_text(st.next), ty)),
        ..st
    }
}

/// Whether `k` more fresh witnesses fit below the largest index.
pub open spec fn room(st: EncState, k: nat) -> bool {
    st.next + k <= max_index()
}

/// Bounds an integer witness to `[0, prime)`.
pub open spec fn int_range(st: EncState, x: Seq<char>, prime: Seq<char>) -> EncState {
    with_assert(with_assert(st, lt_text("-1"@, x)), lt_text(x, prime))
}

/// A fresh integer witness bounded to `[0, prime)`.
pub open spec fn fresh_int(st: EncState, prime: Seq<char>) -> EncState {
    int_range(fresh(st, Type::Int), witness_text(st.next), prime)
}

/// `x * (x + -1) = 0`: `x` is 0 or 1.
pub open spec fn bool_text(x: Seq<char>) -> Seq<char> {
    eq_text(app_text("ff.mul"@, seq![x, app_text("ff.add"@, seq![x, ff_literal("-1"@)])]), ff_zero())
}

/// `n` fresh field witnesses, each constrained to be 0 or 1.
pub open spec fn bools_ff(st: EncState, n: nat) -> EncState
    decreases n,
{
    if n == 0 {
        st
    } else {
        let s = bools_ff(st, (n - 1) as nat);
        with_assert(fresh(s, Type::FField), bool_text(witness_text(s.next)))
    }
}

/// `n` fresh integer witnesses, each bounded to `[0, 2)`.
pub open spec fn bools_int(st: EncState, n: nat) -> EncState
    decreases n,
{
    if n == 0 {
        st
    } else {
        let s = bools_int(st, (n - 1) as nat);
        let x = witness_text(s.next);
        with_assert(with_assert(fresh(s, Type::Int), lt_text("-1"@, x)), lt_text(x, "2"@))
    }
}

pub proof fn lemma_bools_next(st: EncState, n: nat)
    ensures
        bools_ff(st, n).next == st.next + n,
        bools_int(st, n).next == st.next + n,
        bools_ff(st, n).ver_conds == st.ver_conds,
        bools_int(st, n).ver_conds == st.ver_conds,
        bools_ff(st, n).print_locs == st.print_locs,
        bools_int(st, n).print_locs == st.print_locs,
    decreases n,
{
    if n > 0 {
        lemma_bools_next(st, (n - 1) as nat);
    }
}

/// The names of `n` witnesses numbered from `start`.
pub open spec fn bit_names(start: nat, n: nat) -> Seq<Seq<char>> {
    Seq::new(n, |k: int| witness_text(start + k as nat))
}

/// Each item multiplied by successive powers of two.
pub open spec fn pow_terms(items: Seq<Seq<char>>) -> Seq<Seq<char>> {
    Seq::new(items.len(), |i: int| app_text("*"@, seq![decimal(pow2(i as nat)), items[i]]))
}

/// `w` decomposed into `n` fresh bits in the field encoding: `w = ff.bitsum(bits)`.
pub open spec fn bitsum_ff(st: EncState, w: nat, n: nat) -> Outcome {
    if !room(st, n) {
        Outcome::Halted(overflow_msg())
    } else {
        Outcome::Done(
            with_assert(
                bools_ff(st, n),
                eq_text(witness_text(w), sum_text("ff.bitsum"@, bit_names(st.next, n))),
            ),
        )
    }
}

/// `w` decomposed into `n` fresh bits in the integer encoding: `w = sum 2^i * bit_i`.
pub open spec fn bitsum_int(st: EncState, w: nat, n: nat) -> Outcome {
    if !room(st, n) {
        Outcome::Halted(overflow_msg())
    } else {
        Outcome::Done(
            with_assert(
                bools_int(st, n),
                eq_text(witness_text(w), sum_text("+"@, pow_terms(bit_names(st.next, n)))),
            ),
        )
    }
}

// ---------------------------------------------------------------- opcodes

pub open spec fn assert_zero(p: Params, st: EncState, e: Expression) -> EncState {
    if p.use_int {
        with_assert(st, eq_text(expr_int(e, p.prime), "0"@))
    } else {
        with_assert(st, eq_text(expr_ff(e), ff_zero()))
    }
}

pub open spec fn range(p: Params, st: EncState, input: FunctionInput, num_bits: u32) -> Outcome {
    match input {
        FunctionInput::Constant(_) => Outcome::Done(st),
        FunctionInput::Witness(w) => {
            if p.use_int {
                if num_bits == 0 {
                    Outcome::Done(with_assert(st, eq_text(wt(w), "0"@)))
                } else {
                    Outcome::Done(
                        with_assert(
                            with_assert(st, lt_text("-1"@, wt(w))),
                            lt_text(wt(w), decimal(pow2(num_bits as nat))),
                        ),
                    )
                }
            } else {
                if num_bits == 0 {
                    Outcome::Done(with_assert(st, eq_text(wt(w), ff_zero())))
                } else {
                    bitsum_ff(st, w.0 as nat, num_bits as nat)
                }
            }
        },
    }
}

/// The bitwise AND of the bits of two decompositions, in the field encoding.
pub open spec fn and_bits_ff(l: Seq<Seq<char>>, r: Seq<Seq<char>>) -> Seq<Seq<char>> {
    Seq::new(l.len(), |i: int| app_text("ff.mul"@, seq![l[i], r[i]]))
}

/// The bitwise AND of the bits of two decompositions, weighted, in the integer encoding.
pub open spec fn and_terms_int(l: Seq<Seq<char>>, r: Seq<Seq<char>>) -> Seq<Seq<char>> {
    Seq::new(
        l.len(),
        |i: int| app_text("*"@, seq![decimal(pow2(i as nat)), app_text("*"@, seq![l[i], r[i]])]),
    )
}

pub open spec fn and_msg() -> Seq<char> {
    "Constant input to AND is not supported"@
}

pub open spec fn and(
    p: Params,
    st: EncState,
    lhs: FunctionInput,
    rhs: FunctionInput,
    num_bits: u32,
    output: Witness,
) -> Outcome {
    match (lhs, rhs) {
        (FunctionInput::Witness(l), FunctionInput::Witness(r)) => {
            let n = num_bits as nat;
            if num_bits == 0 {
                Outcome::Done(with_assert(st, eq_text(wt(output), if p.use_int { "0"@ } else { ff_zero() })))
            } else if !room(st, 2 * n) {
                Outcome::Halted(overflow_msg())
            } else if p.use_int {
                let s1 = with_assert(bools_int(st, n), eq_text(wt(l), sum_text("+"@, pow_terms(bit_names(st.next, n)))));
                let s2 = with_assert(bools_int(s1, n), eq_text(wt(r), sum_text("+"@, pow_terms(bit_names(s1.next, n)))));
                Outcome::Done(with_assert(s2, eq_text(wt(output), sum_text("+"@, and_terms_int(bit_names(st.next, n), bit_names(s1.next, n))))))
            } else {
                let s1 = with_assert(bools_ff(st, n), eq_text(wt(l), sum_text("ff.bitsum"@, bit_names(st.next, n))));
                let s2 = with_assert(bools_ff(s1, n), eq_text(wt(r), sum_text("ff.bitsum"@, bit_names(s1.next, n))));
                Outcome::Done(with_assert(s2, eq_text(wt(output), sum_text("ff.bitsum"@, and_bits_ff(bit_names(st.next, n), bit_names(s1.next, n))))))
            }
        },
        _ => Outcome::Failed(st, and_msg()),
    }
}

pub open spec fn unsupported_msg(name: Seq<char>) -> Seq<char> {
    name + " black box function is not supported"@
}

pub open spec fn black_box(p: Params, st: EncState, call: BlackBoxFuncCall) -> Outcome {
    match call {
        BlackBoxFuncCall::And { lhs, rhs, num_bits, output } => and(p, st, lhs, rhs, num_bits, output),
        BlackBoxFuncCall::Xor => Outcome::Failed(st, unsupported_msg("XOR"@)),
        BlackBoxFuncCall::Range { input, num_bits } => range(p, st, input, num_bits),
        BlackBoxFuncCall::AES128Encrypt => Outcome::Failed(st, unsupported_msg("AES128Encrypt"@)),
        BlackBoxFuncCall::Blake2s => Outcome::Failed(st, unsupported_msg("Blake2s"@)),
        BlackBoxFuncCall::Blake3 => Outcome::Failed(st, unsupported_msg("Blake3"@)),
        BlackBoxFuncCall::EcdsaSecp256k1 => Outcome::Failed(st, unsupported_msg("EcdsaSecp256k1"@)),
        BlackBoxFuncCall::EcdsaSecp256r1 => Outcome::Failed(st, unsupported_msg("EcdsaSecp256r1"@)),
        BlackBoxFuncCall::MultiScalarMul => Outcome::Failed(st, unsupported_msg("MultiScalarMul"@)),
        BlackBoxFuncCall::EmbeddedCurveAdd => Outcome::Failed(st, unsupported_msg("EmbeddedCurveAdd"@)),
        BlackBoxFuncCall::Keccakf1600 => Outcome::Failed(st, unsupported_msg("Keccakf1600"@)),
        BlackBoxFuncCall::RecursiveAggregation => Outcome::Failed(st, unsupported_msg("RecursiveAggregation"@)),
        BlackBoxFuncCall::Poseidon2Permutation => Outcome::Failed(st, unsupported_msg("Poseidon2Permutation"@)),
        BlackBoxFuncCall::Sha256Compression => Outcome::Failed(st, unsupported_msg("Sha256Compression"@)),
    }
}

pub open spec fn array_input_msg() -> Seq<char> {
    "Brillig input array is unimplemented"@
}

pub open spec fn memory_array_input_msg() -> Seq<char> {
    "Brillig input memory array is unimplemented"@
}

pub open spec fn predicate_msg() -> Seq<char> {
    "verification call under a predicate other than 1"@
}

/// A verification condition: a fresh activation literal `a`, a fresh witness
/// `x` equal to the condition, and `a => x = 0`, `not a => x = 1`. Checking
/// satisfiability under `a` asks whether the condition can be false.
pub open spec fn verify_condition(p: Params, st: EncState, loc: usize, e: Expression) -> EncState {
    let a = actlit_text((st.ver_conds.len() as u32) as nat);
    let s1 = EncState {
        cmds: st.cmds.push(CommandSpec::Declare(a, Type::Bool)),
        ver_conds: st.ver_conds.push((a, loc)),
        ..st
    };
    let x = witness_text(s1.next);
    if p.use_int {
        let s2 = with_assert(fresh_int(s1, p.prime), eq_text(expr_int(e, p.prime), x));
        with_assert(with_assert(s2, imp_text(a, eq_text(x, "0"@))), imp_text(not_text(a), eq_text(x, "1"@)))
    } else {
        let s2 = with_assert(fresh(s1, Type::FField), eq_text(expr_ff(e), x));
        with_assert(with_assert(s2, imp_text(a, eq_text(x, ff_zero()))), imp_text(not_text(a), eq_text(x, ff_one())))
    }
}

/// The inputs of a `verify_assert` call from the `i`-th on.
pub open spec fn verify_assert_inputs(
    p: Params,
    st: EncState,
    loc: usize,
    inputs: Seq<BrilligInputs>,
    pred_one: bool,
    i: nat,
) -> Outcome
    decreases inputs.len() - i,
{
    if i >= inputs.len() {
        Outcome::Done(st)
    } else {
        match inputs[i as int] {
            BrilligInputs::Single(e) => {
                if !pred_one {
                    Outcome::Halted(predicate_msg())
                } else if !room(st, 1) {
                    Outcome::Halted(overflow_msg())
                } else {
                    verify_assert_inputs(p, verify_condition(p, st, loc, e), loc, inputs, pred_one, i + 1)
                }
            },
            BrilligInputs::Array(_) => Outcome::Failed(st, array_input_msg()),
            BrilligInputs::MemoryArray(_) => Outcome::Failed(st, memory_array_input_msg()),
        }
    }
}

/// The inputs of a `verify_assume` call from the `i`-th on: each is asserted to be 1.
pub open spec fn verify_assume_inputs(
    p: Params,
    st: EncState,
    inputs: Seq<BrilligInputs>,
    pred_one: bool,
    i: nat,
) -> Outcome
    decreases inputs.len() - i,
{
    if i >= inputs.len() {
        Outcome::Done(st)
    } else {
        match inputs[i as int] {
            BrilligInputs::Single(e) => {
                if !pred_one {
                    Outcome::Halted(predicate_msg())
                } else {
                    let s = if p.use_int {
                        with_assert(st, eq_text(expr_int(e, p.prime), "1"@))
                    } else {
                        with_assert(st, eq_text(expr_ff(e), ff_one()))
                    };
                    verify_assume_inputs(p, s, inputs, pred_one, i + 1)
                }
            },
            BrilligInputs::Array(_) => Outcome::Failed(st, array_input_msg()),
            BrilligInputs::MemoryArray(_) => Outcome::Failed(st, memory_array_input_msg()),
        }
    }
}

pub open spec fn print_output_msg() -> Seq<char> {
    "verify_print should have exactly one output"@
}

pub open spec fn empty_print_msg() -> Seq<char> {
    "verify_print output array is empty"@
}

pub open spec fn verify_print(st: EncState, loc: usize, outputs: Seq<BrilligOutputs>) -> Outcome {
    if outputs.len() != 1 {
        Outcome::Failed(st, print_output_msg())
    } else {
        match outputs[0] {
            BrilligOutputs::Simple(w) => Outcome::Done(EncState { print_locs: st.print_locs.push((w.0, loc)), ..st }),
            BrilligOutputs::Array(ws) => {
                if ws.len() == 0 {
                    Outcome::Halted(empty_print_msg())
                } else {
                    Outcome::Done(EncState { print_locs: st.print_locs.push((ws@[0].0, loc)), ..st })
                }
            },
        }
    }
}

pub open spec fn assert_func_name() -> Seq<char> {
    "verify_assert"@
}

pub open spec fn assume_func_name() -> Seq<char> {
    "verify_assume"@
}

pub open spec fn print_func_name() -> Seq<char> {
    "verify_print"@
}

/// A call to an unconstrained function: the verification functions, found by
/// the name of the called function, are encoded; other calls add nothing.
pub open spec fn brillig_call(
    p: Params,
    st: EncState,
    loc: usize,
    id: u32,
    inputs: Seq<BrilligInputs>,
    outputs: Seq<BrilligOutputs>,
    predicate: Expression,
) -> Outcome {
    if id < p.names.len() {
        let name = p.names[id as int];
        if name == assert_func_name() {
            verify_assert_inputs(p, st, loc, inputs, predicate.spec_is_one(), 0)
        } else if name == assume_func_name() {
            verify_assume_inputs(p, st, inputs, predicate.spec_is_one(), 0)
        } else if name == print_func_name() {
            verify_print(st, loc, outputs)
        } else {
            Outcome::Done(st)
        }
    } else {
        Outcome::Done(st)
    }
}

pub open spec fn call_msg() -> Seq<char> {
    "Function calls are not supported in formal verification"@
}

// ---------------------------------------------------------------- memory

/// The opcodes of one memory block: its initialisation and the locations of
/// the operations on it, in order.
pub struct TraceSpec {
    pub block_id: u32,
    pub block_type: BlockType,
    pub init: Seq<Witness>,
    pub ops: Seq<usize>,
}

/// The position of the trace of block `b` from the `i`-th trace on, if there is one.
pub open spec fn find_trace(tr: Seq<TraceSpec>, b: u32, i: nat) -> Option<nat>
    decreases tr.len() - i,
{
    if i >= tr.len() {
        None
    } else if tr[i as int].block_id == b {
        Some(i)
    } else {
        find_trace(tr, b, i + 1)
    }
}

/// A new initialisation of a block replaces its trace, or starts one.
pub open spec fn init_trace(tr: Seq<TraceSpec>, t: TraceSpec) -> Seq<TraceSpec> {
    match find_trace(tr, t.block_id, 0) {
        Some(j) => tr.update(j as int, t),
        None => tr.push(t),
    }
}

pub open spec fn memory_order_msg() -> Seq<char> {
    "MemInit opcode should have run before"@
}

/// The result of the first pass over the opcodes: the state and the memory
/// traces collected; an unsupported construct (strict mode); or a halt.
pub enum Pass {
    Done(EncState, Seq<TraceSpec>),
    Failed(Seq<char>),
    Halted(Seq<char>),
}

/// An outcome under the strictness setting: in relaxed mode an unsupported
/// construct is skipped, keeping what was produced before it was met.
pub open spec fn strictly(strict: bool, o: Outcome, tr: Seq<TraceSpec>) -> Pass {
    match o {
        Outcome::Done(s) => Pass::Done(s, tr),
        Outcome::Failed(s, m) => if strict { Pass::Failed(m) } else { Pass::Done(s, tr) },
        Outcome::Halted(m) => Pass::Halted(m),
    }
}

pub open spec fn opcode_step(
    p: Params,
    st: EncState,
    tr: Seq<TraceSpec>,
    loc: usize,
    op: Opcode,
) -> Pass {
    match op {
        Opcode::AssertZero(e) => Pass::Done(assert_zero(p, st, e), tr),
        Opcode::BlackBoxFuncCall(c) => strictly(p.strict, black_box(p, st, c), tr),
        Opcode::MemoryOp { block_id, op: _ } => match find_trace(tr, block_id, 0) {
            Some(j) => Pass::Done(st, tr.update(j as int, TraceSpec { ops: tr[j as int].ops.push(loc), ..tr[j as int] })),
            None => Pass::Halted(memory_order_msg()),
        },
        Opcode::MemoryInit { block_id, init, block_type } => Pass::Done(
            st,
            init_trace(tr, TraceSpec { block_id, block_type, init: init@, ops: Seq::empty() }),
        ),
        Opcode::BrilligCall { id, inputs, outputs, predicate } => strictly(
            p.strict,
            brillig_call(p, st, loc, id, inputs@, outputs@, predicate),
            tr,
        ),
        Opcode::Call { .. } => strictly(p.strict, Outcome::Failed(st, call_msg()), tr),
    }
}

/// The first pass over the first `i` opcodes.
pub open spec fn first_pass(p: Params, st: EncState, ops: Seq<Opcode>, i: nat) -> Pass
    decreases i,
{
    if i == 0 {
        Pass::Done(st, Seq::empty())
    } else {
        match first_pass(p, st, ops, (i - 1) as nat) {
            Pass::Done(s, tr) => opcode_step(p, s, tr, (i - 1) as usize, ops[i - 1]),
            other => other,
        }
    }
}

/// Once the first pass stops, it stays stopped.
pub proof fn lemma_first_pass_stops(p: Params, st: EncState, ops: Seq<Opcode>, k: nat, n: nat)
    requires
        k <= n,
        !(first_pass(p, st, ops, k) is Done),
    ensures
        first_pass(p, st, ops, n) == first_pass(p, st, ops, k),
    decreases n,
{
    if n > k {
        lemma_first_pass_stops(p, st, ops, k, (n - 1) as nat);
    }
}

pub open spec fn block_type_msg() -> Seq<char> {
    "Only memory block type is supported"@
}

/// The initial cells of a block, from the first `n` witnesses of its initialisation.
pub open spec fn memory_cells(st: EncState, b: u32, init: Seq<Witness>, ty: Type, n: nat) -> EncState
    decreases n,
{
    if n == 0 {
        st
    } else {
        let s = memory_cells(st, b, init, ty, (n - 1) as nat);
        let m = memory_text(b as nat, (n - 1) as nat, 0);
        with_assert(with_cmd(s, CommandSpec::Declare(m, ty)), eq_text(wt(init[n - 1]), m))
    }
}

pub open spec fn memory_init(p: Params, st: EncState, t: TraceSpec) -> Outcome {
    if t.block_type != BlockType::Memory {
        Outcome::Failed(st, block_type_msg())
    } else {
        Outcome::Done(memory_cells(st, t.block_id, t.init, if p.use_int { Type::Int } else { Type::FField }, t.init.len()))
    }
}

pub open spec fn length_msg() -> Seq<char> {
    "memory operation on an empty block"@
}

/// The number of binary digits of `b` (0 for 0).
pub open spec fn bit_len(b: nat) -> nat
    decreases b,
{
    if b == 0 {
        0
    } else {
        1 + bit_len(b / 2)
    }
}

/// Binary digit `i` of `b`.
pub open spec fn bit_of(b: nat, i: nat) -> nat
    decreases i,
{
    if i == 0 {
        b % 2
    } else {
        bit_of(b / 2, (i - 1) as nat)
    }
}

/// `b` halved `k` times.
pub open spec fn halve(b: nat, k: nat) -> nat
    decreases k,
{
    if k == 0 {
        b
    } else {
        halve(b / 2, (k - 1) as nat)
    }
}

pub proof fn lemma_halve(b: nat, k: nat)
    ensures
        halve(b, k + 1) == halve(b, k) / 2,
        bit_of(b, k) == halve(b, k) % 2,
        halve(b, k) > 0 ==> bit_len(b) == k + bit_len(halve(b, k)),
        b == 0 ==> halve(b, k) == 0,
    decreases k,
{
    if k > 0 {
        lemma_halve(b / 2, (k - 1) as nat);
        assert(halve(b, k + 1) == halve(b / 2, k));
    } else {
        assert(halve(b, 1) == halve(b / 2, 0));
    }
}

/// The constraints that bound bits `i` down to 0 of a decomposition by the
/// bits of `bound`, given `cur`, which is 1 exactly when all higher bits at
/// the 1-digits of `bound` are 1. At a 1-digit of `bound` a fresh witness
/// takes `cur * bit`; at a 0-digit, `bit * cur = 0`.
pub open spec fn chain(st: EncState, bits: Seq<Seq<char>>, bound: nat, i: int, cur: Seq<char>) -> Outcome
    decreases i + 1,
{
    if i < 0 {
        Outcome::Done(st)
    } else if bit_of(bound, i as nat) == 1 {
        if !room(st, 1) {
            Outcome::Halted(overflow_msg())
        } else {
            let c = witness_text(st.next);
            let s = with_assert(fresh(st, Type::FField), eq_text(c, app_text("ff.mul"@, seq![cur, bits[i]])));
            chain(s, bits, bound, i - 1, c)
        }
    } else {
        chain(with_assert(st, eq_text(app_text("ff.mul"@, seq![bits[i], cur]), ff_zero())), bits, bound, i - 1, cur)
    }
}

/// Constrains witness `w` to `[0, length - 1]` in the field encoding.
pub open spec fn range_inclusive_ff(st: EncState, w: nat, length: u32) -> Outcome {
    if length == 0 {
        Outcome::Halted(length_msg())
    } else if length == 1 {
        Outcome::Done(with_assert(st, eq_text(witness_text(w), ff_zero())))
    } else {
        let bound = (length - 1) as nat;
        let n = bit_len(bound);
        match bitsum_ff(st, w, n) {
            Outcome::Done(s) => chain(s, bit_names(st.next, n), bound, n - 2, bit_names(st.next, n)[n - 1]),
            other => other,
        }
    }
}

/// Constrains witness `w` to `[0, length - 1]` in the integer encoding.
pub open spec fn range_inclusive_int(st: EncState, w: nat, length: u32) -> Outcome {
    if length == 0 {
        Outcome::Halted(length_msg())
    } else if length == 1 {
        Outcome::Done(with_assert(st, eq_text(witness_text(w), "0"@)))
    } else {
        Outcome::Done(with_assert(with_assert(st, lt_text("-1"@, witness_text(w))), lt_text(witness_text(w), field_text(length as nat))))
    }
}

/// Reading cell `i` gives the value read, for the first `n` cells.
pub open spec fn read_cells(st: EncState, b: u32, idx: Seq<char>, val: Seq<char>, f: nat, use_int: bool, n: nat) -> EncState
    decreases n,
{
    if n == 0 {
        st
    } else {
        let s = read_cells(st, b, idx, val, f, use_int, (n - 1) as nat);
        let i = (n - 1) as nat;
        let lit = if use_int { decimal(i) } else { ff_literal(decimal(i)) };
        with_assert(s, imp_text(eq_text(idx, lit), eq_text(val, memory_text(b as nat, i, f))))
    }
}

/// A write makes new cells: the written one takes the value, the others keep
/// theirs; for the first `n` cells.
pub open spec fn write_cells(st: EncState, b: u32, idx: Seq<char>, val: Seq<char>, f: nat, use_int: bool, n: nat) -> EncState
    decreases n,
{
    if n == 0 {
        st
    } else {
        let s = write_cells(st, b, idx, val, f, use_int, (n - 1) as nat);
        let i = (n - 1) as nat;
        let lit = if use_int { decimal(i) } else { ff_literal(decimal(i)) };
        let new_cell = memory_text(b as nat, i, f + 1);
        let old_cell = memory_text(b as nat, i, f);
        let s1 = with_cmd(s, CommandSpec::Declare(new_cell, if use_int { Type::Int } else { Type::FField }));
        let s2 = with_assert(s1, imp_text(eq_text(idx, lit), eq_text(val, new_cell)));
        with_assert(s2, imp_text(not_text(eq_text(idx, lit)), eq_text(old_cell, new_cell)))
    }
}

pub open spec fn write_count_msg() -> Seq<char> {
    "memory write count overflow"@
}

/// One memory operation on block `b` of `len` cells after `f` writes: a fresh
/// witness for the index, bounded to the block; a fresh witness for the value;
/// then the read or write constraints. Gives the state and the new write count.
pub open spec fn memory_op(
    p: Params,
    st: EncState,
    b: u32,
    kind: MemOpKind,
    index: Expression,
    value: Expression,
    len: nat,
    f: nat,
) -> (Outcome, nat) {
    let idx = witness_text(st.next);
    if !room(st, 1) {
        (Outcome::Halted(overflow_msg()), f)
    } else {
        let s1 = if p.use_int {
            with_assert(fresh_int(st, p.prime), eq_text(idx, expr_int(index, p.prime)))
        } else {
            with_assert(fresh(st, Type::FField), eq_text(idx, expr_ff(index)))
        };
        let r = if p.use_int {
            range_inclusive_int(s1, st.next, len as u32)
        } else {
            range_inclusive_ff(s1, st.next, len as u32)
        };
        match r {
            Outcome::Done(s2) => {
                if !room(s2, 1) {
                    (Outcome::Halted(overflow_msg()), f)
                } else {
                    let val = witness_text(s2.next);
                    let s3 = if p.use_int {
                        with_assert(fresh_int(s2, p.prime), eq_text(val, expr_int(value, p.prime)))
                    } else {
                        with_assert(fresh(s2, Type::FField), eq_text(val, expr_ff(value)))
                    };
                    match kind {
                        MemOpKind::Read => (Outcome::Done(read_cells(s3, b, idx, val, f, p.use_int, len)), f),
                        MemOpKind::Write => {
                            if f >= max_index() {
                                (Outcome::Halted(write_count_msg()), f)
                            } else {
                                (Outcome::Done(write_cells(s3, b, idx, val, f, p.use_int, len)), f + 1)
                            }
                        },
                    }
                }
            },
            other => (other, f),
        }
    }
}

/// The first `k` operations of a block's trace; gives the state and the write count.
pub open spec fn memory_ops(p: Params, st: EncState, t: TraceSpec, ops: Seq<Opcode>, k: nat) -> (Outcome, nat)
    decreases k,
{
    if k == 0 {
        (Outcome::Done(st), 0)
    } else {
        match memory_ops(p, st, t, ops, (k - 1) as nat) {
            (Outcome::Done(s), f) => {
                let loc = t.ops[k - 1];
                match ops[loc as int] {
                    Opcode::MemoryOp { block_id: _, op } => memory_op(
                        p,
                        s,
                        t.block_id,
                        op.operation,
                        op.index,
                        op.value,
                        t.init.len() as nat,
                        f,
                    ),
                    _ => (Outcome::Done(s), f),
                }
            },
            other => other,
        }
    }
}

/// Once the operations of a block stop, they stay stopped.
pub proof fn lemma_memory_ops_stop(p: Params, st: EncState, t: TraceSpec, ops: Seq<Opcode>, k: nat, n: nat)
    requires
        k <= n,
        !(memory_ops(p, st, t, ops, k).0 is Done),
    ensures
        memory_ops(p, st, t, ops, n).0 == memory_ops(p, st, t, ops, k).0,
    decreases n,
{
    if n > k {
        lemma_memory_ops_stop(p, st, t, ops, k, (n - 1) as nat);
    }
}

/// One block: its initialisation (skipped in relaxed mode when unsupported), then its operations.
pub open spec fn memory_block(p: Params, st: EncState, t: TraceSpec, ops: Seq<Opcode>) -> Pass {
    match strictly(p.strict, memory_init(p, st, t), Seq::empty()) {
        Pass::Done(s, _) => match memory_ops(p, s, t, ops, t.ops.len()).0 {
            Outcome::Done(s2) => Pass::Done(s2, Seq::empty()),
            Outcome::Failed(_, m) => Pass::Failed(m),
            Outcome::Halted(m) => Pass::Halted(m),
        },
        other => other,
    }
}

/// The second pass: the first `k` memory traces, in order.
pub open spec fn second_pass(p: Params, st: EncState, tr: Seq<TraceSpec>, ops: Seq<Opcode>, k: nat) -> Pass
    decreases k,
{
    if k == 0 {
        Pass::Done(st, Seq::empty())
    } else {
        match second_pass(p, st, tr, ops, (k - 1) as nat) {
            Pass::Done(s, _) => memory_block(p, s, tr[k - 1], ops),
            other => other,
        }
    }
}

/// Once the second pass stops, it stays stopped.
pub proof fn lemma_second_pass_stops(p: Params, st: EncState, tr: Seq<TraceSpec>, ops: Seq<Opcode>, k: nat, n: nat)
    requires
        k <= n,
        !(second_pass(p, st, tr, ops, k) is Done),
    ensures
        second_pass(p, st, tr, ops, n) == second_pass(p, st, tr, ops, k),
    decreases n,
{
    if n > k {
        lemma_second_pass_stops(p, st, tr, ops, k, (n - 1) as nat);
    }
}

/// The declarations of the first `n` witnesses of the circuit (each bounded to
/// `[0, prime)` in the integer encoding).
pub open spec fn declare_witnesses(p: Params, st: EncState, n: nat) -> EncState
    decreases n,
{
    if n == 0 {
        st
    } else {
        let s = declare_witnesses(p, st, (n - 1) as nat);
        let x = witness_text((n - 1) as nat);
        if p.use_int {
            int_range(with_cmd(s, CommandSpec::Declare(x, Type::Int)), x, p.prime)
        } else {
            with_cmd(s, CommandSpec::Declare(x, Type::FField))
        }
    }
}

pub open spec fn num_vars_msg() -> Seq<char> {
    "circuit witness count overflow"@
}

/// The whole encoding of a circuit with `num_vars` witnesses: their declarations,
/// the first pass over the opcodes, then the memory blocks.
pub open spec fn translate(p: Params, st: EncState, current_witness_index: u32, ops: Seq<Opcode>) -> Pass {
    if current_witness_index as nat >= max_index() {
        Pass::Halted(num_vars_msg())
    } else {
        let s0 = declare_witnesses(p, st, current_witness_index as nat + 1);
        match first_pass(p, s0, ops, ops.len()) {
            Pass::Done(s1, tr) => second_pass(p, s1, tr, ops, tr.len()),
            other => other,
        }
    }
}

/// Whether the field element is written as a negative number.
pub open spec fn written_negative(v: nat) -> bool {
    v != 0 && decimal((crate::field::field_prime() - v) as nat).len() < decimal(v).len()
}

/// The values of the first `n` witnesses of an assignment.
pub open spec fn witness_values(p: Params, st: EncState, wm: Seq<(Witness, FieldValue)>, n: nat) -> EncState
    decreases n,
{
    if n == 0 {
        st
    } else {
        let s = witness_values(p, st, wm, (n - 1) as nat);
        let (w, v) = wm[n - 1];
        if p.use_int {
            if written_negative(v.value()) {
                with_assert(s, eq_text(wt(w), app_text("mod"@, seq![fv_text(v), p.prime])))
            } else {
                with_assert(s, eq_text(wt(w), fv_text(v)))
            }
        } else {
            with_assert(s, eq_text(wt(w), ff_literal(fv_text(v))))
        }
    }
}

} // verus!
