//! Where the encoding stops: strict mode refuses the constructs it does not
//! support, relaxed mode skips them; and a circuit that breaks an assumption
//! of the encoder stops it in either mode.

use vstd::prelude::*;

use crate::circuit::{BlackBoxFuncCall, BlockType, BrilligOutputs, Opcode};
use crate::encoding::{
    bitsum_ff, black_box, brillig_call, chain, declare_witnesses, empty_print_msg, find_trace, first_pass, init_trace,
    lemma_first_pass_stops, lemma_memory_ops_stop, lemma_second_pass_stops, max_index, memory_init, memory_op, memory_ops, memory_order_msg, opcode_step, print_func_name, room, second_pass, strictly, translate, verify_print, EncState, Outcome, Params,
    Pass, TraceSpec,
};

verus! {

/// An opcode that the encoding does not support: a call of another ACIR
/// function, a black-box function other than `AND` and `RANGE`, or an `AND`
/// with a constant input.
pub open spec fn unsupported(op: Opcode) -> bool {
    match op {
        Opcode::Call { .. } => true,
        Opcode::BlackBoxFuncCall(c) => match c {
            BlackBoxFuncCall::And { lhs, rhs, .. } => lhs is Constant || rhs is Constant,
            BlackBoxFuncCall::Range { .. } => false,
            _ => true,
        },
        _ => false,
    }
}

/// The state after the circuit's witnesses are declared, from which the
/// opcodes are encoded.
pub open spec fn declared(p: Params, st: EncState, cwi: u32) -> EncState {
    declare_witnesses(p, st, cwi as nat + 1)
}

pub proof fn lemma_chain_never_fails(st: EncState, bits: Seq<Seq<char>>, bound: nat, i: int, cur: Seq<char>)
    ensures
        !(chain(st, bits, bound, i, cur) is Failed),
    decreases i + 1,
{
    if i >= 0 {
        if crate::encoding::bit_of(bound, i as nat) == 1 {
            if room(st, 1) {
                let c = crate::text::witness_text(st.next);
                let s = crate::encoding::with_assert(
                    crate::encoding::fresh(st, crate::smt::Type::FField),
                    crate::encoding::eq_text(c, crate::smt::app_text("ff.mul"@, seq![cur, bits[i]])),
                );
                lemma_chain_never_fails(s, bits, bound, i - 1, c);
            }
        } else {
            let s = crate::encoding::with_assert(
                st,
                crate::encoding::eq_text(crate::smt::app_text("ff.mul"@, seq![bits[i], cur]), crate::encoding::ff_zero()),
            );
            lemma_chain_never_fails(s, bits, bound, i - 1, cur);
        }
    }
}

/// A memory operation is refused by nothing: it goes through or stops the encoding.
pub proof fn lemma_memory_op_never_fails(
    p: Params,
    st: EncState,
    b: u32,
    kind: crate::circuit::MemOpKind,
    index: crate::circuit::Expression,
    value: crate::circuit::Expression,
    len: nat,
    f: nat,
)
    ensures
        !(memory_op(p, st, b, kind, index, value, len, f).0 is Failed),
{
    if room(st, 1) {
        let idx = crate::text::witness_text(st.next);
        let s1 = if p.use_int {
            crate::encoding::with_assert(crate::encoding::fresh_int(st, p.prime), crate::encoding::eq_text(idx, crate::encoding::expr_int(index, p.prime)))
        } else {
            crate::encoding::with_assert(crate::encoding::fresh(st, crate::smt::Type::FField), crate::encoding::eq_text(idx, crate::encoding::expr_ff(index)))
        };
        let length = len as u32;
        if length > 1 {
            let bound = (length - 1) as nat;
            let n = crate::encoding::bit_len(bound);
            match bitsum_ff(s1, st.next, n) {
                Outcome::Done(s) => lemma_chain_never_fails(s, crate::encoding::bit_names(s1.next, n), bound, n - 2, crate::encoding::bit_names(s1.next, n)[n - 1]),
                _ => {},
            }
        }
    }
}

pub proof fn lemma_memory_ops_never_fail(p: Params, st: EncState, t: TraceSpec, ops: Seq<Opcode>, k: nat)
    ensures
        !(memory_ops(p, st, t, ops, k).0 is Failed),
    decreases k,
{
    if k > 0 {
        lemma_memory_ops_never_fail(p, st, t, ops, (k - 1) as nat);
        match memory_ops(p, st, t, ops, (k - 1) as nat) {
            (Outcome::Done(s), f) => {
                match ops[t.ops[k - 1] as int] {
                    Opcode::MemoryOp { block_id: _, op } => {
                        lemma_memory_op_never_fails(p, s, t.block_id, op.operation, op.index, op.value, t.init.len() as nat, f);
                    },
                    _ => {},
                }
            },
            _ => {},
        }
    }
}

/// In relaxed mode the first pass refuses nothing.
pub proof fn lemma_relaxed_first_pass(p: Params, st: EncState, ops: Seq<Opcode>, i: nat)
    requires
        !p.strict,
    ensures
        !(first_pass(p, st, ops, i) is Failed),
    decreases i,
{
    if i > 0 {
        lemma_relaxed_first_pass(p, st, ops, (i - 1) as nat);
    }
}

/// In relaxed mode the memory blocks refuse nothing.
pub proof fn lemma_relaxed_second_pass(p: Params, st: EncState, tr: Seq<TraceSpec>, ops: Seq<Opcode>, k: nat)
    requires
        !p.strict,
    ensures
        !(second_pass(p, st, tr, ops, k) is Failed),
    decreases k,
{
    if k > 0 {
        lemma_relaxed_second_pass(p, st, tr, ops, (k - 1) as nat);
        match second_pass(p, st, tr, ops, (k - 1) as nat) {
            Pass::Done(s, _) => {
                let t = tr[k - 1];
                match strictly(p.strict, memory_init(p, s, t), Seq::empty()) {
                    Pass::Done(s1, _) => lemma_memory_ops_never_fail(p, s1, t, ops, t.ops.len()),
                    _ => {},
                }
            },
            _ => {},
        }
    }
}

/// In relaxed mode the encoding of a circuit is never refused: it is done,
/// or stopped by an invalid circuit.
pub proof fn lemma_relaxed_never_refuses(p: Params, st: EncState, cwi: u32, ops: Seq<Opcode>)
    requires
        !p.strict,
    ensures
        !(translate(p, st, cwi, ops) is Failed),
{
    if (cwi as nat) < max_index() {
        let s0 = declare_witnesses(p, st, cwi as nat + 1);
        lemma_relaxed_first_pass(p, s0, ops, ops.len());
        match first_pass(p, s0, ops, ops.len()) {
            Pass::Done(s1, tr) => lemma_relaxed_second_pass(p, s1, tr, ops, tr.len()),
            _ => {},
        }
    }
}

/// Once the first pass stops at opcode `k`, the whole encoding stops there.
pub proof fn lemma_stop_at(p: Params, st: EncState, cwi: u32, ops: Seq<Opcode>, k: nat)
    requires
        (cwi as nat) < max_index(),
        k < ops.len(),
        first_pass(p, declared(p, st, cwi), ops, k) is Done,
        !(first_pass(p, declared(p, st, cwi), ops, k + 1) is Done),
    ensures
        translate(p, st, cwi, ops) == first_pass(p, declared(p, st, cwi), ops, k + 1),
{
    lemma_first_pass_stops(p, declared(p, st, cwi), ops, k + 1, ops.len());
}

/// In strict mode an unsupported opcode, reached by the first pass, refuses
/// the circuit.
pub proof fn lemma_strict_refuses(p: Params, st: EncState, cwi: u32, ops: Seq<Opcode>, k: nat)
    requires
        p.strict,
        (cwi as nat) < max_index(),
        k < ops.len(),
        ops.len() <= usize::MAX,
        unsupported(ops[k as int]),
        first_pass(p, declared(p, st, cwi), ops, k) is Done,
    ensures
        translate(p, st, cwi, ops) is Failed,
{
    let s0 = declared(p, st, cwi);
    assert(((k as int) as usize) as int == k);
    match first_pass(p, s0, ops, k) {
        Pass::Done(s, tr) => {
            assert(first_pass(p, s0, ops, k + 1) == opcode_step(p, s, tr, k as usize, ops[k as int]));
            match ops[k as int] {
                Opcode::BlackBoxFuncCall(c) => {
                    match c {
                        BlackBoxFuncCall::And { lhs, rhs, num_bits, output } => {
                            assert(black_box(p, s, c) is Failed);
                        },
                        _ => {},
                    }
                },
                _ => {},
            }
            lemma_stop_at(p, st, cwi, ops, k);
        },
        _ => {},
    }
}

/// A memory operation on a block that no earlier opcode initialises stops the
/// encoding, in either mode, with "MemInit opcode should have run before".
pub proof fn lemma_memory_before_init(p: Params, st: EncState, cwi: u32, ops: Seq<Opcode>, k: nat)
    requires
        (cwi as nat) < max_index(),
        k < ops.len(),
        ops.len() <= usize::MAX,
        ops[k as int] is MemoryOp,
        forall|j: int| 0 <= j < k ==> !(#[trigger] ops[j] matches Opcode::MemoryInit { block_id, .. }
            && block_id == ops[k as int]->MemoryOp_block_id),
        first_pass(p, declared(p, st, cwi), ops, k) is Done,
    ensures
        translate(p, st, cwi, ops) == Pass::Halted(memory_order_msg()),
{
    let s0 = declared(p, st, cwi);
    assert(((k as int) as usize) as int == k);
    lemma_traces_from_inits(p, s0, ops, k);
    match first_pass(p, s0, ops, k) {
        Pass::Done(s, tr) => {
            let b = ops[k as int]->MemoryOp_block_id;
            crate::invariants::lemma_find_trace(tr, b, 0);
            match find_trace(tr, b, 0) {
                Some(j) => {
                    let i = choose|i: int| 0 <= i < k && (#[trigger] ops[i] matches Opcode::MemoryInit { block_id, .. }
                        && block_id == tr[j as int].block_id);
                },
                None => {},
            }
            assert(first_pass(p, s0, ops, k + 1) == opcode_step(p, s, tr, k as usize, ops[k as int]));
            lemma_stop_at(p, st, cwi, ops, k);
        },
        _ => {},
    }
}

/// Each trace the first pass collects is of a block that an earlier opcode initialises.
pub proof fn lemma_traces_from_inits(p: Params, st: EncState, ops: Seq<Opcode>, i: nat)
    requires
        i <= ops.len(),
        ops.len() <= usize::MAX,
    ensures
        first_pass(p, st, ops, i) matches Pass::Done(s, tr) ==> forall|t: int|
            0 <= t < tr.len() ==> exists|j: int| 0 <= j < i && (#[trigger] ops[j] matches Opcode::MemoryInit { block_id, .. }
                && block_id == (#[trigger] tr[t]).block_id),
    decreases i,
{
    if i > 0 {
        lemma_traces_from_inits(p, st, ops, (i - 1) as nat);
        match first_pass(p, st, ops, (i - 1) as nat) {
            Pass::Done(s, tr) => {
                let k = (i - 1) as int;
                assert((k as usize) as int == k);
                assert(first_pass(p, st, ops, i) == opcode_step(p, s, tr, k as usize, ops[k]));
                match opcode_step(p, s, tr, k as usize, ops[k]) {
                    Pass::Done(s2, tr2) => {
                        assert forall|t: int| 0 <= t < tr2.len() implies exists|j: int| 0 <= j < i
                            && (#[trigger] ops[j] matches Opcode::MemoryInit { block_id, .. }
                            && block_id == (#[trigger] tr2[t]).block_id) by {
                            let from_before = !(ops[k] is MemoryInit) || (t < tr.len() && tr2[t].block_id == tr[t].block_id);
                            match ops[k] {
                                Opcode::MemoryOp { block_id, op: _ } => {
                                    crate::invariants::lemma_find_trace(tr, block_id, 0);
                                    assert(tr2.len() == tr.len());
                                    assert(tr2[t].block_id == tr[t].block_id);
                                },
                                Opcode::MemoryInit { block_id, init, block_type } => {
                                    crate::invariants::lemma_find_trace(tr, block_id, 0);
                                    if t < tr.len() && tr2[t].block_id == tr[t].block_id {
                                    } else {
                                        assert(tr2[t].block_id == block_id);
                                        assert(ops[k] matches Opcode::MemoryInit { block_id: b2, .. } && b2 == tr2[t].block_id);
                                    }
                                },
                                _ => {
                                    assert(tr2 == tr);
                                },
                            }
                            if from_before {
                                let j0 = choose|j: int| 0 <= j < k && (#[trigger] ops[j] matches Opcode::MemoryInit { block_id, .. }
                                    && block_id == (#[trigger] tr[t]).block_id);
                                assert(0 <= j0 < i);
                            }
                        }
                    },
                    _ => {},
                }
            },
            _ => {},
        }
    }
}

proof fn lemma_print_call_halts(
    p: Params,
    s: EncState,
    loc: usize,
    id: u32,
    inputs: Seq<crate::circuit::BrilligInputs>,
    outputs: Seq<BrilligOutputs>,
    predicate: crate::circuit::Expression,
)
    requires
        id < p.names.len(),
        p.names[id as int] == print_func_name(),
        outputs.len() == 1,
        outputs[0] matches BrilligOutputs::Array(ws) && ws@.len() == 0,
    ensures
        brillig_call(p, s, loc, id, inputs, outputs, predicate) == Outcome::Halted(empty_print_msg()),
{
    reveal_strlit("verify_assert");
    reveal_strlit("verify_assume");
    reveal_strlit("verify_print");
    assert(print_func_name()[7] == 'p');
    assert(crate::encoding::assert_func_name()[7] == 'a');
    assert(crate::encoding::assume_func_name()[7] == 'a');
}

/// A call of `verify_print` whose one output is an empty array.
pub open spec fn empty_print_call(op: Opcode, names: Seq<Seq<char>>) -> bool {
    match op {
        Opcode::BrilligCall { id, outputs, .. } => {
            &&& id < names.len()
            &&& names[id as int] == print_func_name()
            &&& outputs@.len() == 1
            &&& match outputs@[0] {
                BrilligOutputs::Array(ws) => ws@.len() == 0,
                _ => false,
            }
        },
        _ => false,
    }
}

/// A call of `verify_print` whose one output is an empty array stops the
/// encoding, in either mode, with "verify_print output array is empty".
pub proof fn lemma_empty_print(p: Params, st: EncState, cwi: u32, ops: Seq<Opcode>, k: nat)
    requires
        (cwi as nat) < max_index(),
        k < ops.len(),
        ops.len() <= usize::MAX,
        empty_print_call(ops[k as int], p.names),
        first_pass(p, declared(p, st, cwi), ops, k) is Done,
    ensures
        translate(p, st, cwi, ops) == Pass::Halted(empty_print_msg()),
{
    let s0 = declared(p, st, cwi);
    assert(((k as int) as usize) as int == k);
    match first_pass(p, s0, ops, k) {
        Pass::Done(s, tr) => {
            match ops[k as int] {
                Opcode::BrilligCall { id, inputs, outputs, predicate } => {
                    lemma_print_call_halts(p, s, k as usize, id, inputs@, outputs@, predicate);
                    assert(first_pass(p, s0, ops, k + 1) == opcode_step(p, s, tr, k as usize, ops[k as int]));
                },
                _ => {},
            }
            lemma_stop_at(p, st, cwi, ops, k);
        },
        _ => {},
    }
}

/// An operation on a memory block with no cells, reached by the second pass,
/// stops the encoding in either mode (the index cannot be bounded).
pub proof fn lemma_empty_block(p: Params, st: EncState, cwi: u32, ops: Seq<Opcode>, k: nat)
    requires
        (cwi as nat) < max_index(),
        first_pass(p, declared(p, st, cwi), ops, ops.len()) matches Pass::Done(s1, tr) && k < tr.len()
            && second_pass(p, s1, tr, ops, k) is Done && tr[k as int].block_type == BlockType::Memory
            && tr[k as int].init.len() == 0 && tr[k as int].ops.len() > 0
            && ops[tr[k as int].ops[0] as int] is MemoryOp,
    ensures
        translate(p, st, cwi, ops) is Halted,
{
    match first_pass(p, declared(p, st, cwi), ops, ops.len()) {
        Pass::Done(s1, tr) => {
            let t = tr[k as int];
            match second_pass(p, s1, tr, ops, k) {
                Pass::Done(s, _) => {
                    let s2 = crate::encoding::memory_cells(s, t.block_id, t.init, if p.use_int { crate::smt::Type::Int } else { crate::smt::Type::FField }, 0);
                    assert(memory_ops(p, s2, t, ops, 0) == (Outcome::Done(s2), 0nat));
                    assert(memory_ops(p, s2, t, ops, 1).0 is Halted);
                    lemma_memory_ops_stop(p, s2, t, ops, 1, t.ops.len());
                    lemma_second_pass_stops(p, s1, tr, ops, k + 1, tr.len());
                },
                _ => {},
            }
        },
        _ => {},
    }
}


/// Wherever an unsupported opcode stands, strict mode refuses the circuit,
/// unless the encoding stops on it first.
pub proof fn lemma_strict_refuses_anywhere(p: Params, st: EncState, cwi: u32, ops: Seq<Opcode>, k: nat)
    requires
        p.strict,
        k < ops.len(),
        ops.len() <= usize::MAX,
        unsupported(ops[k as int]),
    ensures
        translate(p, st, cwi, ops) is Failed || translate(p, st, cwi, ops) is Halted,
{
    if (cwi as nat) < max_index() {
        let s0 = declared(p, st, cwi);
        if first_pass(p, s0, ops, k) is Done {
            lemma_strict_refuses(p, st, cwi, ops, k);
        } else {
            lemma_first_pass_stops(p, s0, ops, k, ops.len());
        }
    }
}

/// An opcode that stops the encoding once the first pass reaches it stops it
/// wherever it stands: the encoding is stopped by it or by an earlier opcode,
/// or, in strict mode only, refused before it.
pub proof fn lemma_stop_anywhere(p: Params, st: EncState, cwi: u32, ops: Seq<Opcode>, k: nat)
    requires
        k < ops.len(),
        (cwi as nat) < max_index() && first_pass(p, declared(p, st, cwi), ops, k) is Done ==> translate(p, st, cwi, ops) is Halted,
    ensures
        translate(p, st, cwi, ops) is Halted || (p.strict && translate(p, st, cwi, ops) is Failed),
{
    if (cwi as nat) < max_index() {
        let s0 = declared(p, st, cwi);
        if !(first_pass(p, s0, ops, k) is Done) {
            lemma_first_pass_stops(p, s0, ops, k, ops.len());
            if !p.strict {
                lemma_relaxed_first_pass(p, s0, ops, k);
            }
        }
    }
}

/// The block a memory initialisation is of.
pub open spec fn init_block(op: Opcode) -> u32 {
    match op {
        Opcode::MemoryInit { block_id, .. } => block_id,
        _ => 0,
    }
}

/// The type of the block a memory initialisation is of.
pub open spec fn init_type(op: Opcode) -> BlockType {
    match op {
        Opcode::MemoryInit { block_type, .. } => block_type,
        _ => BlockType::Memory,
    }
}

/// Opcode `j` initialises a block that no later opcode before `i` initialises again.
pub open spec fn last_init_before(ops: Seq<Opcode>, j: int, i: int) -> bool {
    &&& ops[j] is MemoryInit
    &&& forall|j2: int| j < j2 < i ==> !((#[trigger] ops[j2]) is MemoryInit && init_block(ops[j2]) == init_block(ops[j]))
}

/// In strict mode a trace of a block that is not plain memory refuses the
/// circuit, unless an earlier block stops the encoding.
pub proof fn lemma_strict_second_pass(p: Params, s1: EncState, tr: Seq<TraceSpec>, ops: Seq<Opcode>, t: nat)
    requires
        p.strict,
        t < tr.len(),
        tr[t as int].block_type != BlockType::Memory,
    ensures
        second_pass(p, s1, tr, ops, tr.len()) is Failed || second_pass(p, s1, tr, ops, tr.len()) is Halted,
{
    if second_pass(p, s1, tr, ops, t) is Done {
        lemma_second_pass_stops(p, s1, tr, ops, t + 1, tr.len());
    } else {
        lemma_second_pass_stops(p, s1, tr, ops, t, tr.len());
    }
}

/// In strict mode a circuit whose last initialisation of some block is not
/// of plain memory is refused, unless the encoding stops on it first.
pub proof fn lemma_strict_refuses_init(p: Params, st: EncState, cwi: u32, ops: Seq<Opcode>, j: nat)
    requires
        p.strict,
        j < ops.len(),
        ops.len() <= usize::MAX,
        last_init_before(ops, j as int, ops.len() as int),
        init_type(ops[j as int]) != BlockType::Memory,
    ensures
        translate(p, st, cwi, ops) is Failed || translate(p, st, cwi, ops) is Halted,
{
    if (cwi as nat) < max_index() {
        let s0 = declared(p, st, cwi);
        lemma_last_init_trace(p, s0, ops, ops.len());
        match first_pass(p, s0, ops, ops.len()) {
            Pass::Done(s1, tr) => {
                assert(traced(tr, ops, j as int, ops.len() as int));
                crate::invariants::lemma_find_trace(tr, init_block(ops[j as int]), 0);
                let t = find_trace(tr, init_block(ops[j as int]), 0)->0;
                lemma_strict_second_pass(p, s1, tr, ops, t as nat);
            },
            _ => {},
        }
    }
}

/// The cells a memory initialisation gives its block.
pub open spec fn init_cells(op: Opcode) -> Seq<crate::circuit::Witness> {
    match op {
        Opcode::MemoryInit { init, .. } => init@,
        _ => Seq::empty(),
    }
}

/// The positions of the operations on block `b` strictly between opcode `j`
/// and opcode `i`, in order.
pub open spec fn ops_on(ops: Seq<Opcode>, b: u32, j: int, i: int) -> Seq<usize>
    decreases i,
{
    if i <= j + 1 || i <= 0 {
        Seq::empty()
    } else {
        let prev = ops_on(ops, b, j, i - 1);
        if ops[i - 1] matches Opcode::MemoryOp { block_id, .. } && block_id == b {
            prev.push((i - 1) as usize)
        } else {
            prev
        }
    }
}

/// Every position `ops_on` lists is of an operation on the block, and an
/// operation on the block in the range is listed.
proof fn lemma_ops_on(ops: Seq<Opcode>, b: u32, j: int, i: int, m: int)
    requires
        0 <= j,
        i <= ops.len(),
        ops.len() <= usize::MAX,
    ensures
        forall|q: int| 0 <= q < ops_on(ops, b, j, i).len() ==> {
            let x = #[trigger] ops_on(ops, b, j, i)[q];
            &&& j < x < i
            &&& ops[x as int] matches Opcode::MemoryOp { block_id, .. } && block_id == b
        },
        j < m < i && (ops[m] matches Opcode::MemoryOp { block_id, .. } && block_id == b) ==> ops_on(ops, b, j, i).len() > 0,
    decreases i,
{
    if !(i <= j + 1 || i <= 0) {
        lemma_ops_on(ops, b, j, i - 1, m);
        let prev = ops_on(ops, b, j, i - 1);
        assert(((i - 1) as usize) as int == i - 1);
        if ops[i - 1] matches Opcode::MemoryOp { block_id, .. } && block_id == b {
            assert forall|q: int| 0 <= q < ops_on(ops, b, j, i).len() implies {
                let x = #[trigger] ops_on(ops, b, j, i)[q];
                &&& j < x < i
                &&& ops[x as int] matches Opcode::MemoryOp { block_id, .. } && block_id == b
            } by {
                if q < prev.len() {
                    assert(ops_on(ops, b, j, i)[q] == prev[q]);
                }
            }
        }
    }
}

/// The trace that the first pass over the opcodes before `i` keeps of the
/// block that opcode `j` initialises: the first of that block, with the type
/// and cells of that initialisation and the operations on the block after it.
pub open spec fn traced(tr: Seq<TraceSpec>, ops: Seq<Opcode>, j: int, i: int) -> bool {
    let b = init_block(ops[j]);
    find_trace(tr, b, 0) matches Some(t) && tr[t as int] == TraceSpec {
        block_id: b,
        block_type: init_type(ops[j]),
        init: init_cells(ops[j]),
        ops: ops_on(ops, b, j, i),
    }
}

/// Finding a block's trace depends only on the blocks of the traces, and a
/// trace appended after the last one is found when no earlier one is.
proof fn lemma_find_trace_same(tr: Seq<TraceSpec>, tr2: Seq<TraceSpec>, b: u32, i: nat)
    requires
        i <= tr.len() <= tr2.len(),
        forall|t: int| 0 <= t < tr.len() ==> (#[trigger] tr2[t]).block_id == tr[t].block_id,
        find_trace(tr, b, i) is Some || (tr.len() < tr2.len() && tr2[tr.len() as int].block_id == b),
    ensures
        find_trace(tr2, b, i) == match find_trace(tr, b, i) {
            Some(x) => Some(x),
            None => Some(tr.len()),
        },
    decreases tr.len() - i,
{
    if i < tr.len() && tr[i as int].block_id != b {
        lemma_find_trace_same(tr, tr2, b, i + 1);
    }
}

/// Each block's last initialisation before opcode `i` is traced, as `traced` says.
pub proof fn lemma_last_init_trace(p: Params, st: EncState, ops: Seq<Opcode>, i: nat)
    requires
        i <= ops.len(),
        ops.len() <= usize::MAX,
    ensures
        first_pass(p, st, ops, i) matches Pass::Done(s, tr) ==> forall|j: int|
            0 <= j < i && #[trigger] last_init_before(ops, j, i as int) ==> traced(tr, ops, j, i as int),
    decreases i,
{
    if i > 0 {
        let k = (i - 1) as int;
        lemma_last_init_trace(p, st, ops, k as nat);
        match first_pass(p, st, ops, k as nat) {
            Pass::Done(s, tr) => {
                assert((k as usize) as int == k);
                assert(first_pass(p, st, ops, i) == opcode_step(p, s, tr, k as usize, ops[k]));
                match opcode_step(p, s, tr, k as usize, ops[k]) {
                    Pass::Done(s2, tr2) => {
                        assert forall|j: int| 0 <= j < i && #[trigger] last_init_before(ops, j, i as int) implies traced(
                            tr2,
                            ops,
                            j,
                            i as int,
                        ) by {
                            let b = init_block(ops[j]);
                            if j == k {
                                match ops[k] {
                                    Opcode::MemoryInit { block_id, init, block_type } => {
                                        let nt = TraceSpec { block_id, block_type, init: init@, ops: Seq::empty() };
                                        assert(ops_on(ops, b, j, i as int) =~= Seq::<usize>::empty());
                                        crate::invariants::lemma_find_trace(tr, block_id, 0);
                                        match find_trace(tr, block_id, 0) {
                                            Some(jj) => {
                                                assert(tr2 == tr.update(jj as int, nt));
                                                lemma_find_trace_same(tr, tr2, b, 0);
                                            },
                                            None => {
                                                assert(tr2 == tr.push(nt));
                                                lemma_find_trace_same(tr, tr2, b, 0);
                                            },
                                        }
                                    },
                                    _ => {},
                                }
                            } else {
                                assert(last_init_before(ops, j, k));
                                assert(traced(tr, ops, j, k));
                                let t = find_trace(tr, b, 0)->0;
                                crate::invariants::lemma_find_trace(tr, b, 0);
                                match ops[k] {
                                    Opcode::MemoryOp { block_id, op: _ } => {
                                        crate::invariants::lemma_find_trace(tr, block_id, 0);
                                        let jj = find_trace(tr, block_id, 0)->0;
                                        lemma_find_trace_same(tr, tr2, b, 0);
                                        if block_id == b {
                                            assert(jj == t);
                                            assert(tr2[t as int].ops == ops_on(ops, b, j, i as int));
                                        } else {
                                            assert(jj != t);
                                            assert(tr2[t as int] == tr[t as int]);
                                            assert(ops_on(ops, b, j, i as int) == ops_on(ops, b, j, k));
                                        }
                                    },
                                    Opcode::MemoryInit { block_id, init, block_type } => {
                                        assert(block_id != b);
                                        let nt = TraceSpec { block_id, block_type, init: init@, ops: Seq::empty() };
                                        crate::invariants::lemma_find_trace(tr, block_id, 0);
                                        match find_trace(tr, block_id, 0) {
                                            Some(jj) => {
                                                assert(tr2 == tr.update(jj as int, nt));
                                            },
                                            None => {
                                                assert(tr2 == tr.push(nt));
                                            },
                                        }
                                        lemma_find_trace_same(tr, tr2, b, 0);
                                        assert(tr2[t as int] == tr[t as int]);
                                        assert(ops_on(ops, b, j, i as int) == ops_on(ops, b, j, k));
                                    },
                                    _ => {
                                        assert(tr2 == tr);
                                        assert(ops_on(ops, b, j, i as int) == ops_on(ops, b, j, k));
                                    },
                                }
                            }
                        }
                    },
                    _ => {},
                }
            },
            _ => {},
        }
    }
}

/// A circuit in which the last initialisation of a block of plain memory
/// gives it no cells, and an operation on the block follows it, never
/// encodes: it stops on that block or earlier, or, in strict mode only, is
/// refused.
pub proof fn lemma_empty_block_anywhere(p: Params, st: EncState, cwi: u32, ops: Seq<Opcode>, j: nat, m: nat)
    requires
        j < m < ops.len(),
        ops.len() <= usize::MAX,
        last_init_before(ops, j as int, ops.len() as int),
        init_type(ops[j as int]) == BlockType::Memory,
        init_cells(ops[j as int]).len() == 0,
        ops[m as int] matches Opcode::MemoryOp { block_id, .. } && block_id == init_block(ops[j as int]),
    ensures
        translate(p, st, cwi, ops) is Halted || (p.strict && translate(p, st, cwi, ops) is Failed),
{
    if (cwi as nat) < max_index() {
        let s0 = declared(p, st, cwi);
        let b = init_block(ops[j as int]);
        lemma_last_init_trace(p, s0, ops, ops.len());
        if !p.strict {
            lemma_relaxed_first_pass(p, s0, ops, ops.len());
        }
        match first_pass(p, s0, ops, ops.len()) {
            Pass::Done(s1, tr) => {
                assert(traced(tr, ops, j as int, ops.len() as int));
                crate::invariants::lemma_find_trace(tr, b, 0);
                let t = find_trace(tr, b, 0)->0;
                lemma_ops_on(ops, b, j as int, ops.len() as int, m as int);
                assert(tr[t as int].ops.len() > 0);
                assert(ops[tr[t as int].ops[0] as int] is MemoryOp);
                if second_pass(p, s1, tr, ops, t) is Done {
                    lemma_empty_block(p, st, cwi, ops, t);
                } else {
                    lemma_second_pass_stops(p, s1, tr, ops, t, tr.len());
                    if !p.strict {
                        lemma_relaxed_second_pass(p, s1, tr, ops, t);
                    }
                }
            },
            _ => {},
        }
    }
}

} // verus!
