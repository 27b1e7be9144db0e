//! What every state of the encoding keeps: fresh witnesses stay below the
//! largest index, and the verification conditions are numbered in order,
//! each from a call opcode of the circuit.

use vstd::prelude::*;

use crate::circuit::{BlackBoxFuncCall, BrilligInputs, BrilligOutputs, Expression, FunctionInput, Opcode, Witness};
use crate::encoding::{
    bit_len, bit_names, bit_of, bitsum_ff, bitsum_int, black_box, bools_ff, bools_int, brillig_call, chain,
    declare_witnesses,
    eq_text, expr_ff, expr_int, ff_one, ff_zero, find_trace, first_pass, fresh, fresh_int, lemma_bools_next,
    max_index, memory_cells, memory_init, memory_op, memory_ops, opcode_step, pow_terms, range_inclusive_ff,
    range_inclusive_int, read_cells, room, second_pass, strictly, sum_text, translate, verify_assert_inputs,
    verify_assume_inputs, verify_condition, verify_print, with_assert, write_cells, wt, EncState, Outcome,
    Params, Pass, TraceSpec,
};
use crate::text::actlit_text;

verus! {

/// `b` follows `a` without a new verification condition or witness to print,
/// and has not run out of fresh witnesses.
pub open spec fn keeps(a: EncState, b: EncState) -> bool {
    &&& b.ver_conds == a.ver_conds
    &&& b.print_locs == a.print_locs
    &&& a.next <= b.next
    &&& b.next <= max_index()
}

/// Whatever state an outcome carries follows `a` as `keeps` says.
pub open spec fn outcome_keeps(a: EncState, o: Outcome) -> bool {
    match o {
        Outcome::Done(b) => keeps(a, b),
        Outcome::Failed(b, _) => keeps(a, b),
        Outcome::Halted(_) => true,
    }
}

/// The state of a finished pass follows `a` as `keeps` says.
pub open spec fn pass_keeps(a: EncState, p: Pass) -> bool {
    match p {
        Pass::Done(b, _) => keeps(a, b),
        _ => true,
    }
}

/// The verification conditions are numbered in order: the `i`-th is named
/// `actlit_<i>`; each, and each witness to print, comes from a call opcode
/// of `ops`; and there are no more conditions than fresh witnesses.
pub open spec fn numbered(st: EncState, ops: Seq<Opcode>) -> bool {
    &&& st.next <= max_index()
    &&& st.ver_conds.len() <= st.next
    &&& forall|i: int|
        0 <= i < st.ver_conds.len() ==> {
            &&& (#[trigger] st.ver_conds[i]).0 == actlit_text(i as nat)
            &&& st.ver_conds[i].1 < ops.len()
            &&& ops[st.ver_conds[i].1 as int] is BrilligCall
        }
    &&& forall|i: int|
        0 <= i < st.print_locs.len() ==> {
            &&& (#[trigger] st.print_locs[i]).1 < ops.len()
            &&& ops[st.print_locs[i].1 as int] is BrilligCall
        }
}

/// No two traces are of the same block.
pub open spec fn ids_distinct(tr: Seq<TraceSpec>) -> bool {
    forall|i: int, j: int| 0 <= i < j < tr.len() ==> (#[trigger] tr[i]).block_id != (#[trigger] tr[j]).block_id
}

/// The state of a finished pass is numbered, and its traces list opcodes of
/// `ops`, one trace per block.
#[verifier::opaque]
pub open spec fn pass_numbered(p: Pass, ops: Seq<Opcode>) -> bool {
    match p {
        Pass::Done(b, tr) => numbered(b, ops) && traces_in(tr, ops) && ids_distinct(tr),
        _ => true,
    }
}

pub proof fn lemma_keeps_numbered(a: EncState, b: EncState, ops: Seq<Opcode>)
    requires
        numbered(a, ops),
        keeps(a, b),
    ensures
        numbered(b, ops),
{
}

pub proof fn lemma_bools(st: EncState, n: nat)
    requires
        room(st, n),
    ensures
        keeps(st, bools_ff(st, n)),
        keeps(st, bools_int(st, n)),
{
    lemma_bools_next(st, n);
}

pub proof fn lemma_bitsum(st: EncState, w: nat, n: nat)
    requires
        st.next <= max_index(),
    ensures
        outcome_keeps(st, bitsum_ff(st, w, n)),
        outcome_keeps(st, bitsum_int(st, w, n)),
{
    if room(st, n) {
        lemma_bools(st, n);
    }
}

pub proof fn lemma_black_box(p: Params, st: EncState, call: BlackBoxFuncCall)
    requires
        st.next <= max_index(),
    ensures
        outcome_keeps(st, black_box(p, st, call)),
{
    match call {
        BlackBoxFuncCall::And { lhs, rhs, num_bits, output } => {
            match (lhs, rhs) {
                (FunctionInput::Witness(l), FunctionInput::Witness(r)) => {
                    let n = num_bits as nat;
                    if num_bits != 0 && room(st, 2 * n) {
                        lemma_bools_next(st, n);
                        let s1i = with_assert(bools_int(st, n), eq_text(wt(l), sum_text("+"@, pow_terms(bit_names(st.next, n)))));
                        lemma_bools_next(s1i, n);
                        let s1f = with_assert(bools_ff(st, n), eq_text(wt(l), sum_text("ff.bitsum"@, bit_names(st.next, n))));
                        lemma_bools_next(s1f, n);
                    }
                },
                _ => {},
            }
        },
        BlackBoxFuncCall::Range { input, num_bits } => {
            lemma_bitsum(st, 0, num_bits as nat);
            match input {
                FunctionInput::Witness(w) => lemma_bitsum(st, w.0 as nat, num_bits as nat),
                _ => {},
            }
        },
        _ => {},
    }
}

pub proof fn lemma_verify_condition(p: Params, st: EncState, loc: usize, e: Expression, ops: Seq<Opcode>)
    requires
        numbered(st, ops),
        room(st, 1),
        loc < ops.len(),
        ops[loc as int] is BrilligCall,
    ensures
        numbered(verify_condition(p, st, loc, e), ops),
{
    let r = verify_condition(p, st, loc, e);
    assert((st.ver_conds.len() as u32) as nat == st.ver_conds.len());
    assert(r.ver_conds == st.ver_conds.push((actlit_text(st.ver_conds.len()), loc)));
    assert forall|i: int| 0 <= i < r.ver_conds.len() implies {
        &&& (#[trigger] r.ver_conds[i]).0 == actlit_text(i as nat)
        &&& r.ver_conds[i].1 < ops.len()
        &&& ops[r.ver_conds[i].1 as int] is BrilligCall
    } by {
        if i < st.ver_conds.len() {
            assert(r.ver_conds[i] == st.ver_conds[i]);
        }
    }
}

pub proof fn lemma_verify_assert_inputs(
    p: Params,
    st: EncState,
    loc: usize,
    inputs: Seq<BrilligInputs>,
    pred_one: bool,
    i: nat,
    ops: Seq<Opcode>,
)
    requires
        numbered(st, ops),
        loc < ops.len(),
        ops[loc as int] is BrilligCall,
    ensures
        match verify_assert_inputs(p, st, loc, inputs, pred_one, i) {
            Outcome::Done(b) => numbered(b, ops),
            Outcome::Failed(b, _) => numbered(b, ops),
            Outcome::Halted(_) => true,
        },
    decreases inputs.len() - i,
{
    if i < inputs.len() {
        match inputs[i as int] {
            BrilligInputs::Single(e) => {
                if pred_one && room(st, 1) {
                    lemma_verify_condition(p, st, loc, e, ops);
                    lemma_verify_assert_inputs(p, verify_condition(p, st, loc, e), loc, inputs, pred_one, i + 1, ops);
                }
            },
            _ => {},
        }
    }
}

pub proof fn lemma_verify_assume_inputs(p: Params, st: EncState, inputs: Seq<BrilligInputs>, pred_one: bool, i: nat)
    requires
        st.next <= max_index(),
    ensures
        outcome_keeps(st, verify_assume_inputs(p, st, inputs, pred_one, i)),
    decreases inputs.len() - i,
{
    if i < inputs.len() {
        match inputs[i as int] {
            BrilligInputs::Single(e) => {
                if pred_one {
                    let s = if p.use_int {
                        with_assert(st, eq_text(expr_int(e, p.prime), "1"@))
                    } else {
                        with_assert(st, eq_text(expr_ff(e), ff_one()))
                    };
                    lemma_verify_assume_inputs(p, s, inputs, pred_one, i + 1);
                }
            },
            _ => {},
        }
    }
}

pub proof fn lemma_brillig_call(
    p: Params,
    st: EncState,
    loc: usize,
    id: u32,
    inputs: Seq<BrilligInputs>,
    outputs: Seq<BrilligOutputs>,
    predicate: Expression,
    ops: Seq<Opcode>,
)
    requires
        numbered(st, ops),
        loc < ops.len(),
        ops[loc as int] is BrilligCall,
    ensures
        match brillig_call(p, st, loc, id, inputs, outputs, predicate) {
            Outcome::Done(b) => numbered(b, ops),
            Outcome::Failed(b, _) => numbered(b, ops),
            Outcome::Halted(_) => true,
        },
{
    lemma_verify_assert_inputs(p, st, loc, inputs, predicate.spec_is_one(), 0, ops);
    lemma_verify_assume_inputs(p, st, inputs, predicate.spec_is_one(), 0);
    match verify_assume_inputs(p, st, inputs, predicate.spec_is_one(), 0) {
        Outcome::Done(b) => lemma_keeps_numbered(st, b, ops),
        Outcome::Failed(b, _) => lemma_keeps_numbered(st, b, ops),
        _ => {},
    }
    match verify_print(st, loc, outputs) {
        Outcome::Done(b) => {
            assert forall|i: int| 0 <= i < b.print_locs.len() implies {
                &&& (#[trigger] b.print_locs[i]).1 < ops.len()
                &&& ops[b.print_locs[i].1 as int] is BrilligCall
            } by {
                if i < st.print_locs.len() {
                    assert(b.print_locs[i] == st.print_locs[i]);
                }
            }
        },
        _ => {},
    }
}

pub proof fn lemma_opcode_step(p: Params, st: EncState, tr: Seq<TraceSpec>, loc: usize, ops: Seq<Opcode>)
    requires
        numbered(st, ops),
        traces_in(tr, ops),
        ids_distinct(tr),
        loc < ops.len(),
    ensures
        pass_numbered(opcode_step(p, st, tr, loc, ops[loc as int]), ops),
{
    reveal(pass_numbered);
    match ops[loc as int] {
        Opcode::BlackBoxFuncCall(c) => {
            lemma_black_box(p, st, c);
            match black_box(p, st, c) {
                Outcome::Done(b) => lemma_keeps_numbered(st, b, ops),
                Outcome::Failed(b, _) => lemma_keeps_numbered(st, b, ops),
                _ => {},
            }
        },
        Opcode::BrilligCall { id, inputs, outputs, predicate } => {
            lemma_brillig_call(p, st, loc, id, inputs@, outputs@, predicate, ops);
        },
        Opcode::MemoryOp { block_id, op: _ } => {
            match find_trace(tr, block_id, 0) {
                Some(j) => {
                    lemma_find_trace(tr, block_id, 0);
                    let t2 = tr.update(j as int, TraceSpec { ops: tr[j as int].ops.push(loc), ..tr[j as int] });
                    assert forall|a: int, b: int| 0 <= a < b < t2.len() implies (#[trigger] t2[a]).block_id != (#[trigger] t2[b]).block_id by {
                        assert(t2[a].block_id == tr[a].block_id);
                        assert(t2[b].block_id == tr[b].block_id);
                    }
                    assert forall|a: int, b: int| 0 <= a < t2.len() && 0 <= b < t2[a].ops.len() implies (#[trigger] t2[a].ops[b]) < ops.len() by {
                        if a != j && b < tr[a].ops.len() {
                            assert(t2[a].ops[b] == tr[a].ops[b]);
                        } else if b < tr[a].ops.len() {
                            assert(t2[a].ops[b] == tr[a].ops[b]);
                        }
                    }
                },
                None => {},
            }
        },
        Opcode::MemoryInit { block_id, init, block_type } => {
            let t = TraceSpec { block_id, block_type, init: init@, ops: Seq::empty() };
            match find_trace(tr, block_id, 0) {
                Some(j) => {
                    lemma_find_trace(tr, block_id, 0);
                    let t2 = tr.update(j as int, t);
                    assert forall|a: int, b: int| 0 <= a < b < t2.len() implies (#[trigger] t2[a]).block_id != (#[trigger] t2[b]).block_id by {
                        assert(t2[a].block_id == tr[a].block_id);
                        assert(t2[b].block_id == tr[b].block_id);
                    }
                    assert forall|a: int, b: int| 0 <= a < t2.len() && 0 <= b < t2[a].ops.len() implies (#[trigger] t2[a].ops[b]) < ops.len() by {
                        assert(a != j);
                        assert(t2[a] == tr[a]);
                    }
                },
                None => {
                    let t2 = tr.push(t);
                    lemma_find_trace_none(tr, block_id, 0);
                    assert forall|a: int, b: int| 0 <= a < b < t2.len() implies (#[trigger] t2[a]).block_id != (#[trigger] t2[b]).block_id by {
                        assert(t2[a] == tr[a]);
                        if b < tr.len() {
                            assert(t2[b] == tr[b]);
                        }
                    }
                    assert forall|a: int, b: int| 0 <= a < t2.len() && 0 <= b < t2[a].ops.len() implies (#[trigger] t2[a].ops[b]) < ops.len() by {
                        assert(a < tr.len());
                        assert(t2[a] == tr[a]);
                    }
                },
            }
        },
        _ => {},
    }
}

/// No trace from position `i` on is of a block that is not found.
pub proof fn lemma_find_trace_none(tr: Seq<TraceSpec>, b: u32, i: nat)
    ensures
        find_trace(tr, b, i) is None ==> forall|j: int| i <= j < tr.len() ==> (#[trigger] tr[j]).block_id != b,
    decreases tr.len() - i,
{
    if i < tr.len() && tr[i as int].block_id != b {
        lemma_find_trace_none(tr, b, i + 1);
    }
}

pub proof fn lemma_find_trace(tr: Seq<TraceSpec>, b: u32, i: nat)
    ensures
        find_trace(tr, b, i) matches Some(j) ==> i <= j < tr.len() && tr[j as int].block_id == b,
    decreases tr.len() - i,
{
    if i < tr.len() && tr[i as int].block_id != b {
        lemma_find_trace(tr, b, i + 1);
    }
}

pub proof fn lemma_first_pass(p: Params, st: EncState, ops: Seq<Opcode>, i: nat)
    requires
        numbered(st, ops),
        i <= ops.len(),
        ops.len() <= usize::MAX,
    ensures
        pass_numbered(first_pass(p, st, ops, i), ops),
    decreases i,
{
    if i == 0 {
        assert(traces_in(Seq::empty(), ops));
        assert(ids_distinct(Seq::<TraceSpec>::empty()));
        reveal(pass_numbered);
    } else {
        lemma_first_pass(p, st, ops, (i - 1) as nat);
        let prev = first_pass(p, st, ops, (i - 1) as nat);
        match prev {
            Pass::Done(s, tr) => {
                assert(numbered(s, ops) && traces_in(tr, ops) && ids_distinct(tr)) by {
                    reveal(pass_numbered);
                }
                assert(((i - 1) as usize) as int == i - 1);
                lemma_opcode_step(p, s, tr, (i - 1) as usize, ops);
                assert(first_pass(p, st, ops, i) == opcode_step(p, s, tr, (i - 1) as usize, ops[i - 1]));
            },
            _ => {
                assert(first_pass(p, st, ops, i) == prev);
            },
        }
    }
}

pub proof fn lemma_chain(st: EncState, bits: Seq<Seq<char>>, bound: nat, i: int, cur: Seq<char>)
    requires
        st.next <= max_index(),
    ensures
        outcome_keeps(st, chain(st, bits, bound, i, cur)),
    decreases i + 1,
{
    if i >= 0 {
        if bit_of(bound, i as nat) == 1 {
            if room(st, 1) {
                let c = crate::text::witness_text(st.next);
                let s = with_assert(fresh(st, crate::smt::Type::FField), eq_text(c, crate::smt::app_text("ff.mul"@, seq![cur, bits[i]])));
                lemma_chain(s, bits, bound, i - 1, c);
            }
        } else {
            let s = with_assert(st, eq_text(crate::smt::app_text("ff.mul"@, seq![bits[i], cur]), ff_zero()));
            lemma_chain(s, bits, bound, i - 1, cur);
        }
    }
}

pub proof fn lemma_range_inclusive(st: EncState, w: nat, length: u32)
    requires
        st.next <= max_index(),
    ensures
        outcome_keeps(st, range_inclusive_ff(st, w, length)),
        outcome_keeps(st, range_inclusive_int(st, w, length)),
{
    if length > 1 {
        let bound = (length - 1) as nat;
        let n = bit_len(bound);
        lemma_bitsum(st, w, n);
        match bitsum_ff(st, w, n) {
            Outcome::Done(s) => lemma_chain(s, bit_names(st.next, n), bound, n - 2, bit_names(st.next, n)[n - 1]),
            _ => {},
        }
    }
}

pub proof fn lemma_cells(st: EncState, b: u32, idx: Seq<char>, val: Seq<char>, f: nat, use_int: bool, n: nat)
    requires
        st.next <= max_index(),
    ensures
        keeps(st, read_cells(st, b, idx, val, f, use_int, n)),
        keeps(st, write_cells(st, b, idx, val, f, use_int, n)),
    decreases n,
{
    if n > 0 {
        lemma_cells(st, b, idx, val, f, use_int, (n - 1) as nat);
    }
}

pub proof fn lemma_memory_op(
    p: Params,
    st: EncState,
    b: u32,
    kind: crate::circuit::MemOpKind,
    index: Expression,
    value: Expression,
    len: nat,
    f: nat,
)
    requires
        st.next <= max_index(),
    ensures
        outcome_keeps(st, memory_op(p, st, b, kind, index, value, len, f).0),
{
    if room(st, 1) {
        let idx = crate::text::witness_text(st.next);
        let s1 = if p.use_int {
            with_assert(fresh_int(st, p.prime), eq_text(idx, expr_int(index, p.prime)))
        } else {
            with_assert(fresh(st, crate::smt::Type::FField), eq_text(idx, expr_ff(index)))
        };
        lemma_range_inclusive(s1, st.next, len as u32);
        let r = if p.use_int {
            range_inclusive_int(s1, st.next, len as u32)
        } else {
            range_inclusive_ff(s1, st.next, len as u32)
        };
        match r {
            Outcome::Done(s2) => {
                if room(s2, 1) {
                    let val = crate::text::witness_text(s2.next);
                    let s3 = if p.use_int {
                        with_assert(fresh_int(s2, p.prime), eq_text(val, expr_int(value, p.prime)))
                    } else {
                        with_assert(fresh(s2, crate::smt::Type::FField), eq_text(val, expr_ff(value)))
                    };
                    lemma_cells(s3, b, idx, val, f, p.use_int, len);
                }
            },
            _ => {},
        }
    }
}

pub proof fn lemma_memory_ops(p: Params, st: EncState, t: TraceSpec, ops: Seq<Opcode>, k: nat)
    requires
        st.next <= max_index(),
        forall|j: int| 0 <= j < t.ops.len() ==> (#[trigger] t.ops[j]) < ops.len(),
        k <= t.ops.len(),
    ensures
        outcome_keeps(st, memory_ops(p, st, t, ops, k).0),
    decreases k,
{
    if k > 0 {
        lemma_memory_ops(p, st, t, ops, (k - 1) as nat);
        match memory_ops(p, st, t, ops, (k - 1) as nat) {
            (Outcome::Done(s), f) => {
                let loc = t.ops[k - 1];
                match ops[loc as int] {
                    Opcode::MemoryOp { block_id: _, op } => {
                        lemma_memory_op(p, s, t.block_id, op.operation, op.index, op.value, t.init.len() as nat, f);
                    },
                    _ => {},
                }
            },
            _ => {},
        }
    }
}

pub proof fn lemma_memory_cells(st: EncState, b: u32, init: Seq<Witness>, ty: crate::smt::Type, n: nat)
    requires
        st.next <= max_index(),
    ensures
        keeps(st, memory_cells(st, b, init, ty, n)),
    decreases n,
{
    if n > 0 {
        lemma_memory_cells(st, b, init, ty, (n - 1) as nat);
    }
}

/// The locations that a trace lists are opcodes of the circuit.
pub open spec fn traces_in(tr: Seq<TraceSpec>, ops: Seq<Opcode>) -> bool {
    forall|i: int, j: int|
        0 <= i < tr.len() && 0 <= j < tr[i].ops.len() ==> (#[trigger] tr[i].ops[j]) < ops.len()
}

pub proof fn lemma_second_pass(p: Params, st: EncState, tr: Seq<TraceSpec>, ops: Seq<Opcode>, k: nat)
    requires
        st.next <= max_index(),
        traces_in(tr, ops),
        k <= tr.len(),
    ensures
        pass_keeps(st, second_pass(p, st, tr, ops, k)),
    decreases k,
{
    if k > 0 {
        lemma_second_pass(p, st, tr, ops, (k - 1) as nat);
        match second_pass(p, st, tr, ops, (k - 1) as nat) {
            Pass::Done(s, _) => {
                let t = tr[k - 1];
                assert forall|j: int| 0 <= j < t.ops.len() implies (#[trigger] t.ops[j]) < ops.len() by {
                    assert(tr[k - 1].ops[j] < ops.len());
                }
                let ty = if p.use_int { crate::smt::Type::Int } else { crate::smt::Type::FField };
                lemma_memory_cells(s, t.block_id, t.init, ty, t.init.len());
                match strictly(p.strict, memory_init(p, s, t), Seq::empty()) {
                    Pass::Done(s1, _) => {
                        lemma_memory_ops(p, s1, t, ops, t.ops.len());
                    },
                    _ => {},
                }
            },
            _ => {},
        }
    }
}


pub proof fn lemma_declare_witnesses(p: Params, st: EncState, n: nat)
    requires
        st.next <= max_index(),
    ensures
        keeps(st, declare_witnesses(p, st, n)),
    decreases n,
{
    if n > 0 {
        lemma_declare_witnesses(p, st, (n - 1) as nat);
    }
}

/// Every finished encoding of a circuit from a state with no conditions yet,
/// whose fresh witnesses start above the circuit's, is numbered.
pub proof fn lemma_translate_numbered(p: Params, st: EncState, cwi: u32, ops: Seq<Opcode>)
    requires
        st.ver_conds.len() == 0,
        st.print_locs.len() == 0,
        st.next == cwi as nat + 1,
        ops.len() <= usize::MAX,
    ensures
        translate(p, st, cwi, ops) matches Pass::Done(s, _) ==> numbered(s, ops),
{
    if (cwi as nat) < max_index() {
        let s0 = declare_witnesses(p, st, cwi as nat + 1);
        lemma_declare_witnesses(p, st, cwi as nat + 1);
        lemma_first_pass(p, s0, ops, ops.len());
        match first_pass(p, s0, ops, ops.len()) {
            Pass::Done(s1, tr) => {
                assert(numbered(s1, ops) && traces_in(tr, ops)) by {
                    reveal(pass_numbered);
                }
                lemma_second_pass(p, s1, tr, ops, tr.len());
                match second_pass(p, s1, tr, ops, tr.len()) {
                    Pass::Done(s2, _) => lemma_keeps_numbered(s1, s2, ops),
                    _ => {},
                }
            },
            _ => {},
        }
    }
}

} // verus!
