//! Which verification conditions a circuit gives: one per input of each
//! `verify_assert` call, in the order of the opcodes and of the inputs.

use vstd::prelude::*;

use crate::circuit::{BrilligInputs, Opcode};
use crate::encoding::{
    assert_func_name, declare_witnesses, first_pass, max_index, opcode_step,
    room, translate, verify_assert_inputs, verify_condition, EncState, Outcome, Params, Pass,
};
use crate::invariants::{
    lemma_black_box, lemma_declare_witnesses, lemma_first_pass, lemma_second_pass,
    lemma_verify_assume_inputs, numbered, pass_numbered, traces_in,
};

verus! {

/// The opcode locations of verification conditions.
pub open spec fn locs(vc: Seq<(Seq<char>, usize)>) -> Seq<usize> {
    vc.map_values(|c: (Seq<char>, usize)| c.1)
}

/// Whether the opcode calls `verify_assert`.
pub open spec fn is_assert_call(op: Opcode, names: Seq<Seq<char>>) -> bool {
    match op {
        Opcode::BrilligCall { id, .. } => id < names.len() && names[id as int] == assert_func_name(),
        _ => false,
    }
}

/// The inputs of a call opcode (none for another opcode).
pub open spec fn call_inputs(op: Opcode) -> Seq<BrilligInputs> {
    match op {
        Opcode::BrilligCall { inputs, .. } => inputs@,
        _ => Seq::empty(),
    }
}

/// Every input of every `verify_assert` call is a single expression.
pub open spec fn assert_inputs_single(ops: Seq<Opcode>, names: Seq<Seq<char>>) -> bool {
    forall|j: int, i: int|
        0 <= j < ops.len() && is_assert_call(ops[j], names) && 0 <= i < call_inputs(ops[j]).len()
            ==> (#[trigger] call_inputs(ops[j])[i]) is Single
}

/// The locations of the conditions that the first `k` opcodes ask for: the
/// location of each `verify_assert` call, once per input.
pub open spec fn assert_call_locs(ops: Seq<Opcode>, names: Seq<Seq<char>>, k: nat) -> Seq<usize>
    decreases k,
{
    if k == 0 {
        Seq::empty()
    } else {
        let prev = assert_call_locs(ops, names, (k - 1) as nat);
        if is_assert_call(ops[k - 1], names) {
            prev + Seq::new(call_inputs(ops[k - 1]).len(), |x: int| (k - 1) as usize)
        } else {
            prev
        }
    }
}

proof fn lemma_assert_inputs_locs(
    p: Params,
    st: EncState,
    loc: usize,
    inputs: Seq<BrilligInputs>,
    pred: bool,
    i: nat,
)
    requires
        i <= inputs.len(),
        forall|j: int| i <= j < inputs.len() ==> (#[trigger] inputs[j]) is Single,
    ensures
        !(verify_assert_inputs(p, st, loc, inputs, pred, i) is Failed),
        verify_assert_inputs(p, st, loc, inputs, pred, i) matches Outcome::Done(b) ==> locs(b.ver_conds) == locs(
            st.ver_conds,
        ) + Seq::new((inputs.len() - i) as nat, |x: int| loc),
    decreases inputs.len() - i,
{
    if i < inputs.len() {
        match inputs[i as int] {
            BrilligInputs::Single(e) => {
                if pred && room(st, 1) {
                    let s = verify_condition(p, st, loc, e);
                    lemma_assert_inputs_locs(p, s, loc, inputs, pred, i + 1);
                    assert(locs(s.ver_conds) =~= locs(st.ver_conds).push(loc));
                    match verify_assert_inputs(p, s, loc, inputs, pred, i + 1) {
                        Outcome::Done(b) => {
                            assert(locs(st.ver_conds).push(loc) + Seq::new((inputs.len() - i - 1) as nat, |x: int| loc)
                                =~= locs(st.ver_conds) + Seq::new((inputs.len() - i) as nat, |x: int| loc));
                        },
                        _ => {},
                    }
                }
            },
            _ => {},
        }
    } else {
        assert(locs(st.ver_conds) + Seq::new(0, |x: int| loc) =~= locs(st.ver_conds));
    }
}

proof fn lemma_step_locs(p: Params, s: EncState, tr: Seq<crate::encoding::TraceSpec>, k: nat, ops: Seq<Opcode>)
    requires
        s.next <= max_index(),
        k < ops.len(),
        k <= usize::MAX,
        assert_inputs_single(ops, p.names),
    ensures
        opcode_step(p, s, tr, k as usize, ops[k as int]) matches Pass::Done(s2, _) ==> locs(s2.ver_conds) == locs(
            s.ver_conds,
        ) + (if is_assert_call(ops[k as int], p.names) {
            Seq::new(call_inputs(ops[k as int]).len(), |x: int| k as usize)
        } else {
            Seq::empty()
        }),
{
    let op = ops[k as int];
    assert(locs(s.ver_conds) + Seq::<usize>::empty() =~= locs(s.ver_conds));
    match op {
        Opcode::BlackBoxFuncCall(c) => {
            lemma_black_box(p, s, c);
        },
        Opcode::BrilligCall { id, inputs, outputs, predicate } => {
            if is_assert_call(op, p.names) {
                assert forall|j: int| 0 <= j < inputs@.len() implies (#[trigger] inputs@[j]) is Single by {
                    assert(call_inputs(ops[k as int])[j] is Single);
                }
                lemma_assert_inputs_locs(p, s, k as usize, inputs@, predicate.spec_is_one(), 0);
            } else {
                lemma_verify_assume_inputs(p, s, inputs@, predicate.spec_is_one(), 0);
            }
        },
        _ => {},
    }
}

proof fn lemma_first_pass_locs(p: Params, st: EncState, ops: Seq<Opcode>, i: nat)
    requires
        numbered(st, ops),
        i <= ops.len(),
        ops.len() <= usize::MAX,
        assert_inputs_single(ops, p.names),
    ensures
        first_pass(p, st, ops, i) matches Pass::Done(s, _) ==> locs(s.ver_conds) == locs(st.ver_conds)
            + assert_call_locs(ops, p.names, i),
    decreases i,
{
    if i == 0 {
        assert(locs(st.ver_conds) + Seq::<usize>::empty() =~= locs(st.ver_conds));
    } else {
        let k = (i - 1) as nat;
        lemma_first_pass_locs(p, st, ops, k);
        lemma_first_pass(p, st, ops, k);
        match first_pass(p, st, ops, k) {
            Pass::Done(s, tr) => {
                assert(numbered(s, ops)) by {
                    reveal(pass_numbered);
                }
                assert((k as usize) as nat == k);
                lemma_step_locs(p, s, tr, k, ops);
                assert(first_pass(p, st, ops, i) == opcode_step(p, s, tr, k as usize, ops[k as int]));
                match opcode_step(p, s, tr, k as usize, ops[k as int]) {
                    Pass::Done(s2, _) => {
                        if is_assert_call(ops[k as int], p.names) {
                            assert(locs(st.ver_conds) + assert_call_locs(ops, p.names, k) + Seq::new(
                                call_inputs(ops[k as int]).len(),
                                |x: int| k as usize,
                            ) =~= locs(st.ver_conds) + assert_call_locs(ops, p.names, i));
                        }
                    },
                    _ => {},
                }
            },
            _ => {},
        }
    }
}

/// A finished encoding, from a state with no conditions yet, has one
/// condition per input of each `verify_assert` call, in opcode order, each
/// at the location of its call.
pub proof fn lemma_translate_locs(p: Params, st: EncState, cwi: u32, ops: Seq<Opcode>)
    requires
        st.ver_conds.len() == 0,
        st.print_locs.len() == 0,
        st.next == cwi as nat + 1,
        ops.len() <= usize::MAX,
        assert_inputs_single(ops, p.names),
    ensures
        translate(p, st, cwi, ops) matches Pass::Done(s, _) ==> locs(s.ver_conds) == assert_call_locs(
            ops,
            p.names,
            ops.len(),
        ),
{
    if (cwi as nat) < max_index() {
        let s0 = declare_witnesses(p, st, cwi as nat + 1);
        lemma_declare_witnesses(p, st, cwi as nat + 1);
        assert(numbered(s0, ops));
        lemma_first_pass_locs(p, s0, ops, ops.len());
        lemma_first_pass(p, s0, ops, ops.len());
        assert(locs(s0.ver_conds) =~= Seq::<usize>::empty());
        match first_pass(p, s0, ops, ops.len()) {
            Pass::Done(s1, tr) => {
                assert(numbered(s1, ops) && traces_in(tr, ops)) by {
                    reveal(pass_numbered);
                }
                lemma_second_pass(p, s1, tr, ops, tr.len());
                assert(Seq::<usize>::empty() + assert_call_locs(ops, p.names, ops.len()) =~= assert_call_locs(
                    ops,
                    p.names,
                    ops.len(),
                ));
            },
            _ => {},
        }
    }
}

} // verus!
