//! No constant is declared twice: every name the encoding declares is new.

use vstd::prelude::*;

use crate::circuit::{BlackBoxFuncCall, BrilligInputs, Expression, FunctionInput, MemOpKind, Opcode, Witness};
use crate::encoding::{
    bit_len, bit_names, bit_of, bitsum_ff, bitsum_int, black_box, bool_text, bools_ff, bools_int,
    chain, declare_witnesses, eq_text, expr_ff, expr_int, ff_one, ff_zero, first_pass, fresh,
    fresh_int, imp_text, lt_text, max_index, memory_cells, memory_init, memory_op,
    memory_ops, not_text, opcode_step, pow_terms, range_inclusive_ff, range_inclusive_int, read_cells, room,
    second_pass, strictly, sum_text, translate, verify_assert_inputs, verify_assume_inputs, verify_condition,
    verify_print, with_assert, write_cells, wt, EncState, Outcome, Params, Pass, TraceSpec,
};
use crate::invariants::{
    ids_distinct, lemma_first_pass, numbered, pass_numbered,
};
use crate::smt::{CommandSpec, Type};
use crate::text::{
    actlit_text, lemma_actlit_injective, lemma_memory_injective, lemma_name_kinds, lemma_witness_injective,
    memory_text, witness_text,
};

verus! {

/// Which memory cells may have been declared: block, cell, write count.
pub type CellSet = spec_fn(nat, nat, nat) -> bool;

/// The name a declaration declares (the term, for an assertion).
pub open spec fn decl_name(c: CommandSpec) -> Seq<char> {
    match c {
        CommandSpec::Declare(n, _) => n,
        CommandSpec::Assert(t) => t,
    }
}

/// No constant is declared twice.
pub open spec fn declared_once(cmds: Seq<CommandSpec>) -> bool {
    forall|i: int, j: int|
        0 <= i < j < cmds.len() && cmds[i] is Declare && cmds[j] is Declare ==> #[trigger] decl_name(cmds[i])
            != #[trigger] decl_name(cmds[j])
}

/// `n` names a witness below `next`, an activation literal below `nconds`,
/// or a memory cell of `mem`.
pub open spec fn name_below(n: Seq<char>, next: nat, nconds: nat, mem: CellSet) -> bool {
    ||| exists|k: nat| k < next && n == #[trigger] witness_text(k)
    ||| exists|k: nat| k < nconds && n == #[trigger] actlit_text(k)
    ||| exists|b: nat, i: nat, f: nat| mem(b, i, f) && n == #[trigger] memory_text(b, i, f)
}

/// The commands declare each name once, and only names below the bounds.
pub open spec fn decls_within(cmds: Seq<CommandSpec>, next: nat, nconds: nat, mem: CellSet) -> bool {
    &&& declared_once(cmds)
    &&& forall|j: int|
        0 <= j < cmds.len() && (#[trigger] cmds[j]) is Declare ==> name_below(decl_name(cmds[j]), next, nconds, mem)
}

/// The state declares each name once: witnesses below its next fresh index,
/// activation literals of its conditions, and memory cells of `mem`.
pub open spec fn names_ok(st: EncState, mem: CellSet) -> bool {
    decls_within(st.cmds, st.next, st.ver_conds.len(), mem)
}

/// Whatever cells were allowed before, what `b` declares stays allowed.
pub open spec fn names_kept(a: EncState, b: EncState) -> bool {
    forall|mem: CellSet| #[trigger] names_ok(a, mem) ==> names_ok(b, mem)
}

pub proof fn lemma_kept_trans(a: EncState, b: EncState, c: EncState)
    requires
        names_kept(a, b),
        names_kept(b, c),
    ensures
        names_kept(a, c),
{
    assert forall|mem: CellSet| #[trigger] names_ok(a, mem) implies names_ok(c, mem) by {
        assert(names_ok(b, mem));
    }
}

/// A name below some bounds stays below larger ones.
pub proof fn lemma_below_mono(n: Seq<char>, next: nat, nconds: nat, mem: CellSet, next2: nat, nconds2: nat, mem2: CellSet)
    requires
        name_below(n, next, nconds, mem),
        next <= next2,
        nconds <= nconds2,
        forall|b: nat, i: nat, f: nat| mem(b, i, f) ==> #[trigger] mem2(b, i, f),
    ensures
        name_below(n, next2, nconds2, mem2),
{
    if exists|k: nat| k < next && n == #[trigger] witness_text(k) {
        let k = choose|k: nat| k < next && n == #[trigger] witness_text(k);
        assert(k < next2 && n == witness_text(k));
    } else if exists|k: nat| k < nconds && n == #[trigger] actlit_text(k) {
        let k = choose|k: nat| k < nconds && n == #[trigger] actlit_text(k);
        assert(k < nconds2 && n == actlit_text(k));
    } else {
        let (b, i, f) = choose|b: nat, i: nat, f: nat| mem(b, i, f) && n == #[trigger] memory_text(b, i, f);
        assert(mem2(b, i, f) && n == memory_text(b, i, f));
    }
}

/// Declarations within some bounds stay within larger ones.
pub proof fn lemma_within_mono(cmds: Seq<CommandSpec>, next: nat, nconds: nat, mem: CellSet, next2: nat, nconds2: nat, mem2: CellSet)
    requires
        decls_within(cmds, next, nconds, mem),
        next <= next2,
        nconds <= nconds2,
        forall|b: nat, i: nat, f: nat| mem(b, i, f) ==> #[trigger] mem2(b, i, f),
    ensures
        decls_within(cmds, next2, nconds2, mem2),
{
    assert forall|j: int| 0 <= j < cmds.len() && (#[trigger] cmds[j]) is Declare implies name_below(
        decl_name(cmds[j]),
        next2,
        nconds2,
        mem2,
    ) by {
        lemma_below_mono(decl_name(cmds[j]), next, nconds, mem, next2, nconds2, mem2);
    }
}

/// Declaring a name that is not below the old bounds, within the new ones.
pub proof fn lemma_push_decl(
    cmds: Seq<CommandSpec>,
    next: nat,
    nconds: nat,
    mem: CellSet,
    n: Seq<char>,
    ty: Type,
    next2: nat,
    nconds2: nat,
    mem2: CellSet,
)
    requires
        decls_within(cmds, next, nconds, mem),
        !name_below(n, next, nconds, mem),
        name_below(n, next2, nconds2, mem2),
        next <= next2,
        nconds <= nconds2,
        forall|b: nat, i: nat, f: nat| mem(b, i, f) ==> #[trigger] mem2(b, i, f),
    ensures
        decls_within(cmds.push(CommandSpec::Declare(n, ty)), next2, nconds2, mem2),
{
    let c2 = cmds.push(CommandSpec::Declare(n, ty));
    lemma_within_mono(cmds, next, nconds, mem, next2, nconds2, mem2);
    assert forall|i: int, j: int|
        0 <= i < j < c2.len() && c2[i] is Declare && c2[j] is Declare implies #[trigger] decl_name(c2[i])
            != #[trigger] decl_name(c2[j]) by {
        assert(c2[i] == cmds[i]);
        if j < cmds.len() {
            assert(c2[j] == cmds[j]);
        } else {
            assert(name_below(decl_name(cmds[i]), next, nconds, mem));
        }
    }
    assert forall|j: int| 0 <= j < c2.len() && (#[trigger] c2[j]) is Declare implies name_below(
        decl_name(c2[j]),
        next2,
        nconds2,
        mem2,
    ) by {
        if j < cmds.len() {
            assert(c2[j] == cmds[j]);
        }
    }
}

/// An assertion declares nothing.
pub proof fn lemma_push_assert(cmds: Seq<CommandSpec>, next: nat, nconds: nat, mem: CellSet, t: Seq<char>)
    requires
        decls_within(cmds, next, nconds, mem),
    ensures
        decls_within(cmds.push(CommandSpec::Assert(t)), next, nconds, mem),
{
    let c2 = cmds.push(CommandSpec::Assert(t));
    assert forall|i: int, j: int|
        0 <= i < j < c2.len() && c2[i] is Declare && c2[j] is Declare implies #[trigger] decl_name(c2[i])
            != #[trigger] decl_name(c2[j]) by {
        assert(c2[i] == cmds[i]);
        assert(c2[j] == cmds[j]);
    }
    assert forall|j: int| 0 <= j < c2.len() && (#[trigger] c2[j]) is Declare implies name_below(
        decl_name(c2[j]),
        next,
        nconds,
        mem,
    ) by {
        assert(c2[j] == cmds[j]);
    }
}

/// The next fresh witness is not below the current bounds.
pub proof fn lemma_fresh_witness_new(next: nat, nconds: nat, mem: CellSet)
    ensures
        !name_below(witness_text(next), next, nconds, mem),
        name_below(witness_text(next), next + 1, nconds, mem),
{
    let n = witness_text(next);
    if exists|k: nat| k < next && n == #[trigger] witness_text(k) {
        let k = choose|k: nat| k < next && n == #[trigger] witness_text(k);
        lemma_witness_injective(k, next);
    }
    if exists|k: nat| k < nconds && n == #[trigger] actlit_text(k) {
        let k = choose|k: nat| k < nconds && n == #[trigger] actlit_text(k);
        lemma_name_kinds(next, k, 0, 0, 0);
    }
    if exists|b: nat, i: nat, f: nat| mem(b, i, f) && n == #[trigger] memory_text(b, i, f) {
        let (b, i, f) = choose|b: nat, i: nat, f: nat| mem(b, i, f) && n == #[trigger] memory_text(b, i, f);
        lemma_name_kinds(next, 0, b, i, f);
    }
    assert(next < next + 1 && n == witness_text(next));
}

pub proof fn lemma_assert_kept(st: EncState, t: Seq<char>)
    ensures
        names_kept(st, with_assert(st, t)),
{
    assert forall|mem: CellSet| #[trigger] names_ok(st, mem) implies names_ok(with_assert(st, t), mem) by {
        lemma_push_assert(st.cmds, st.next, st.ver_conds.len(), mem, t);
    }
}

pub proof fn lemma_fresh_kept(st: EncState, ty: Type)
    ensures
        names_kept(st, fresh(st, ty)),
{
    assert forall|mem: CellSet| #[trigger] names_ok(st, mem) implies names_ok(fresh(st, ty), mem) by {
        lemma_fresh_witness_new(st.next, st.ver_conds.len(), mem);
        lemma_push_decl(
            st.cmds,
            st.next,
            st.ver_conds.len(),
            mem,
            witness_text(st.next),
            ty,
            st.next + 1,
            st.ver_conds.len(),
            mem,
        );
    }
}

pub proof fn lemma_bools_kept(st: EncState, n: nat)
    ensures
        names_kept(st, bools_ff(st, n)),
        names_kept(st, bools_int(st, n)),
    decreases n,
{
    if n == 0 {
        assert(names_kept(st, st));
    } else {
        lemma_bools_kept(st, (n - 1) as nat);
        let s = bools_ff(st, (n - 1) as nat);
        lemma_fresh_kept(s, Type::FField);
        lemma_assert_kept(fresh(s, Type::FField), crate::encoding::bool_text(witness_text(s.next)));
        lemma_kept_trans(s, fresh(s, Type::FField), bools_ff(st, n));
        lemma_kept_trans(st, s, bools_ff(st, n));
        let si = bools_int(st, (n - 1) as nat);
        let x = witness_text(si.next);
        let a = fresh(si, Type::Int);
        let b = with_assert(a, crate::encoding::lt_text("-1"@, x));
        lemma_fresh_kept(si, Type::Int);
        lemma_assert_kept(a, crate::encoding::lt_text("-1"@, x));
        lemma_assert_kept(b, crate::encoding::lt_text(x, "2"@));
        lemma_kept_trans(si, a, b);
        lemma_kept_trans(si, b, bools_int(st, n));
        lemma_kept_trans(st, si, bools_int(st, n));
    }
}


/// Whatever state an outcome carries declares only what `names_kept` allows.
pub open spec fn outcome_kept(a: EncState, o: Outcome) -> bool {
    match o {
        Outcome::Done(b) => names_kept(a, b),
        Outcome::Failed(b, _) => names_kept(a, b),
        Outcome::Halted(_) => true,
    }
}

pub proof fn lemma_refl(a: EncState)
    ensures
        names_kept(a, a),
{
}

pub proof fn lemma_then_assert(a: EncState, b: EncState, t: Seq<char>)
    requires
        names_kept(a, b),
    ensures
        names_kept(a, with_assert(b, t)),
{
    lemma_assert_kept(b, t);
    lemma_kept_trans(a, b, with_assert(b, t));
}

pub proof fn lemma_then_fresh(a: EncState, b: EncState, ty: Type)
    requires
        names_kept(a, b),
    ensures
        names_kept(a, fresh(b, ty)),
{
    lemma_fresh_kept(b, ty);
    lemma_kept_trans(a, b, fresh(b, ty));
}

pub proof fn lemma_then_bools(a: EncState, b: EncState, n: nat)
    requires
        names_kept(a, b),
    ensures
        names_kept(a, bools_ff(b, n)),
        names_kept(a, bools_int(b, n)),
{
    lemma_bools_kept(b, n);
    lemma_kept_trans(a, b, bools_ff(b, n));
    lemma_kept_trans(a, b, bools_int(b, n));
}

pub proof fn lemma_bitsum_kept(st: EncState, w: nat, n: nat)
    ensures
        outcome_kept(st, bitsum_ff(st, w, n)),
        outcome_kept(st, bitsum_int(st, w, n)),
{
    lemma_refl(st);
    lemma_then_bools(st, st, n);
    lemma_then_assert(st, bools_ff(st, n), eq_text(witness_text(w), sum_text("ff.bitsum"@, bit_names(st.next, n))));
    lemma_then_assert(st, bools_int(st, n), eq_text(witness_text(w), sum_text("+"@, pow_terms(bit_names(st.next, n)))));
}

pub proof fn lemma_black_box_kept(p: Params, st: EncState, call: BlackBoxFuncCall)
    ensures
        outcome_kept(st, black_box(p, st, call)),
{
    lemma_refl(st);
    match call {
        BlackBoxFuncCall::And { lhs, rhs, num_bits, output } => {
            match (lhs, rhs) {
                (FunctionInput::Witness(l), FunctionInput::Witness(r)) => {
                    let n = num_bits as nat;
                    lemma_then_assert(st, st, eq_text(wt(output), if p.use_int { "0"@ } else { ff_zero() }));
                    lemma_then_bools(st, st, n);
                    let s1i = with_assert(bools_int(st, n), eq_text(wt(l), sum_text("+"@, pow_terms(bit_names(st.next, n)))));
                    let s1f = with_assert(bools_ff(st, n), eq_text(wt(l), sum_text("ff.bitsum"@, bit_names(st.next, n))));
                    lemma_then_assert(st, bools_int(st, n), eq_text(wt(l), sum_text("+"@, pow_terms(bit_names(st.next, n)))));
                    lemma_then_assert(st, bools_ff(st, n), eq_text(wt(l), sum_text("ff.bitsum"@, bit_names(st.next, n))));
                    lemma_then_bools(st, s1i, n);
                    lemma_then_bools(st, s1f, n);
                    let s2i = with_assert(bools_int(s1i, n), eq_text(wt(r), sum_text("+"@, pow_terms(bit_names(s1i.next, n)))));
                    let s2f = with_assert(bools_ff(s1f, n), eq_text(wt(r), sum_text("ff.bitsum"@, bit_names(s1f.next, n))));
                    lemma_then_assert(st, bools_int(s1i, n), eq_text(wt(r), sum_text("+"@, pow_terms(bit_names(s1i.next, n)))));
                    lemma_then_assert(st, bools_ff(s1f, n), eq_text(wt(r), sum_text("ff.bitsum"@, bit_names(s1f.next, n))));
                    lemma_then_assert(st, s2i, eq_text(wt(output), sum_text("+"@, crate::encoding::and_terms_int(bit_names(st.next, n), bit_names(s1i.next, n)))));
                    lemma_then_assert(st, s2f, eq_text(wt(output), sum_text("ff.bitsum"@, crate::encoding::and_bits_ff(bit_names(st.next, n), bit_names(s1f.next, n)))));
                },
                _ => {},
            }
        },
        BlackBoxFuncCall::Range { input, num_bits } => {
            match input {
                FunctionInput::Witness(w) => {
                    lemma_bitsum_kept(st, w.0 as nat, num_bits as nat);
                    lemma_then_assert(st, st, eq_text(wt(w), "0"@));
                    lemma_then_assert(st, st, eq_text(wt(w), ff_zero()));
                    lemma_then_assert(st, st, lt_text("-1"@, wt(w)));
                    lemma_then_assert(st, with_assert(st, lt_text("-1"@, wt(w))), lt_text(wt(w), crate::text::decimal(vstd::arithmetic::power2::pow2(num_bits as nat))));
                },
                _ => {},
            }
        },
        _ => {},
    }
}

/// The bounds that a verification condition keeps below the largest index.
pub open spec fn bounded(st: EncState) -> bool {
    st.ver_conds.len() <= st.next && st.next <= max_index()
}

pub proof fn lemma_verify_condition_kept(p: Params, st: EncState, loc: usize, e: Expression)
    requires
        bounded(st),
        room(st, 1),
    ensures
        names_kept(st, verify_condition(p, st, loc, e)),
        bounded(verify_condition(p, st, loc, e)),
{
    let len = st.ver_conds.len();
    let a = actlit_text(((len as u32) as nat));
    assert((len as u32) as nat == len);
    let s1 = EncState {
        cmds: st.cmds.push(CommandSpec::Declare(a, Type::Bool)),
        ver_conds: st.ver_conds.push((a, loc)),
        ..st
    };
    assert forall|mem: CellSet| #[trigger] names_ok(st, mem) implies names_ok(s1, mem) by {
        if exists|k: nat| k < len && a == #[trigger] actlit_text(k) {
            let k = choose|k: nat| k < len && a == #[trigger] actlit_text(k);
            lemma_actlit_injective(k, len);
        }
        if exists|k: nat| k < st.next && a == #[trigger] witness_text(k) {
            let k = choose|k: nat| k < st.next && a == #[trigger] witness_text(k);
            lemma_name_kinds(k, len, 0, 0, 0);
        }
        if exists|b: nat, i: nat, f: nat| mem(b, i, f) && a == #[trigger] memory_text(b, i, f) {
            let (b, i, f) = choose|b: nat, i: nat, f: nat| mem(b, i, f) && a == #[trigger] memory_text(b, i, f);
            lemma_name_kinds(0, len, b, i, f);
        }
        assert(len < len + 1 && a == actlit_text(len));
        lemma_push_decl(st.cmds, st.next, len, mem, a, Type::Bool, st.next, len + 1, mem);
    }
    let x = witness_text(s1.next);
    if p.use_int {
        let f1 = fresh_int(s1, p.prime);
        lemma_then_fresh(st, s1, Type::Int);
        lemma_then_assert(st, fresh(s1, Type::Int), lt_text("-1"@, x));
        lemma_then_assert(st, with_assert(fresh(s1, Type::Int), lt_text("-1"@, x)), lt_text(x, p.prime));
        let s2 = with_assert(f1, eq_text(expr_int(e, p.prime), x));
        lemma_then_assert(st, f1, eq_text(expr_int(e, p.prime), x));
        lemma_then_assert(st, s2, imp_text(actlit_text(len), eq_text(x, "0"@)));
        lemma_then_assert(st, with_assert(s2, imp_text(actlit_text(len), eq_text(x, "0"@))), imp_text(not_text(actlit_text(len)), eq_text(x, "1"@)));
    } else {
        lemma_then_fresh(st, s1, Type::FField);
        let s2 = with_assert(fresh(s1, Type::FField), eq_text(expr_ff(e), x));
        lemma_then_assert(st, fresh(s1, Type::FField), eq_text(expr_ff(e), x));
        lemma_then_assert(st, s2, imp_text(actlit_text(len), eq_text(x, ff_zero())));
        lemma_then_assert(st, with_assert(s2, imp_text(actlit_text(len), eq_text(x, ff_zero()))), imp_text(not_text(actlit_text(len)), eq_text(x, ff_one())));
    }
}

pub proof fn lemma_verify_assert_kept(p: Params, st: EncState, loc: usize, inputs: Seq<BrilligInputs>, pred_one: bool, i: nat)
    requires
        bounded(st),
    ensures
        outcome_kept(st, verify_assert_inputs(p, st, loc, inputs, pred_one, i)),
    decreases inputs.len() - i,
{
    lemma_refl(st);
    if i < inputs.len() {
        match inputs[i as int] {
            BrilligInputs::Single(e) => {
                if pred_one && room(st, 1) {
                    let s = verify_condition(p, st, loc, e);
                    lemma_verify_condition_kept(p, st, loc, e);
                    lemma_verify_assert_kept(p, s, loc, inputs, pred_one, i + 1);
                    match verify_assert_inputs(p, s, loc, inputs, pred_one, i + 1) {
                        Outcome::Done(b) => lemma_kept_trans(st, s, b),
                        Outcome::Failed(b, _) => lemma_kept_trans(st, s, b),
                        _ => {},
                    }
                }
            },
            _ => {},
        }
    }
}

pub proof fn lemma_verify_assume_kept(p: Params, st: EncState, inputs: Seq<BrilligInputs>, pred_one: bool, i: nat)
    ensures
        outcome_kept(st, verify_assume_inputs(p, st, inputs, pred_one, i)),
    decreases inputs.len() - i,
{
    lemma_refl(st);
    if i < inputs.len() {
        match inputs[i as int] {
            BrilligInputs::Single(e) => {
                if pred_one {
                    let t = if p.use_int { eq_text(expr_int(e, p.prime), "1"@) } else { eq_text(expr_ff(e), ff_one()) };
                    let s = with_assert(st, t);
                    lemma_assert_kept(st, t);
                    lemma_verify_assume_kept(p, s, inputs, pred_one, i + 1);
                    match verify_assume_inputs(p, s, inputs, pred_one, i + 1) {
                        Outcome::Done(b) => lemma_kept_trans(st, s, b),
                        Outcome::Failed(b, _) => lemma_kept_trans(st, s, b),
                        _ => {},
                    }
                }
            },
            _ => {},
        }
    }
}

/// The state of a finished pass declares only what `names_kept` allows.
pub open spec fn pass_kept(a: EncState, p: Pass) -> bool {
    match p {
        Pass::Done(b, _) => names_kept(a, b),
        _ => true,
    }
}

pub proof fn lemma_opcode_step_kept(p: Params, st: EncState, tr: Seq<TraceSpec>, loc: usize, op: Opcode)
    requires
        bounded(st),
    ensures
        pass_kept(st, opcode_step(p, st, tr, loc, op)),
{
    lemma_refl(st);
    match op {
        Opcode::AssertZero(e) => {
            lemma_assert_kept(st, eq_text(expr_int(e, p.prime), "0"@));
            lemma_assert_kept(st, eq_text(expr_ff(e), ff_zero()));
        },
        Opcode::BlackBoxFuncCall(c) => lemma_black_box_kept(p, st, c),
        Opcode::BrilligCall { id, inputs, outputs, predicate } => {
            lemma_verify_assert_kept(p, st, loc, inputs@, predicate.spec_is_one(), 0);
            lemma_verify_assume_kept(p, st, inputs@, predicate.spec_is_one(), 0);
            match verify_print(st, loc, outputs@) {
                Outcome::Done(b) => {
                    assert forall|mem: CellSet| #[trigger] names_ok(st, mem) implies names_ok(b, mem) by {}
                },
                _ => {},
            }
        },
        _ => {},
    }
}

pub proof fn lemma_first_pass_kept(p: Params, st: EncState, ops: Seq<Opcode>, i: nat)
    requires
        numbered(st, ops),
        i <= ops.len(),
        ops.len() <= usize::MAX,
    ensures
        pass_kept(st, first_pass(p, st, ops, i)),
    decreases i,
{
    lemma_refl(st);
    if i > 0 {
        lemma_first_pass_kept(p, st, ops, (i - 1) as nat);
        lemma_first_pass(p, st, ops, (i - 1) as nat);
        let prev = first_pass(p, st, ops, (i - 1) as nat);
        match prev {
            Pass::Done(s, tr) => {
                assert(numbered(s, ops)) by {
                    reveal(pass_numbered);
                }
                lemma_opcode_step_kept(p, s, tr, (i - 1) as usize, ops[i - 1]);
                assert(first_pass(p, st, ops, i) == opcode_step(p, s, tr, (i - 1) as usize, ops[i - 1]));
                match opcode_step(p, s, tr, (i - 1) as usize, ops[i - 1]) {
                    Pass::Done(b, _) => lemma_kept_trans(st, s, b),
                    _ => {},
                }
            },
            _ => {
                assert(first_pass(p, st, ops, i) == prev);
            },
        }
    }
}


pub proof fn lemma_chain_kept(st: EncState, bits: Seq<Seq<char>>, bound: nat, i: int, cur: Seq<char>)
    ensures
        outcome_kept(st, chain(st, bits, bound, i, cur)),
    decreases i + 1,
{
    lemma_refl(st);
    if i >= 0 {
        if bit_of(bound, i as nat) == 1 {
            if room(st, 1) {
                let c = witness_text(st.next);
                let t = eq_text(c, crate::smt::app_text("ff.mul"@, seq![cur, bits[i]]));
                let s = with_assert(fresh(st, Type::FField), t);
                lemma_then_fresh(st, st, Type::FField);
                lemma_then_assert(st, fresh(st, Type::FField), t);
                lemma_chain_kept(s, bits, bound, i - 1, c);
                match chain(s, bits, bound, i - 1, c) {
                    Outcome::Done(b) => lemma_kept_trans(st, s, b),
                    Outcome::Failed(b, _) => lemma_kept_trans(st, s, b),
                    _ => {},
                }
            }
        } else {
            let t = eq_text(crate::smt::app_text("ff.mul"@, seq![bits[i], cur]), ff_zero());
            let s = with_assert(st, t);
            lemma_assert_kept(st, t);
            lemma_chain_kept(s, bits, bound, i - 1, cur);
            match chain(s, bits, bound, i - 1, cur) {
                Outcome::Done(b) => lemma_kept_trans(st, s, b),
                Outcome::Failed(b, _) => lemma_kept_trans(st, s, b),
                _ => {},
            }
        }
    }
}

pub proof fn lemma_range_inclusive_kept(st: EncState, w: nat, length: u32)
    ensures
        outcome_kept(st, range_inclusive_ff(st, w, length)),
        outcome_kept(st, range_inclusive_int(st, w, length)),
{
    lemma_refl(st);
    lemma_assert_kept(st, eq_text(witness_text(w), ff_zero()));
    lemma_assert_kept(st, eq_text(witness_text(w), "0"@));
    lemma_then_assert(st, st, lt_text("-1"@, witness_text(w)));
    lemma_then_assert(st, with_assert(st, lt_text("-1"@, witness_text(w))), lt_text(witness_text(w), crate::field::field_text(length as nat)));
    if length > 1 {
        let bound = (length - 1) as nat;
        let n = bit_len(bound);
        lemma_bitsum_kept(st, w, n);
        match bitsum_ff(st, w, n) {
            Outcome::Done(s) => {
                lemma_chain_kept(s, bit_names(st.next, n), bound, n - 2, bit_names(st.next, n)[n - 1]);
                match chain(s, bit_names(st.next, n), bound, n - 2, bit_names(st.next, n)[n - 1]) {
                    Outcome::Done(b) => lemma_kept_trans(st, s, b),
                    Outcome::Failed(b, _) => lemma_kept_trans(st, s, b),
                    _ => {},
                }
            },
            _ => {},
        }
    }
}

pub proof fn lemma_read_cells_kept(st: EncState, b: u32, idx: Seq<char>, val: Seq<char>, f: nat, use_int: bool, n: nat)
    ensures
        names_kept(st, read_cells(st, b, idx, val, f, use_int, n)),
    decreases n,
{
    lemma_refl(st);
    if n > 0 {
        lemma_read_cells_kept(st, b, idx, val, f, use_int, (n - 1) as nat);
        let s = read_cells(st, b, idx, val, f, use_int, (n - 1) as nat);
        let i = (n - 1) as nat;
        let lit = if use_int { crate::text::decimal(i) } else { crate::smt::ff_literal(crate::text::decimal(i)) };
        lemma_then_assert(st, s, imp_text(eq_text(idx, lit), eq_text(val, memory_text(b as nat, i, f))));
    }
}

/// `mem` with cells `0..n` of block `b` at write count `f` added.
pub open spec fn with_cells(mem: CellSet, b: nat, f: nat, n: nat) -> CellSet {
    |b2: nat, i2: nat, f2: nat| mem(b2, i2, f2) || (b2 == b && f2 == f && i2 < n)
}

/// A memory cell not allowed by `mem` is new.
proof fn lemma_new_cell(next: nat, nconds: nat, mem: CellSet, b: nat, i: nat, f: nat)
    requires
        !mem(b, i, f),
    ensures
        !name_below(memory_text(b, i, f), next, nconds, mem),
{
    let m = memory_text(b, i, f);
    if exists|k: nat| k < next && m == #[trigger] witness_text(k) {
        let k = choose|k: nat| k < next && m == #[trigger] witness_text(k);
        lemma_name_kinds(k, 0, b, i, f);
    }
    if exists|k: nat| k < nconds && m == #[trigger] actlit_text(k) {
        let k = choose|k: nat| k < nconds && m == #[trigger] actlit_text(k);
        lemma_name_kinds(0, k, b, i, f);
    }
    if exists|b2: nat, i2: nat, f2: nat| mem(b2, i2, f2) && m == #[trigger] memory_text(b2, i2, f2) {
        let (b2, i2, f2) = choose|b2: nat, i2: nat, f2: nat| mem(b2, i2, f2) && m == #[trigger] memory_text(b2, i2, f2);
        lemma_memory_injective(b2, i2, f2, b, i, f);
    }
}

pub proof fn lemma_write_cells_names(
    st: EncState,
    b: u32,
    idx: Seq<char>,
    val: Seq<char>,
    f: nat,
    use_int: bool,
    n: nat,
    mem: CellSet,
)
    requires
        names_ok(st, mem),
        forall|i: nat| !#[trigger] mem(b as nat, i, f + 1),
    ensures
        names_ok(write_cells(st, b, idx, val, f, use_int, n), with_cells(mem, b as nat, f + 1, n)),
    decreases n,
{
    if n == 0 {
        lemma_within_mono(st.cmds, st.next, st.ver_conds.len(), mem, st.next, st.ver_conds.len(), with_cells(mem, b as nat, f + 1, 0));
    } else {
        lemma_write_cells_names(st, b, idx, val, f, use_int, (n - 1) as nat, mem);
        let s = write_cells(st, b, idx, val, f, use_int, (n - 1) as nat);
        lemma_write_cells_keeps(st, b, idx, val, f, use_int, (n - 1) as nat);
        let i = (n - 1) as nat;
        let m0 = with_cells(mem, b as nat, f + 1, i);
        let m1 = with_cells(mem, b as nat, f + 1, n);
        let new_cell = memory_text(b as nat, i, f + 1);
        let ty = if use_int { Type::Int } else { Type::FField };
        lemma_new_cell(s.next, s.ver_conds.len(), m0, b as nat, i, f + 1);
        assert(m1(b as nat, i, f + 1) && new_cell == memory_text(b as nat, i, f + 1));
        lemma_push_decl(s.cmds, s.next, s.ver_conds.len(), m0, new_cell, ty, s.next, s.ver_conds.len(), m1);
        let lit = if use_int { crate::text::decimal(i) } else { crate::smt::ff_literal(crate::text::decimal(i)) };
        let c1 = s.cmds.push(CommandSpec::Declare(new_cell, ty));
        let t1 = imp_text(eq_text(idx, lit), eq_text(val, new_cell));
        lemma_push_assert(c1, s.next, s.ver_conds.len(), m1, t1);
        lemma_push_assert(c1.push(CommandSpec::Assert(t1)), s.next, s.ver_conds.len(), m1,
            imp_text(not_text(eq_text(idx, lit)), eq_text(memory_text(b as nat, i, f), new_cell)));
    }
}

proof fn lemma_write_cells_keeps(st: EncState, b: u32, idx: Seq<char>, val: Seq<char>, f: nat, use_int: bool, n: nat)
    ensures
        write_cells(st, b, idx, val, f, use_int, n).next == st.next,
        write_cells(st, b, idx, val, f, use_int, n).ver_conds == st.ver_conds,
    decreases n,
{
    if n > 0 {
        lemma_write_cells_keeps(st, b, idx, val, f, use_int, (n - 1) as nat);
    }
}

proof fn lemma_memory_cells_keeps(st: EncState, b: u32, init: Seq<Witness>, ty: Type, n: nat)
    ensures
        memory_cells(st, b, init, ty, n).next == st.next,
        memory_cells(st, b, init, ty, n).ver_conds == st.ver_conds,
    decreases n,
{
    if n > 0 {
        lemma_memory_cells_keeps(st, b, init, ty, (n - 1) as nat);
    }
}

pub proof fn lemma_memory_cells_names(st: EncState, b: u32, init: Seq<Witness>, ty: Type, n: nat, mem: CellSet)
    requires
        names_ok(st, mem),
        forall|i: nat| !#[trigger] mem(b as nat, i, 0),
    ensures
        names_ok(memory_cells(st, b, init, ty, n), with_cells(mem, b as nat, 0, n)),
    decreases n,
{
    if n == 0 {
        lemma_within_mono(st.cmds, st.next, st.ver_conds.len(), mem, st.next, st.ver_conds.len(), with_cells(mem, b as nat, 0, 0));
    } else {
        lemma_memory_cells_names(st, b, init, ty, (n - 1) as nat, mem);
        let s = memory_cells(st, b, init, ty, (n - 1) as nat);
        lemma_memory_cells_keeps(st, b, init, ty, (n - 1) as nat);
        let i = (n - 1) as nat;
        let m0 = with_cells(mem, b as nat, 0, i);
        let m1 = with_cells(mem, b as nat, 0, n);
        let cell = memory_text(b as nat, i, 0);
        lemma_new_cell(s.next, s.ver_conds.len(), m0, b as nat, i, 0);
        assert(m1(b as nat, i, 0) && cell == memory_text(b as nat, i, 0));
        lemma_push_decl(s.cmds, s.next, s.ver_conds.len(), m0, cell, ty, s.next, s.ver_conds.len(), m1);
        lemma_push_assert(s.cmds.push(CommandSpec::Declare(cell, ty)), s.next, s.ver_conds.len(), m1, eq_text(wt(init[n - 1]), cell));
    }
}

/// `mem` with the cells of block `b` up to write count `f` added.
pub open spec fn block_upto(mem: CellSet, b: nat, f: nat) -> CellSet {
    |b2: nat, i2: nat, f2: nat| mem(b2, i2, f2) || (b2 == b && f2 <= f)
}

/// `mem` with all cells of block `b` added.
pub open spec fn with_block(mem: CellSet, b: nat) -> CellSet {
    |b2: nat, i2: nat, f2: nat| mem(b2, i2, f2) || b2 == b
}

/// No cell of block `b` is in `mem`.
pub open spec fn block_free(mem: CellSet, b: nat) -> bool {
    forall|i: nat, f: nat| !(#[trigger] mem(b, i, f))
}

pub proof fn lemma_memory_op_names(
    p: Params,
    st: EncState,
    b: u32,
    kind: MemOpKind,
    index: Expression,
    value: Expression,
    len: nat,
    f: nat,
    mem: CellSet,
)
    requires
        names_ok(st, block_upto(mem, b as nat, f)),
        block_free(mem, b as nat),
    ensures
        match memory_op(p, st, b, kind, index, value, len, f) {
            (Outcome::Done(s), f2) => names_ok(s, block_upto(mem, b as nat, f2)),
            _ => true,
        },
{
    let m = block_upto(mem, b as nat, f);
    if room(st, 1) {
        let idx = witness_text(st.next);
        lemma_refl(st);
        let s1 = if p.use_int {
            with_assert(fresh_int(st, p.prime), eq_text(idx, expr_int(index, p.prime)))
        } else {
            with_assert(fresh(st, Type::FField), eq_text(idx, expr_ff(index)))
        };
        if p.use_int {
            lemma_then_fresh(st, st, Type::Int);
            lemma_then_assert(st, fresh(st, Type::Int), lt_text("-1"@, idx));
            lemma_then_assert(st, with_assert(fresh(st, Type::Int), lt_text("-1"@, idx)), lt_text(idx, p.prime));
            lemma_then_assert(st, fresh_int(st, p.prime), eq_text(idx, expr_int(index, p.prime)));
        } else {
            lemma_then_fresh(st, st, Type::FField);
            lemma_then_assert(st, fresh(st, Type::FField), eq_text(idx, expr_ff(index)));
        }
        lemma_range_inclusive_kept(s1, st.next, len as u32);
        let r = if p.use_int {
            range_inclusive_int(s1, st.next, len as u32)
        } else {
            range_inclusive_ff(s1, st.next, len as u32)
        };
        match r {
            Outcome::Done(s2) => {
                lemma_kept_trans(st, s1, s2);
                if room(s2, 1) {
                    let val = witness_text(s2.next);
                    let s3 = if p.use_int {
                        with_assert(fresh_int(s2, p.prime), eq_text(val, expr_int(value, p.prime)))
                    } else {
                        with_assert(fresh(s2, Type::FField), eq_text(val, expr_ff(value)))
                    };
                    if p.use_int {
                        lemma_then_fresh(st, s2, Type::Int);
                        lemma_then_assert(st, fresh(s2, Type::Int), lt_text("-1"@, val));
                        lemma_then_assert(st, with_assert(fresh(s2, Type::Int), lt_text("-1"@, val)), lt_text(val, p.prime));
                        lemma_then_assert(st, fresh_int(s2, p.prime), eq_text(val, expr_int(value, p.prime)));
                    } else {
                        lemma_then_fresh(st, s2, Type::FField);
                        lemma_then_assert(st, fresh(s2, Type::FField), eq_text(val, expr_ff(value)));
                    }
                    assert(names_ok(s3, m));
                    match kind {
                        MemOpKind::Read => {
                            lemma_read_cells_kept(s3, b, idx, val, f, p.use_int, len);
                        },
                        MemOpKind::Write => {
                            if f < max_index() {
                                lemma_write_cells_names(s3, b, idx, val, f, p.use_int, len, m);
                                let w = write_cells(s3, b, idx, val, f, p.use_int, len);
                                lemma_within_mono(w.cmds, w.next, w.ver_conds.len(), with_cells(m, b as nat, f + 1, len),
                                    w.next, w.ver_conds.len(), block_upto(mem, b as nat, f + 1));
                            }
                        },
                    }
                }
            },
            _ => {},
        }
    }
}

pub proof fn lemma_memory_ops_names(p: Params, st: EncState, t: TraceSpec, ops: Seq<Opcode>, k: nat, mem: CellSet)
    requires
        names_ok(st, block_upto(mem, t.block_id as nat, 0)),
        block_free(mem, t.block_id as nat),
    ensures
        match memory_ops(p, st, t, ops, k) {
            (Outcome::Done(s), f) => names_ok(s, block_upto(mem, t.block_id as nat, f)),
            _ => true,
        },
    decreases k,
{
    if k > 0 {
        lemma_memory_ops_names(p, st, t, ops, (k - 1) as nat, mem);
        match memory_ops(p, st, t, ops, (k - 1) as nat) {
            (Outcome::Done(s), f) => {
                let loc = t.ops[k - 1];
                match ops[loc as int] {
                    Opcode::MemoryOp { block_id: _, op } => {
                        lemma_memory_op_names(p, s, t.block_id, op.operation, op.index, op.value, t.init.len() as nat, f, mem);
                    },
                    _ => {},
                }
            },
            _ => {},
        }
    }
}

pub proof fn lemma_memory_block_names(p: Params, st: EncState, t: TraceSpec, ops: Seq<Opcode>, mem: CellSet)
    requires
        names_ok(st, mem),
        block_free(mem, t.block_id as nat),
    ensures
        crate::encoding::memory_block(p, st, t, ops) matches Pass::Done(s, _) ==> names_ok(s, with_block(mem, t.block_id as nat)),
{
    let b = t.block_id as nat;
    let ty = if p.use_int { Type::Int } else { Type::FField };
    match strictly(p.strict, memory_init(p, st, t), Seq::empty()) {
        Pass::Done(s, _) => {
            if t.block_type == crate::circuit::BlockType::Memory {
                lemma_memory_cells_names(st, t.block_id, t.init, ty, t.init.len(), mem);
                lemma_within_mono(s.cmds, s.next, s.ver_conds.len(), with_cells(mem, b, 0, t.init.len()),
                    s.next, s.ver_conds.len(), block_upto(mem, b, 0));
            } else {
                lemma_within_mono(s.cmds, s.next, s.ver_conds.len(), mem, s.next, s.ver_conds.len(), block_upto(mem, b, 0));
            }
            lemma_memory_ops_names(p, s, t, ops, t.ops.len(), mem);
            match memory_ops(p, s, t, ops, t.ops.len()) {
                (Outcome::Done(s2), f) => {
                    lemma_within_mono(s2.cmds, s2.next, s2.ver_conds.len(), block_upto(mem, b, f),
                        s2.next, s2.ver_conds.len(), with_block(mem, b));
                },
                _ => {},
            }
        },
        _ => {},
    }
}

/// The cells of the blocks of the first `k` traces.
pub open spec fn blocks_of(tr: Seq<TraceSpec>, k: nat) -> CellSet {
    |b2: nat, i2: nat, f2: nat| exists|j: int| 0 <= j < k && (#[trigger] tr[j]).block_id as nat == b2
}

pub open spec fn no_cells() -> CellSet {
    |b2: nat, i2: nat, f2: nat| false
}

pub proof fn lemma_second_pass_names(p: Params, st: EncState, tr: Seq<TraceSpec>, ops: Seq<Opcode>, k: nat)
    requires
        names_ok(st, no_cells()),
        ids_distinct(tr),
        k <= tr.len(),
    ensures
        second_pass(p, st, tr, ops, k) matches Pass::Done(s, _) ==> names_ok(s, blocks_of(tr, k)),
    decreases k,
{
    if k == 0 {
        lemma_within_mono(st.cmds, st.next, st.ver_conds.len(), no_cells(), st.next, st.ver_conds.len(), blocks_of(tr, 0));
    } else {
        lemma_second_pass_names(p, st, tr, ops, (k - 1) as nat);
        match second_pass(p, st, tr, ops, (k - 1) as nat) {
            Pass::Done(s, _) => {
                let t = tr[k - 1];
                let prev = blocks_of(tr, (k - 1) as nat);
                assert forall|i: nat, f: nat| !(#[trigger] prev(t.block_id as nat, i, f)) by {
                    if prev(t.block_id as nat, i, f) {
                        let j = choose|j: int| 0 <= j < k - 1 && (#[trigger] tr[j]).block_id as nat == t.block_id as nat;
                        assert(tr[j].block_id != tr[k - 1].block_id);
                    }
                }
                lemma_memory_block_names(p, s, t, ops, prev);
                match crate::encoding::memory_block(p, s, t, ops) {
                    Pass::Done(s2, _) => {
                        assert forall|b2: nat, i2: nat, f2: nat| #[trigger] with_block(prev, t.block_id as nat)(b2, i2, f2)
                            implies blocks_of(tr, k)(b2, i2, f2) by {
                            if !prev(b2, i2, f2) {
                                assert(tr[k - 1].block_id as nat == b2);
                            } else {
                                let j = choose|j: int| 0 <= j < k - 1 && (#[trigger] tr[j]).block_id as nat == b2;
                                assert(0 <= j < k && tr[j].block_id as nat == b2);
                            }
                        }
                        lemma_within_mono(s2.cmds, s2.next, s2.ver_conds.len(), with_block(prev, t.block_id as nat),
                            s2.next, s2.ver_conds.len(), blocks_of(tr, k));
                    },
                    _ => {},
                }
            },
            _ => {},
        }
    }
}

proof fn lemma_declare_witnesses_names(p: Params, st: EncState, n: nat)
    requires
        st.cmds.len() == 0,
    ensures
        decls_within(declare_witnesses(p, st, n).cmds, n, 0, no_cells()),
    decreases n,
{
    if n > 0 {
        lemma_declare_witnesses_names(p, st, (n - 1) as nat);
        let s = declare_witnesses(p, st, (n - 1) as nat);
        let x = witness_text((n - 1) as nat);
        lemma_fresh_witness_new((n - 1) as nat, 0, no_cells());
        lemma_push_decl(s.cmds, (n - 1) as nat, 0, no_cells(), x, if p.use_int { Type::Int } else { Type::FField }, n, 0, no_cells());
        let c1 = s.cmds.push(CommandSpec::Declare(x, Type::Int));
        lemma_push_assert(c1, n, 0, no_cells(), lt_text("-1"@, x));
        lemma_push_assert(c1.push(CommandSpec::Assert(lt_text("-1"@, x))), n, 0, no_cells(), lt_text(x, p.prime));
    }
}

/// A finished encoding of a circuit, from a state with nothing declared
/// whose fresh witnesses start above the circuit's, declares no name twice.
pub proof fn lemma_translate_declares_once(p: Params, st: EncState, cwi: u32, ops: Seq<Opcode>)
    requires
        st.cmds.len() == 0,
        st.ver_conds.len() == 0,
        st.print_locs.len() == 0,
        st.next == cwi as nat + 1,
        ops.len() <= usize::MAX,
    ensures
        translate(p, st, cwi, ops) matches Pass::Done(s, _) ==> declared_once(s.cmds),
{
    if (cwi as nat) < max_index() {
        let s0 = declare_witnesses(p, st, cwi as nat + 1);
        lemma_declare_witnesses_names(p, st, cwi as nat + 1);
        crate::invariants::lemma_declare_witnesses(p, st, cwi as nat + 1);
        assert(names_ok(s0, no_cells()));
        assert(numbered(s0, ops));
        lemma_first_pass_kept(p, s0, ops, ops.len());
        lemma_first_pass(p, s0, ops, ops.len());
        match first_pass(p, s0, ops, ops.len()) {
            Pass::Done(s1, tr) => {
                assert(ids_distinct(tr)) by {
                    reveal(pass_numbered);
                }
                assert(names_ok(s1, no_cells()));
                lemma_second_pass_names(p, s1, tr, ops, tr.len());
            },
            _ => {},
        }
    }
}

} // verus!
