//! What the constraints the encoder emits say, read off the commands
//! themselves: each law names the exact SMT-LIB assertions that a part of a
//! circuit adds.

use vstd::prelude::*;

use crate::circuit::{BrilligInputs, BrilligOutputs, Expression};
use crate::encoding::{
    bitsum_ff, bools_ff, brillig_call, expr_ff, expr_int, fresh, lemma_bools_next, verify_assume_inputs, with_assert,
    EncState, Outcome, Params,
};
use crate::smt::{app_text, CommandSpec, Type};
use crate::text::witness_text;

verus! {

/// Every command sent before state `a` is still there, first, in state `b`.
pub open spec fn extends(a: EncState, b: EncState) -> bool {
    a.cmds.is_prefix_of(b.cmds)
}

/// Whether `t` has been asserted.
pub open spec fn asserts(st: EncState, t: Seq<char>) -> bool {
    st.cmds.contains(CommandSpec::Assert(t))
}

/// `(= (ff.mul x (ff.add x (as ff-1 FF))) (as ff0 FF))`: `x` is 0 or 1.
pub open spec fn zero_or_one_ff(x: Seq<char>) -> Seq<char> {
    app_text("="@, seq![app_text("ff.mul"@, seq![x, app_text("ff.add"@, seq![x, "(as ff-1 FF)"@])]), "(as ff0 FF)"@])
}

/// What was sent before stays sent.
pub proof fn lemma_extends_contains(a: EncState, b: EncState, c: CommandSpec)
    requires
        extends(a, b),
        a.cmds.contains(c),
    ensures
        b.cmds.contains(c),
{
    let q = choose|q: int| 0 <= q < a.cmds.len() && a.cmds[q] == c;
    assert(b.cmds[q] == b.cmds.subrange(0, a.cmds.len() as int)[q]);
}

pub proof fn lemma_extends_trans(a: EncState, b: EncState, c: EncState)
    requires
        extends(a, b),
        extends(b, c),
    ensures
        extends(a, c),
{
    assert(a.cmds =~= c.cmds.subrange(0, a.cmds.len() as int)) by {
        assert forall|q: int| 0 <= q < a.cmds.len() implies a.cmds[q] == c.cmds[q] by {
            assert(a.cmds[q] == b.cmds.subrange(0, a.cmds.len() as int)[q]);
            assert(b.cmds[q] == c.cmds.subrange(0, b.cmds.len() as int)[q]);
        }
    }
}

/// Adding a command keeps the earlier ones and holds the new one.
pub proof fn lemma_push(st: EncState, c: CommandSpec)
    ensures
        extends(st, EncState { cmds: st.cmds.push(c), ..st }),
        st.cmds.push(c).contains(c),
{
    assert(st.cmds =~= st.cmds.push(c).subrange(0, st.cmds.len() as int));
    assert(st.cmds.push(c)[st.cmds.len() as int] == c);
}

pub proof fn lemma_extends_refl(st: EncState)
    ensures
        extends(st, st),
{
    assert(st.cmds =~= st.cmds.subrange(0, st.cmds.len() as int));
}

/// The bit constraint the encoding writes is `x * (x - 1) = 0`.
proof fn lemma_bool_text(x: Seq<char>)
    ensures
        crate::encoding::bool_text(x) == zero_or_one_ff(x),
{
    reveal_strlit("(as ff");
    reveal_strlit(" FF)");
    reveal_strlit("-1");
    reveal_strlit("(as ff-1 FF)");
    assert(crate::smt::ff_literal("-1"@) =~= "(as ff-1 FF)"@);
}

/// `n` fresh bits: each of the witnesses numbered from the first fresh one
/// is declared and constrained to 0 or 1, its own constraint for each.
pub proof fn lemma_fresh_bits(st: EncState, n: nat)
    ensures
        extends(st, bools_ff(st, n)),
        bools_ff(st, n).next == st.next + n,
        forall|j: nat|
            st.next <= j < st.next + n ==> #[trigger] bools_ff(st, n).cmds.contains(
                CommandSpec::Declare(witness_text(j), Type::FField),
            ) && asserts(bools_ff(st, n), zero_or_one_ff(witness_text(j))),
    decreases n,
{
    lemma_bools_next(st, n);
    if n == 0 {
        lemma_extends_refl(st);
    } else {
        let s = bools_ff(st, (n - 1) as nat);
        lemma_fresh_bits(st, (n - 1) as nat);
        lemma_bools_next(st, (n - 1) as nat);
        let x = witness_text(s.next);
        let d = CommandSpec::Declare(x, Type::FField);
        let s1 = fresh(s, Type::FField);
        let a = CommandSpec::Assert(crate::encoding::bool_text(x));
        let s2 = with_assert(s1, crate::encoding::bool_text(x));
        assert(s2 == bools_ff(st, n));
        lemma_push(s, d);
        assert(s1.cmds == s.cmds.push(d));
        lemma_push(s1, a);
        assert(s2.cmds == s1.cmds.push(a));
        lemma_extends_trans(s, s1, s2);
        lemma_extends_trans(st, s, s2);
        lemma_extends_contains(s1, s2, d);
        lemma_bool_text(x);
        assert forall|j: nat| st.next <= j < st.next + n implies #[trigger] s2.cmds.contains(
            CommandSpec::Declare(witness_text(j), Type::FField),
        ) && asserts(s2, zero_or_one_ff(witness_text(j))) by {
            if j < st.next + n - 1 {
                assert(s.cmds.contains(CommandSpec::Declare(witness_text(j), Type::FField)));
                lemma_extends_contains(s, s2, CommandSpec::Declare(witness_text(j), Type::FField));
                lemma_extends_contains(s, s2, CommandSpec::Assert(zero_or_one_ff(witness_text(j))));
            } else {
                assert(j == s.next);
            }
        }
    }
}

/// A field bit decomposition of witness `w` into `n` bits declares `n` fresh
/// witnesses, constrains each one of them to 0 or 1, and asserts that `w`
/// is their bit sum (the single bit itself when `n` is 1).
pub proof fn lemma_bit_decomposition(st: EncState, w: nat, n: nat)
    ensures
        bitsum_ff(st, w, n) matches Outcome::Done(s) ==> {
            &&& extends(st, s)
            &&& s.next == st.next + n
            &&& forall|j: nat|
                st.next <= j < st.next + n ==> #[trigger] s.cmds.contains(
                    CommandSpec::Declare(witness_text(j), Type::FField),
                ) && asserts(s, zero_or_one_ff(witness_text(j)))
            &&& asserts(
                s,
                app_text(
                    "="@,
                    seq![
                        witness_text(w),
                        if n == 1 {
                            witness_text(st.next)
                        } else {
                            app_text("ff.bitsum"@, Seq::new(n, |k: int| witness_text(st.next + k as nat)))
                        },
                    ],
                ),
            )
        },
{
    match bitsum_ff(st, w, n) {
        Outcome::Done(s) => {
            let b = bools_ff(st, n);
            lemma_fresh_bits(st, n);
            let t = crate::encoding::eq_text(
                witness_text(w),
                crate::encoding::sum_text("ff.bitsum"@, crate::encoding::bit_names(st.next, n)),
            );
            assert(s == with_assert(b, t));
            lemma_push(b, CommandSpec::Assert(t));
            lemma_extends_trans(st, b, s);
            assert forall|j: nat| st.next <= j < st.next + n implies #[trigger] s.cmds.contains(
                CommandSpec::Declare(witness_text(j), Type::FField),
            ) && asserts(s, zero_or_one_ff(witness_text(j))) by {
                lemma_extends_contains(b, s, CommandSpec::Declare(witness_text(j), Type::FField));
                lemma_extends_contains(b, s, CommandSpec::Assert(zero_or_one_ff(witness_text(j))));
            }
            if n != 1 {
                assert(crate::encoding::bit_names(st.next, n) =~= Seq::new(n, |k: int| witness_text(st.next + k as nat)));
            }
        },
        _ => {},
    }
}

/// A RANGE constraint on a witness in a field encoding decomposes the
/// witness into `num_bits` fresh bits, each constrained to 0 or 1 on its own.
pub proof fn lemma_range_bits(p: Params, st: EncState, w: crate::circuit::Witness, num_bits: u32)
    requires
        !p.use_int,
        num_bits > 0,
    ensures
        crate::encoding::range(p, st, crate::circuit::FunctionInput::Witness(w), num_bits) matches Outcome::Done(s) ==> {
            &&& extends(st, s)
            &&& forall|j: nat|
                st.next <= j < st.next + num_bits ==> #[trigger] s.cmds.contains(
                    CommandSpec::Declare(witness_text(j), Type::FField),
                ) && asserts(s, zero_or_one_ff(witness_text(j)))
        },
{
    lemma_bit_decomposition(st, w.0 as nat, num_bits as nat);
}

/// The assertion that expression `e` equals 1, in the encoding `p` chooses.
pub open spec fn equals_one(p: Params, e: Expression) -> Seq<char> {
    if p.use_int {
        app_text("="@, seq![expr_int(e, p.prime), "1"@])
    } else {
        app_text("="@, seq![expr_ff(e), "(as ff1 FF)"@])
    }
}

/// The inputs of an assumption from the `i`-th on are each asserted to be 1.
proof fn lemma_assume_inputs(p: Params, st: EncState, inputs: Seq<BrilligInputs>, i: nat)
    ensures
        verify_assume_inputs(p, st, inputs, true, i) matches Outcome::Done(s) ==> {
            &&& extends(st, s)
            &&& forall|j: int|
                i <= j < inputs.len() ==> ((#[trigger] inputs[j]) matches BrilligInputs::Single(e) && asserts(s, equals_one(p, e)))
        },
    decreases inputs.len() - i,
{
    if i >= inputs.len() {
        lemma_extends_refl(st);
    } else {
        match inputs[i as int] {
            BrilligInputs::Single(e) => {
                let t = if p.use_int {
                    crate::encoding::eq_text(expr_int(e, p.prime), "1"@)
                } else {
                    crate::encoding::eq_text(expr_ff(e), crate::encoding::ff_one())
                };
                let s1 = with_assert(st, t);
                assert(t == equals_one(p, e));
                lemma_push(st, CommandSpec::Assert(t));
                lemma_assume_inputs(p, s1, inputs, i + 1);
                match verify_assume_inputs(p, s1, inputs, true, i + 1) {
                    Outcome::Done(s) => {
                        lemma_extends_trans(st, s1, s);
                        lemma_extends_contains(s1, s, CommandSpec::Assert(t));
                    },
                    _ => {},
                }
            },
            _ => {},
        }
    }
}

/// A `verify_assume` call under predicate 1 asserts, in every encoding, that
/// each of its inputs equals 1; it is encoded only when all of them are
/// single expressions.
pub proof fn lemma_assume_asserts_inputs(
    p: Params,
    st: EncState,
    loc: usize,
    id: u32,
    inputs: Seq<BrilligInputs>,
    outputs: Seq<BrilligOutputs>,
    predicate: Expression,
)
    requires
        id < p.names.len(),
        p.names[id as int] == "verify_assume"@,
        predicate.spec_is_one(),
    ensures
        brillig_call(p, st, loc, id, inputs, outputs, predicate) matches Outcome::Done(s) ==> {
            &&& extends(st, s)
            &&& forall|j: int|
                0 <= j < inputs.len() ==> ((#[trigger] inputs[j]) matches BrilligInputs::Single(e) && asserts(s, equals_one(p, e)))
        },
{
    reveal_strlit("verify_assert");
    reveal_strlit("verify_assume");
    assert(crate::encoding::assert_func_name()[12] != crate::encoding::assume_func_name()[12]);
    lemma_assume_inputs(p, st, inputs, 0);
}

/// A state whose commands are those of `a` and one more.
pub proof fn lemma_one_more(a: EncState, b: EncState, c: CommandSpec)
    requires
        b.cmds == a.cmds.push(c),
    ensures
        extends(a, b),
        b.cmds.contains(c),
{
    lemma_push(a, c);
}

/// A fresh integer witness only adds commands.
proof fn lemma_fresh_int(st: EncState, prime: Seq<char>)
    ensures
        extends(st, crate::encoding::fresh_int(st, prime)),
{
    let x = witness_text(st.next);
    let a = fresh(st, Type::Int);
    let b = with_assert(a, crate::encoding::lt_text("-1"@, x));
    let c = with_assert(b, crate::encoding::lt_text(x, prime));
    lemma_one_more(st, a, CommandSpec::Declare(x, Type::Int));
    lemma_one_more(a, b, CommandSpec::Assert(crate::encoding::lt_text("-1"@, x)));
    lemma_one_more(b, c, CommandSpec::Assert(crate::encoding::lt_text(x, prime)));
    lemma_extends_trans(st, a, b);
    lemma_extends_trans(st, b, c);
}

/// The comparison chain of a range only adds commands.
proof fn lemma_chain_extends(st: EncState, bits: Seq<Seq<char>>, bound: nat, i: int, cur: Seq<char>)
    ensures
        crate::encoding::chain(st, bits, bound, i, cur) matches Outcome::Done(s) ==> extends(st, s),
    decreases i + 1,
{
    if i < 0 {
        lemma_extends_refl(st);
    } else if crate::encoding::bit_of(bound, i as nat) == 1 {
        if crate::encoding::room(st, 1) {
            let c = witness_text(st.next);
            let t = crate::encoding::eq_text(c, app_text("ff.mul"@, seq![cur, bits[i]]));
            let a = fresh(st, Type::FField);
            let b = with_assert(a, t);
            lemma_one_more(st, a, CommandSpec::Declare(c, Type::FField));
            lemma_one_more(a, b, CommandSpec::Assert(t));
            lemma_extends_trans(st, a, b);
            lemma_chain_extends(b, bits, bound, i - 1, c);
            match crate::encoding::chain(b, bits, bound, i - 1, c) {
                Outcome::Done(s) => lemma_extends_trans(st, b, s),
                _ => {},
            }
        }
    } else {
        let t = crate::encoding::eq_text(app_text("ff.mul"@, seq![bits[i], cur]), crate::encoding::ff_zero());
        let b = with_assert(st, t);
        lemma_one_more(st, b, CommandSpec::Assert(t));
        lemma_chain_extends(b, bits, bound, i - 1, cur);
        match crate::encoding::chain(b, bits, bound, i - 1, cur) {
            Outcome::Done(s) => lemma_extends_trans(st, b, s),
            _ => {},
        }
    }
}

/// Bounding a memory index only adds commands.
proof fn lemma_index_bound_extends(st: EncState, w: nat, length: u32)
    ensures
        crate::encoding::range_inclusive_ff(st, w, length) matches Outcome::Done(s) ==> extends(st, s),
        crate::encoding::range_inclusive_int(st, w, length) matches Outcome::Done(s) ==> extends(st, s),
{
    if length == 1 {
        lemma_one_more(st, with_assert(st, crate::encoding::eq_text(witness_text(w), crate::encoding::ff_zero())),
            CommandSpec::Assert(crate::encoding::eq_text(witness_text(w), crate::encoding::ff_zero())));
        lemma_one_more(st, with_assert(st, crate::encoding::eq_text(witness_text(w), "0"@)),
            CommandSpec::Assert(crate::encoding::eq_text(witness_text(w), "0"@)));
    } else if length > 1 {
        let t1 = crate::encoding::lt_text("-1"@, witness_text(w));
        let t2 = crate::encoding::lt_text(witness_text(w), crate::field::field_text(length as nat));
        let a = with_assert(st, t1);
        lemma_one_more(st, a, CommandSpec::Assert(t1));
        lemma_one_more(a, with_assert(a, t2), CommandSpec::Assert(t2));
        lemma_extends_trans(st, a, with_assert(a, t2));
        let bound = (length - 1) as nat;
        let n = crate::encoding::bit_len(bound);
        lemma_bit_decomposition(st, w, n);
        match bitsum_ff(st, w, n) {
            Outcome::Done(s) => {
                let bits = crate::encoding::bit_names(st.next, n);
                lemma_chain_extends(s, bits, bound, n - 2, bits[n - 1]);
                match crate::encoding::chain(s, bits, bound, n - 2, bits[n - 1]) {
                    Outcome::Done(s2) => lemma_extends_trans(st, s, s2),
                    _ => {},
                }
            },
            _ => {},
        }
    }
}

/// The literal of index `k` in the encoding: a field literal, or the number.
pub open spec fn index_literal(use_int: bool, k: nat) -> Seq<char> {
    if use_int {
        crate::text::decimal(k)
    } else {
        "(as ff"@ + crate::text::decimal(k) + " FF)"@
    }
}

/// The commands hold what a write of `val` at index `idx` does to cell `k`
/// of block `b` after `f` writes: the next version of the cell is declared;
/// where the index is `k` the new cell holds the written value; elsewhere
/// it keeps the value of the previous version.
pub open spec fn cell_written(
    cmds: Seq<CommandSpec>,
    use_int: bool,
    b: u32,
    idx: Seq<char>,
    val: Seq<char>,
    f: nat,
    k: nat,
) -> bool {
    let lit = index_literal(use_int, k);
    let new_cell = crate::text::memory_text(b as nat, k, f + 1);
    let old_cell = crate::text::memory_text(b as nat, k, f);
    &&& cmds.contains(CommandSpec::Declare(new_cell, if use_int { Type::Int } else { Type::FField }))
    &&& cmds.contains(
        CommandSpec::Assert(app_text("=>"@, seq![app_text("="@, seq![idx, lit]), app_text("="@, seq![val, new_cell])])),
    )
    &&& cmds.contains(
        CommandSpec::Assert(
            app_text("=>"@, seq![app_text("not"@, seq![app_text("="@, seq![idx, lit])]), app_text("="@, seq![old_cell, new_cell])]),
        ),
    )
}

proof fn lemma_write_cells(st: EncState, b: u32, idx: Seq<char>, val: Seq<char>, f: nat, use_int: bool, n: nat)
    ensures
        extends(st, crate::encoding::write_cells(st, b, idx, val, f, use_int, n)),
        forall|k: nat| k < n ==> #[trigger] cell_written(crate::encoding::write_cells(st, b, idx, val, f, use_int, n).cmds, use_int, b, idx, val, f, k),
    decreases n,
{
    if n == 0 {
        lemma_extends_refl(st);
    } else {
        let s = crate::encoding::write_cells(st, b, idx, val, f, use_int, (n - 1) as nat);
        lemma_write_cells(st, b, idx, val, f, use_int, (n - 1) as nat);
        let i = (n - 1) as nat;
        let lit = if use_int { crate::text::decimal(i) } else { crate::smt::ff_literal(crate::text::decimal(i)) };
        assert(lit == index_literal(use_int, i));
        let new_cell = crate::text::memory_text(b as nat, i, f + 1);
        let old_cell = crate::text::memory_text(b as nat, i, f);
        let d = CommandSpec::Declare(new_cell, if use_int { Type::Int } else { Type::FField });
        let t1 = crate::encoding::imp_text(crate::encoding::eq_text(idx, lit), crate::encoding::eq_text(val, new_cell));
        let t2 = crate::encoding::imp_text(crate::encoding::not_text(crate::encoding::eq_text(idx, lit)), crate::encoding::eq_text(old_cell, new_cell));
        let s1 = crate::encoding::with_cmd(s, d);
        let s2 = with_assert(s1, t1);
        let s3 = with_assert(s2, t2);
        assert(s3 == crate::encoding::write_cells(st, b, idx, val, f, use_int, n));
        lemma_one_more(s, s1, d);
        lemma_one_more(s1, s2, CommandSpec::Assert(t1));
        lemma_one_more(s2, s3, CommandSpec::Assert(t2));
        lemma_extends_trans(s, s1, s2);
        lemma_extends_trans(s, s2, s3);
        lemma_extends_trans(st, s, s3);
        lemma_extends_contains(s1, s3, d);
        lemma_extends_contains(s2, s3, CommandSpec::Assert(t1));
        assert forall|k: nat| k < n implies #[trigger] cell_written(s3.cmds, use_int, b, idx, val, f, k) by {
            if k < n - 1 {
                assert(cell_written(s.cmds, use_int, b, idx, val, f, k));
                let litk = index_literal(use_int, k);
                let nk = crate::text::memory_text(b as nat, k, f + 1);
                let ok = crate::text::memory_text(b as nat, k, f);
                lemma_extends_contains(s, s3, CommandSpec::Declare(nk, if use_int { Type::Int } else { Type::FField }));
                lemma_extends_contains(s, s3, CommandSpec::Assert(app_text("=>"@, seq![app_text("="@, seq![idx, litk]), app_text("="@, seq![val, nk])])));
                lemma_extends_contains(s, s3, CommandSpec::Assert(app_text("=>"@, seq![app_text("not"@, seq![app_text("="@, seq![idx, litk])]), app_text("="@, seq![ok, nk])])));
            }
        }
    }
}

/// An expression in the encoding `p` chooses.
pub open spec fn expr_in(p: Params, e: Expression) -> Seq<char> {
    if p.use_int {
        expr_int(e, p.prime)
    } else {
        expr_ff(e)
    }
}

/// Witness `v` is asserted to equal the expression `e`.
pub open spec fn takes_value(s: EncState, p: Params, v: nat, e: Expression) -> bool {
    asserts(s, app_text("="@, seq![witness_text(v), expr_in(p, e)]))
}

/// A write of `value` at `index` to block `b` of `len` cells, after `f`
/// writes: the first fresh witness is the index, equal to the index
/// expression; another fresh witness is the value, equal to the value
/// expression; and for every cell `k`, the new version of the cell holds the
/// written value where the index is `k`, and keeps the previous version's
/// value elsewhere. The write count goes up by one.
pub proof fn lemma_write_sets_cell(
    p: Params,
    st: EncState,
    b: u32,
    index: Expression,
    value: Expression,
    len: nat,
    f: nat,
)
    ensures
        crate::encoding::memory_op(p, st, b, crate::circuit::MemOpKind::Write, index, value, len, f) matches (
            Outcome::Done(s),
            g,
        ) ==> {
            &&& g == f + 1
            &&& extends(st, s)
            &&& takes_value(s, p, st.next, index)
            &&& exists|v: nat| #[trigger] takes_value(s, p, v, value) && forall|k: nat|
                k < len ==> #[trigger] cell_written(s.cmds, p.use_int, b, witness_text(st.next), witness_text(v), f, k)
        },
{
    let idx = witness_text(st.next);
    if crate::encoding::room(st, 1) {
        let t1 = crate::encoding::eq_text(idx, expr_in(p, index));
        let x = if p.use_int { crate::encoding::fresh_int(st, p.prime) } else { fresh(st, Type::FField) };
        let s1 = with_assert(x, t1);
        if p.use_int {
            lemma_fresh_int(st, p.prime);
        } else {
            lemma_one_more(st, x, CommandSpec::Declare(idx, Type::FField));
        }
        lemma_one_more(x, s1, CommandSpec::Assert(t1));
        lemma_extends_trans(st, x, s1);
        lemma_index_bound_extends(s1, st.next, len as u32);
        let r = if p.use_int {
            crate::encoding::range_inclusive_int(s1, st.next, len as u32)
        } else {
            crate::encoding::range_inclusive_ff(s1, st.next, len as u32)
        };
        match r {
            Outcome::Done(s2) => {
                if crate::encoding::room(s2, 1) && f < crate::encoding::max_index() {
                    let v = s2.next;
                    let t2 = crate::encoding::eq_text(witness_text(v), expr_in(p, value));
                    let y = if p.use_int { crate::encoding::fresh_int(s2, p.prime) } else { fresh(s2, Type::FField) };
                    let s3 = with_assert(y, t2);
                    if p.use_int {
                        lemma_fresh_int(s2, p.prime);
                    } else {
                        lemma_one_more(s2, y, CommandSpec::Declare(witness_text(v), Type::FField));
                    }
                    lemma_one_more(y, s3, CommandSpec::Assert(t2));
                    lemma_extends_trans(s2, y, s3);
                    lemma_extends_trans(s1, s2, s3);
                    lemma_extends_trans(st, s1, s3);
                    let s = crate::encoding::write_cells(s3, b, idx, witness_text(v), f, p.use_int, len);
                    lemma_write_cells(s3, b, idx, witness_text(v), f, p.use_int, len);
                    lemma_extends_trans(st, s3, s);
                    lemma_extends_trans(s1, s3, s);
                    lemma_extends_contains(s1, s, CommandSpec::Assert(t1));
                    lemma_extends_contains(s3, s, CommandSpec::Assert(t2));
                    assert(takes_value(s, p, v, value));
                }
            },
            _ => {},
        }
    }
}

/// The commands hold what a read of `val` at index `idx` says of cell `k`
/// of block `b` after `f` writes: where the index is `k`, the value read is
/// the current version of the cell.
pub open spec fn cell_read(cmds: Seq<CommandSpec>, use_int: bool, b: u32, idx: Seq<char>, val: Seq<char>, f: nat, k: nat) -> bool {
    cmds.contains(
        CommandSpec::Assert(
            app_text(
                "=>"@,
                seq![app_text("="@, seq![idx, index_literal(use_int, k)]), app_text("="@, seq![val, crate::text::memory_text(b as nat, k, f)])],
            ),
        ),
    )
}

proof fn lemma_read_cells(st: EncState, b: u32, idx: Seq<char>, val: Seq<char>, f: nat, use_int: bool, n: nat)
    ensures
        extends(st, crate::encoding::read_cells(st, b, idx, val, f, use_int, n)),
        forall|k: nat| k < n ==> #[trigger] cell_read(crate::encoding::read_cells(st, b, idx, val, f, use_int, n).cmds, use_int, b, idx, val, f, k),
    decreases n,
{
    if n == 0 {
        lemma_extends_refl(st);
    } else {
        let s = crate::encoding::read_cells(st, b, idx, val, f, use_int, (n - 1) as nat);
        lemma_read_cells(st, b, idx, val, f, use_int, (n - 1) as nat);
        let i = (n - 1) as nat;
        let lit = if use_int { crate::text::decimal(i) } else { crate::smt::ff_literal(crate::text::decimal(i)) };
        assert(lit == index_literal(use_int, i));
        let t = crate::encoding::imp_text(crate::encoding::eq_text(idx, lit), crate::encoding::eq_text(val, crate::text::memory_text(b as nat, i, f)));
        let s1 = with_assert(s, t);
        assert(s1 == crate::encoding::read_cells(st, b, idx, val, f, use_int, n));
        lemma_one_more(s, s1, CommandSpec::Assert(t));
        lemma_extends_trans(st, s, s1);
        assert forall|k: nat| k < n implies #[trigger] cell_read(s1.cmds, use_int, b, idx, val, f, k) by {
            if k < n - 1 {
                assert(cell_read(s.cmds, use_int, b, idx, val, f, k));
                lemma_extends_contains(s, s1, CommandSpec::Assert(app_text(
                    "=>"@,
                    seq![app_text("="@, seq![idx, index_literal(use_int, k)]), app_text("="@, seq![val, crate::text::memory_text(b as nat, k, f)])],
                )));
            }
        }
    }
}

/// A read of `value` at `index` from block `b` of `len` cells, after `f`
/// writes: the first fresh witness is the index, equal to the index
/// expression; another fresh witness is the value, equal to the value
/// expression; and where the index is `k` the value is the current version
/// of cell `k`. The write count stays.
pub proof fn lemma_read_gets_cell(
    p: Params,
    st: EncState,
    b: u32,
    index: Expression,
    value: Expression,
    len: nat,
    f: nat,
)
    ensures
        crate::encoding::memory_op(p, st, b, crate::circuit::MemOpKind::Read, index, value, len, f) matches (
            Outcome::Done(s),
            g,
        ) ==> {
            &&& g == f
            &&& extends(st, s)
            &&& takes_value(s, p, st.next, index)
            &&& exists|v: nat| #[trigger] takes_value(s, p, v, value) && forall|k: nat|
                k < len ==> #[trigger] cell_read(s.cmds, p.use_int, b, witness_text(st.next), witness_text(v), f, k)
        },
{
    let idx = witness_text(st.next);
    if crate::encoding::room(st, 1) {
        let t1 = crate::encoding::eq_text(idx, expr_in(p, index));
        let x = if p.use_int { crate::encoding::fresh_int(st, p.prime) } else { fresh(st, Type::FField) };
        let s1 = with_assert(x, t1);
        if p.use_int {
            lemma_fresh_int(st, p.prime);
        } else {
            lemma_one_more(st, x, CommandSpec::Declare(idx, Type::FField));
        }
        lemma_one_more(x, s1, CommandSpec::Assert(t1));
        lemma_extends_trans(st, x, s1);
        lemma_index_bound_extends(s1, st.next, len as u32);
        let r = if p.use_int {
            crate::encoding::range_inclusive_int(s1, st.next, len as u32)
        } else {
            crate::encoding::range_inclusive_ff(s1, st.next, len as u32)
        };
        match r {
            Outcome::Done(s2) => {
                if crate::encoding::room(s2, 1) {
                    let v = s2.next;
                    let t2 = crate::encoding::eq_text(witness_text(v), expr_in(p, value));
                    let y = if p.use_int { crate::encoding::fresh_int(s2, p.prime) } else { fresh(s2, Type::FField) };
                    let s3 = with_assert(y, t2);
                    if p.use_int {
                        lemma_fresh_int(s2, p.prime);
                    } else {
                        lemma_one_more(s2, y, CommandSpec::Declare(witness_text(v), Type::FField));
                    }
                    lemma_one_more(y, s3, CommandSpec::Assert(t2));
                    lemma_extends_trans(s2, y, s3);
                    lemma_extends_trans(s1, s2, s3);
                    lemma_extends_trans(st, s1, s3);
                    let s = crate::encoding::read_cells(s3, b, idx, witness_text(v), f, p.use_int, len);
                    lemma_read_cells(s3, b, idx, witness_text(v), f, p.use_int, len);
                    lemma_extends_trans(st, s3, s);
                    lemma_extends_trans(s1, s3, s);
                    lemma_extends_contains(s1, s, CommandSpec::Assert(t1));
                    lemma_extends_contains(s3, s, CommandSpec::Assert(t2));
                    assert(takes_value(s, p, v, value));
                }
            },
            _ => {},
        }
    }
}

/// An `AssertZero` opcode asserts that its expression is 0, in the encoding
/// `p` chooses.
pub proof fn lemma_assert_zero(p: Params, st: EncState, e: Expression)
    ensures
        extends(st, crate::encoding::assert_zero(p, st, e)),
        asserts(
            crate::encoding::assert_zero(p, st, e),
            app_text("="@, seq![expr_in(p, e), if p.use_int { "0"@ } else { "(as ff0 FF)"@ }]),
        ),
{
    let t = app_text("="@, seq![expr_in(p, e), if p.use_int { "0"@ } else { "(as ff0 FF)"@ }]);
    lemma_one_more(st, crate::encoding::assert_zero(p, st, e), CommandSpec::Assert(t));
}

/// Witness `x` stands for the condition `e`, and activation literal `a`
/// makes the condition false: `e = x`, `a => x = 0`, `not a => x = 1`.
pub open spec fn checks_condition(s: EncState, p: Params, a: Seq<char>, e: Expression, x: nat) -> bool {
    let w = witness_text(x);
    let zero = if p.use_int { "0"@ } else { "(as ff0 FF)"@ };
    let one = if p.use_int { "1"@ } else { "(as ff1 FF)"@ };
    &&& asserts(s, app_text("="@, seq![expr_in(p, e), w]))
    &&& asserts(s, app_text("=>"@, seq![a, app_text("="@, seq![w, zero])]))
    &&& asserts(s, app_text("=>"@, seq![app_text("not"@, seq![a]), app_text("="@, seq![w, one])]))
}

/// Condition number `c` is `e`, at location `loc`: its activation literal
/// is declared and recorded, and checks the condition.
pub open spec fn condition_encoded(s: EncState, p: Params, loc: usize, e: Expression, c: nat) -> bool {
    let a = crate::text::actlit_text(c);
    &&& c < s.ver_conds.len()
    &&& s.ver_conds[c as int] == (a, loc)
    &&& s.cmds.contains(CommandSpec::Declare(a, Type::Bool))
    &&& exists|x: nat| #[trigger] checks_condition(s, p, a, e, x)
}

/// Every command and condition of `a` is still there, first, in `b`.
pub open spec fn continues(a: EncState, b: EncState) -> bool {
    extends(a, b) && a.ver_conds.is_prefix_of(b.ver_conds)
}

proof fn lemma_continues_trans(a: EncState, b: EncState, c: EncState)
    requires
        continues(a, b),
        continues(b, c),
    ensures
        continues(a, c),
{
    lemma_extends_trans(a, b, c);
    assert(a.ver_conds =~= c.ver_conds.subrange(0, a.ver_conds.len() as int)) by {
        assert forall|q: int| 0 <= q < a.ver_conds.len() implies a.ver_conds[q] == c.ver_conds[q] by {
            assert(a.ver_conds[q] == b.ver_conds.subrange(0, a.ver_conds.len() as int)[q]);
            assert(b.ver_conds[q] == c.ver_conds.subrange(0, b.ver_conds.len() as int)[q]);
        }
    }
}

/// What holds of a state holds of every state that continues it.
proof fn lemma_condition_kept(s: EncState, t: EncState, p: Params, loc: usize, e: Expression, c: nat)
    requires
        continues(s, t),
        condition_encoded(s, p, loc, e, c),
    ensures
        condition_encoded(t, p, loc, e, c),
{
    let a = crate::text::actlit_text(c);
    let x = choose|x: nat| #[trigger] checks_condition(s, p, a, e, x);
    let w = witness_text(x);
    let zero = if p.use_int { "0"@ } else { "(as ff0 FF)"@ };
    let one = if p.use_int { "1"@ } else { "(as ff1 FF)"@ };
    lemma_extends_contains(s, t, CommandSpec::Declare(a, Type::Bool));
    lemma_extends_contains(s, t, CommandSpec::Assert(app_text("="@, seq![expr_in(p, e), w])));
    lemma_extends_contains(s, t, CommandSpec::Assert(app_text("=>"@, seq![a, app_text("="@, seq![w, zero])])));
    lemma_extends_contains(s, t, CommandSpec::Assert(app_text("=>"@, seq![app_text("not"@, seq![a]), app_text("="@, seq![w, one])])));
    assert(t.ver_conds[c as int] == t.ver_conds.subrange(0, s.ver_conds.len() as int)[c as int]);
    assert(checks_condition(t, p, a, e, x));
}

/// One verification condition: it is recorded as the next one, at `loc`,
/// and checks `e`.
proof fn lemma_verify_condition(p: Params, st: EncState, loc: usize, e: Expression)
    requires
        st.ver_conds.len() <= u32::MAX,
    ensures
        continues(st, crate::encoding::verify_condition(p, st, loc, e)),
        crate::encoding::verify_condition(p, st, loc, e).ver_conds.len() == st.ver_conds.len() + 1,
        condition_encoded(crate::encoding::verify_condition(p, st, loc, e), p, loc, e, st.ver_conds.len()),
{
    let c = st.ver_conds.len();
    let a = crate::text::actlit_text((c as u32) as nat);
    assert((c as u32) as nat == c);
    let s1 = EncState { cmds: st.cmds.push(CommandSpec::Declare(a, Type::Bool)), ver_conds: st.ver_conds.push((a, loc)), ..st };
    lemma_one_more(st, s1, CommandSpec::Declare(a, Type::Bool));
    assert(st.ver_conds =~= s1.ver_conds.subrange(0, c as int));
    let x = s1.next;
    let w = witness_text(x);
    let zero = if p.use_int { "0"@ } else { "(as ff0 FF)"@ };
    let one = if p.use_int { "1"@ } else { "(as ff1 FF)"@ };
    let t1 = app_text("="@, seq![expr_in(p, e), w]);
    let t2 = app_text("=>"@, seq![a, app_text("="@, seq![w, zero])]);
    let t3 = app_text("=>"@, seq![app_text("not"@, seq![a]), app_text("="@, seq![w, one])]);
    let y = if p.use_int { crate::encoding::fresh_int(s1, p.prime) } else { fresh(s1, Type::FField) };
    if p.use_int {
        lemma_fresh_int(s1, p.prime);
    } else {
        lemma_one_more(s1, y, CommandSpec::Declare(w, Type::FField));
    }
    let s2 = with_assert(y, t1);
    let s3 = with_assert(s2, t2);
    let s4 = with_assert(s3, t3);
    assert(s4 == crate::encoding::verify_condition(p, st, loc, e));
    lemma_one_more(y, s2, CommandSpec::Assert(t1));
    lemma_one_more(s2, s3, CommandSpec::Assert(t2));
    lemma_one_more(s3, s4, CommandSpec::Assert(t3));
    lemma_extends_trans(s1, y, s2);
    lemma_extends_trans(s1, s2, s3);
    lemma_extends_trans(s1, s3, s4);
    lemma_extends_trans(st, s1, s4);
    lemma_extends_trans(s2, s3, s4);
    lemma_extends_contains(s1, s4, CommandSpec::Declare(a, Type::Bool));
    lemma_extends_contains(s2, s4, CommandSpec::Assert(t1));
    lemma_extends_contains(s3, s4, CommandSpec::Assert(t2));
    assert(s4.ver_conds == s1.ver_conds);
    assert(checks_condition(s4, p, a, e, x));
}

/// The inputs of an assertion from the `i`-th on each become the next
/// verification condition, in order.
proof fn lemma_assert_inputs(p: Params, st: EncState, loc: usize, inputs: Seq<BrilligInputs>, i: nat)
    requires
        i <= inputs.len(),
        st.ver_conds.len() + inputs.len() - i <= u32::MAX,
    ensures
        crate::encoding::verify_assert_inputs(p, st, loc, inputs, true, i) matches Outcome::Done(s) ==> {
            &&& continues(st, s)
            &&& s.ver_conds.len() == st.ver_conds.len() + inputs.len() - i
            &&& forall|j: int|
                i <= j < inputs.len() ==> ((#[trigger] inputs[j]) matches BrilligInputs::Single(e) && condition_encoded(
                    s,
                    p,
                    loc,
                    e,
                    (st.ver_conds.len() + j - i) as nat,
                ))
        },
    decreases inputs.len() - i,
{
    if i >= inputs.len() {
        lemma_extends_refl(st);
        assert(st.ver_conds =~= st.ver_conds.subrange(0, st.ver_conds.len() as int));
    } else {
        match inputs[i as int] {
            BrilligInputs::Single(e) => {
                if crate::encoding::room(st, 1) {
                    let s1 = crate::encoding::verify_condition(p, st, loc, e);
                    lemma_verify_condition(p, st, loc, e);
                    lemma_assert_inputs(p, s1, loc, inputs, i + 1);
                    match crate::encoding::verify_assert_inputs(p, s1, loc, inputs, true, i + 1) {
                        Outcome::Done(s) => {
                            lemma_continues_trans(st, s1, s);
                            lemma_condition_kept(s1, s, p, loc, e, st.ver_conds.len());
                        },
                        _ => {},
                    }
                }
            },
            _ => {},
        }
    }
}

/// A `verify_assert` call under predicate 1 makes each of its inputs a
/// verification condition, numbered after the earlier ones in the order of
/// the inputs, at the call's location: the condition's activation literal
/// forces the input to 0, so asking for a model under it asks whether the
/// input can be false.
pub proof fn lemma_assert_makes_conditions(
    p: Params,
    st: EncState,
    loc: usize,
    id: u32,
    inputs: Seq<BrilligInputs>,
    outputs: Seq<BrilligOutputs>,
    predicate: Expression,
)
    requires
        id < p.names.len(),
        p.names[id as int] == "verify_assert"@,
        predicate.spec_is_one(),
        st.ver_conds.len() + inputs.len() <= u32::MAX,
    ensures
        brillig_call(p, st, loc, id, inputs, outputs, predicate) matches Outcome::Done(s) ==> {
            &&& continues(st, s)
            &&& s.ver_conds.len() == st.ver_conds.len() + inputs.len()
            &&& forall|j: int|
                0 <= j < inputs.len() ==> ((#[trigger] inputs[j]) matches BrilligInputs::Single(e) && condition_encoded(
                    s,
                    p,
                    loc,
                    e,
                    (st.ver_conds.len() + j) as nat,
                ))
        },
{
    lemma_assert_inputs(p, st, loc, inputs, 0);
}

} // verus!
