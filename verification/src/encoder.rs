//! The encoder: walks a circuit and produces the SMT commands that describe it.

use vstd::arithmetic::power2::pow2;
use vstd::prelude::*;
use vstd::string::{StrSliceExecFns, StringExecFns};

use crate::circuit::{
    MemOp, BlackBoxFuncCall, BlockType, BrilligInputs, BrilligOutputs, Circuit, Expression,
    FunctionInput, MemOpKind, Opcode, Witness,
};
use crate::encoding::{
    and, and_bits_ff, and_msg, and_terms_int, array_input_msg, assert_zero, bit_len, bit_names,
    bit_of, bitsum_ff, lemma_bools_next, lemma_memory_ops_stop, lemma_first_pass_stops, lemma_second_pass_stops, lemma_halve, halve, bitsum_int, black_box, block_type_msg, bool_text, bools_ff, bools_int,
    brillig_call, call_msg, chain, declare_witnesses, empty_print_msg, eq_text, expr_ff,
    expr_int, find_trace, first_pass, fresh, fresh_int, imp_text, init_trace, int_range,
    length_msg, lin_term_ff, lin_term_int, lt_text, memory_array_input_msg, memory_block,
    memory_cells, memory_init, memory_op, memory_ops, memory_order_msg, mul_term_ff,
    mul_term_int, not_text, num_vars_msg, opcode_step, overflow_msg, pow_terms,
    predicate_msg, print_output_msg, range, range_inclusive_ff, range_inclusive_int,
    read_cells, room, second_pass, strictly, sum_text, terms_ff, terms_int, translate,
    unsupported_msg, verify_assert_inputs, verify_assume_inputs, verify_condition,
    verify_print, witness_values, with_assert, with_cmd, write_cells, write_count_msg,
    written_negative, EncState, Outcome, Params, Pass, TraceSpec, ff_zero, ff_one, wt,
    fv_text, assert_func_name, assume_func_name, print_func_name,
};
use crate::error::Error;
use crate::field::{field_prime, FieldValue};
use crate::smt::{app_text, ff_literal, ff_texts, int_texts, lemma_ff_texts_push, lemma_int_texts_push, Bool, Command, CommandSpec, FField, Int, Type};
use crate::text::{
    actlit_name, actlit_text, decimal, lemma_decimal_digits, memory_name, memory_text, pow2_text, push_decimal,
    witness_name, witness_text,
};

verus! {

/// Whether the exec result of an encoding step and the state it left match
/// the outcome that the encoding prescribes.
pub open spec fn reached(res: Result<(), Error>, st: EncState, o: Outcome) -> bool {
    match o {
        Outcome::Done(s) => res is Ok && st == s,
        Outcome::Failed(s, m) => (res matches Err(Error::EncodingError(e)) && e@ == m) && st == s,
        Outcome::Halted(m) => res matches Err(Error::InvalidCircuit(e)) && e@ == m,
    }
}

/// The encoder of one circuit: the commands it has sent so far and what it
/// keeps about the verification conditions and printed witnesses.
pub struct Translator {
    brillig_funcs: Vec<String>,
    next_witness_index: u32,
    use_int: bool,
    strict: bool,
    prime: String,
    ver_conds: Vec<(String, usize)>,
    print_locs: Vec<(u32, usize)>,
    commands: Vec<Command>,
}

fn overflow_error() -> (e: Error)
    ensures
        e matches Error::InvalidCircuit(m) && m@ == overflow_msg(),
{
    Error::InvalidCircuit(String::from_str("witness index overflow"))
}

fn duplicate_all(v: &Vec<FField>) -> (r: Vec<FField>)
    ensures
        ff_texts(r@) == ff_texts(v@),
{
    let mut r: Vec<FField> = Vec::new();
    let mut i: usize = 0;
    while i < v.len()
        invariant
            i <= v.len(),
            ff_texts(r@) == ff_texts(v@).take(i as int),
        decreases v.len() - i,
    {
        let x = v[i].duplicate();
        proof {
            lemma_ff_texts_push(r@, x);
        }
        r.push(x);
        i += 1;
        assert(ff_texts(r@) =~= ff_texts(v@).take(i as int));
    }
    assert(ff_texts(v@).take(i as int) =~= ff_texts(v@));
    r
}

impl Translator {
    /// The settings of the encoding.
    pub closed spec fn params(&self) -> Params {
        Params {
            use_int: self.use_int,
            strict: self.strict,
            prime: self.prime@,
            names: self.brillig_funcs@.map_values(|s: String| s@),
        }
    }

    /// What the encoder has produced.
    pub closed spec fn state(&self) -> EncState {
        EncState {
            next: self.next_witness_index as nat,
            cmds: self.commands@.map_values(|c: Command| c@),
            ver_conds: self.ver_conds@.map_values(|v: (String, usize)| (v.0@, v.1)),
            print_locs: self.print_locs@,
        }
    }

    /// A new encoder for a circuit whose witnesses are numbered below
    /// `next_witness_index`; `brillig_names[i]` is the name of the
    /// unconstrained function of index `i`.
    pub fn new(
        brillig_names: Vec<String>,
        next_witness_index: u32,
        use_int: bool,
        strict: bool,
        prime: String,
    ) -> (t: Translator)
        requires
            prime@ == decimal(field_prime()),
        ensures
            t.params() == (Params {
                use_int,
                strict,
                prime: prime@,
                names: brillig_names@.map_values(|s: String| s@),
            }),
            t.state() == (EncState {
                next: next_witness_index as nat,
                cmds: Seq::empty(),
                ver_conds: Seq::empty(),
                print_locs: Seq::empty(),
            }),
    {
        let t = Translator {
            brillig_funcs: brillig_names,
            next_witness_index,
            use_int,
            strict,
            prime,
            ver_conds: Vec::new(),
            print_locs: Vec::new(),
            commands: Vec::new(),
        };
        assert(t.state().cmds =~= Seq::empty());
        assert(t.state().ver_conds =~= Seq::empty());
        t
    }

    fn push_command(&mut self, c: Command)
        ensures
            final(self).params() == old(self).params(),
            final(self).state() == with_cmd(old(self).state(), c@),
    {
        let ghost c_view = c@;
        self.commands.push(c);
        assert(self.state().cmds =~= old(self).state().cmds.push(c_view));
    }

    fn assert_term(&mut self, b: Bool)
        ensures
            final(self).params() == old(self).params(),
            final(self).state() == with_assert(old(self).state(), b@),
    {
        self.push_command(Command::Assert(b));
    }

    fn declare_const(&mut self, name: String, ty: Type)
        ensures
            final(self).params() == old(self).params(),
            final(self).state() == with_cmd(old(self).state(), CommandSpec::Declare(name@, ty)),
    {
        self.push_command(Command::DeclareConst(name, ty));
    }

    /// Declares the next fresh witness, of sort `ty`, and gives its name.
    fn fresh_name(&mut self, ty: Type) -> (r: Result<String, Error>)
        ensures
            final(self).params() == old(self).params(),
            match r {
                Ok(name) => room(old(self).state(), 1) && final(self).state() == fresh(old(self).state(), ty)
                    && name@ == witness_text(old(self).state().next),
                Err(e) => !room(old(self).state(), 1) && (e matches Error::InvalidCircuit(m) && m@ == overflow_msg()),
            },
    {
        if self.next_witness_index == u32::MAX {
            return Err(overflow_error());
        }
        let name = witness_name(self.next_witness_index);
        self.next_witness_index = self.next_witness_index + 1;
        let ghost mid = self.state();
        self.declare_const(name.clone(), ty);
        Ok(name)
    }

    /// A fresh field witness.
    fn new_witness(&mut self) -> (r: Result<FField, Error>)
        ensures
            final(self).params() == old(self).params(),
            match r {
                Ok(f) => room(old(self).state(), 1) && final(self).state() == fresh(old(self).state(), Type::FField)
                    && f@ == witness_text(old(self).state().next),
                Err(e) => !room(old(self).state(), 1) && (e matches Error::InvalidCircuit(m) && m@ == overflow_msg()),
            },
    {
        let name = self.fresh_name(Type::FField)?;
        Ok(FField::new_const(name.as_str()))
    }

    /// Bounds integer witness `x` to `[0, prime)`.
    fn encode_int_range_of(&mut self, x: &String)
        ensures
            final(self).params() == old(self).params(),
            final(self).state() == int_range(old(self).state(), x@, final(self).params().prime),
    {
        let wit = Int::new_const(x.as_str());
        let minus_one = Int::new_value("-1");
        self.assert_term(minus_one.lt(wit.duplicate()));
        let prime_int = Int::new_value(self.prime.as_str());
        self.assert_term(wit.lt(prime_int));
    }

    /// A fresh integer witness bounded to `[0, prime)`.
    fn new_witness_int(&mut self) -> (r: Result<Int, Error>)
        ensures
            final(self).params() == old(self).params(),
            match r {
                Ok(f) => room(old(self).state(), 1) && final(self).state() == fresh_int(old(self).state(), final(self).params().prime)
                    && f@ == witness_text(old(self).state().next),
                Err(e) => !room(old(self).state(), 1) && (e matches Error::InvalidCircuit(m) && m@ == overflow_msg()),
            },
    {
        let name = self.fresh_name(Type::Int)?;
        self.encode_int_range_of(&name);
        Ok(Int::new_const(name.as_str()))
    }

    /// A fresh integer witness bounded to `[0, 2)`.
    fn new_witness_int_bool(&mut self) -> (r: Result<Int, Error>)
        ensures
            final(self).params() == old(self).params(),
            match r {
                Ok(f) => room(old(self).state(), 1) && f@ == witness_text(old(self).state().next)
                    && final(self).state() == with_assert(
                        with_assert(fresh(old(self).state(), Type::Int), lt_text("-1"@, f@)),
                        lt_text(f@, "2"@),
                    ),
                Err(e) => !room(old(self).state(), 1) && (e matches Error::InvalidCircuit(m) && m@ == overflow_msg()),
            },
    {
        let name = self.fresh_name(Type::Int)?;
        let wit = Int::new_const(name.as_str());
        self.assert_term(Int::new_value("-1").lt(wit.duplicate()));
        self.assert_term(wit.duplicate().lt(Int::new_value("2")));
        Ok(wit)
    }

    /// A fresh field witness constrained to be 0 or 1.
    fn encode_bool(&mut self) -> (r: Result<FField, Error>)
        ensures
            final(self).params() == old(self).params(),
            match r {
                Ok(f) => room(old(self).state(), 1) && f@ == witness_text(old(self).state().next)
                    && final(self).state() == with_assert(fresh(old(self).state(), Type::FField), bool_text(f@)),
                Err(e) => !room(old(self).state(), 1) && (e matches Error::InvalidCircuit(m) && m@ == overflow_msg()),
            },
    {
        let res = self.new_witness()?;
        let zero = FField::zero();
        let minus_one = FField::new_value("-1");
        self.assert_term(res.duplicate().mul(res.duplicate().add(minus_one)).eq(zero));
        Ok(res)
    }

    /// Decomposes `witness` into `num_bits` fresh field bits: `witness = ff.bitsum(bits)`.
    fn encode_bitsum(&mut self, witness: Witness, num_bits: usize) -> (r: Result<Vec<FField>, Error>)
        requires
            num_bits >= 1,
        ensures
            final(self).params() == old(self).params(),
            match r {
                Ok(bits) => bitsum_ff(old(self).state(), witness.0 as nat, num_bits as nat) == Outcome::Done(final(self).state())
                    && ff_texts(bits@) == bit_names(old(self).state().next, num_bits as nat),
                Err(e) => bitsum_ff(old(self).state(), witness.0 as nat, num_bits as nat) == Outcome::Halted(overflow_msg())
                    && (e matches Error::InvalidCircuit(m) && m@ == overflow_msg()),
            },
    {
        let ghost st0 = old(self).state();
        let mut res: Vec<FField> = Vec::new();
        let mut k: usize = 0;
        while k < num_bits
            invariant
                k <= num_bits,
                st0 == old(self).state(),
                self.params() == old(self).params(),
                self.state() == bools_ff(st0, k as nat),
                self.state().next == st0.next + k,
                ff_texts(res@) == bit_names(st0.next, k as nat),
            decreases num_bits - k,
        {
            let out_i = match self.encode_bool() {
                Ok(b) => b,
                Err(e) => {
                    return Err(e);
                },
            };
            proof {
                lemma_ff_texts_push(res@, out_i);
            }
            res.push(out_i);
            k += 1;
            assert(ff_texts(res@) =~= bit_names(st0.next, k as nat));
        }
        let exp = if num_bits == 1 {
            res[0].duplicate()
        } else {
            FField::rbitsum(duplicate_all(&res))
        };
        let wit = FField::new_const(witness_name(witness.0).as_str());
        self.assert_term(wit.eq(exp));
        Ok(res)
    }

    /// Decomposes `witness` into `num_bits` fresh integer bits: `witness = sum 2^i * bits[i]`.
    fn encode_bitsum_int(&mut self, witness: Witness, num_bits: usize) -> (r: Result<Vec<Int>, Error>)
        requires
            1 <= num_bits <= u32::MAX,
        ensures
            final(self).params() == old(self).params(),
            match r {
                Ok(bits) => bitsum_int(old(self).state(), witness.0 as nat, num_bits as nat) == Outcome::Done(final(self).state())
                    && int_texts(bits@) == bit_names(old(self).state().next, num_bits as nat),
                Err(e) => bitsum_int(old(self).state(), witness.0 as nat, num_bits as nat) == Outcome::Halted(overflow_msg())
                    && (e matches Error::InvalidCircuit(m) && m@ == overflow_msg()),
            },
    {
        let ghost st0 = old(self).state();
        let mut bits: Vec<Int> = Vec::new();
        let mut k: usize = 0;
        while k < num_bits
            invariant
                k <= num_bits,
                st0 == old(self).state(),
                self.params() == old(self).params(),
                self.state() == bools_int(st0, k as nat),
                self.state().next == st0.next + k,
                int_texts(bits@) == bit_names(st0.next, k as nat),
            decreases num_bits - k,
        {
            let b = match self.new_witness_int_bool() {
                Ok(b) => b,
                Err(e) => {
                    return Err(e);
                },
            };
            proof {
                lemma_int_texts_push(bits@, b);
            }
            bits.push(b);
            k += 1;
            assert(int_texts(bits@) =~= bit_names(st0.next, k as nat));
        }
        let ghost names = bit_names(st0.next, num_bits as nat);
        let mut terms: Vec<Int> = Vec::new();
        let mut i: usize = 0;
        while i < num_bits
            invariant
                i <= num_bits <= u32::MAX,
                bits.len() == num_bits,
                int_texts(bits@) == names,
                int_texts(terms@) == pow_terms(names).take(i as int),
            decreases num_bits - i,
        {
            let coeff = pow2_text(i as u32);
            let c = Int::new_value(coeff.as_str());
            let b = bits[i].duplicate();
            let ghost pair = seq![c@, b@];
            let v = vec![c, b];
            assert(int_texts(v@) =~= pair);
            let t = Int::rmul(v);
            assert(t@ == pow_terms(names)[i as int]) by {
                assert(int_texts(bits@)[i as int] == names[i as int]);
            }
            proof {
                lemma_int_texts_push(terms@, t);
            }
            terms.push(t);
            i += 1;
            assert(int_texts(terms@) =~= pow_terms(names).take(i as int));
        }
        assert(pow_terms(names).take(i as int) =~= pow_terms(names));
        let sum = if terms.len() == 1 {
            terms.remove(0)
        } else {
            Int::radd(terms)
        };
        let wit = Int::new_const(witness_name(witness.0).as_str());
        self.assert_term(wit.eq(sum));
        Ok(bits)
    }
}

impl Translator {
    fn new_const(&self, witness: Witness) -> (r: FField)
        ensures
            r@ == wt(witness),
    {
        FField::new_const(witness_name(witness.0).as_str())
    }

    fn new_const_int(&self, witness: Witness) -> (r: Int)
        ensures
            r@ == wt(witness),
    {
        Int::new_const(witness_name(witness.0).as_str())
    }

    fn new_element(&self, element: &FieldValue) -> (r: FField)
        ensures
            r@ == ff_literal(fv_text(*element)),
    {
        FField::new_value(element.to_text().as_str())
    }

    fn new_element_int(&self, element: &FieldValue) -> (r: Int)
        ensures
            r@ == fv_text(*element),
    {
        Int::new_value(element.to_text().as_str())
    }

    fn prime_int(&self) -> (r: Int)
        ensures
            r@ == self.params().prime,
    {
        Int::new_value(self.prime.as_str())
    }

    /// An expression in the field encoding.
    fn translate_expression(&self, expression: &Expression) -> (r: FField)
        ensures
            r@ == expr_ff(*expression),
    {
        let ghost muls = expression.mul_terms@.map_values(|t: (FieldValue, Witness, Witness)| mul_term_ff(t));
        let ghost lins = expression.linear_combinations@.map_values(|t: (FieldValue, Witness)| lin_term_ff(t));
        let mut exps: Vec<FField> = Vec::new();
        let mut i: usize = 0;
        while i < expression.mul_terms.len()
            invariant
                i <= expression.mul_terms.len(),
                muls == expression.mul_terms@.map_values(|t: (FieldValue, Witness, Witness)| mul_term_ff(t)),
                ff_texts(exps@) == muls.take(i as int),
            decreases expression.mul_terms.len() - i,
        {
            let mul_term = &expression.mul_terms[i];
            let element = self.new_element(&mul_term.0);
            let wit0 = self.new_const(mul_term.1);
            let wit1 = self.new_const(mul_term.2);
            let ghost triple = seq![element@, wit0@, wit1@];
            let v = vec![element, wit0, wit1];
            assert(ff_texts(v@) =~= triple);
            let t = FField::rmul(v);
            proof {
                lemma_ff_texts_push(exps@, t);
            }
            exps.push(t);
            i += 1;
            assert(ff_texts(exps@) =~= muls.take(i as int));
        }
        assert(muls.take(i as int) =~= muls);
        let mut j: usize = 0;
        while j < expression.linear_combinations.len()
            invariant
                j <= expression.linear_combinations.len(),
                lins == expression.linear_combinations@.map_values(|t: (FieldValue, Witness)| lin_term_ff(t)),
                ff_texts(exps@) == muls + lins.take(j as int),
            decreases expression.linear_combinations.len() - j,
        {
            let lin_term = &expression.linear_combinations[j];
            let element = self.new_element(&lin_term.0);
            let wit = self.new_const(lin_term.1);
            let ghost pair = seq![element@, wit@];
            let v = vec![element, wit];
            assert(ff_texts(v@) =~= pair);
            let t = FField::rmul(v);
            proof {
                lemma_ff_texts_push(exps@, t);
            }
            exps.push(t);
            j += 1;
            assert(ff_texts(exps@) =~= muls + lins.take(j as int));
        }
        assert(lins.take(j as int) =~= lins);
        assert(ff_texts(exps@) == terms_ff(*expression));
        let element = FField::new_value(expression.q_c.to_text().as_str());
        if exps.len() == 0 {
            element
        } else {
            proof {
                lemma_ff_texts_push(exps@, element);
            }
            exps.push(element);
            FField::radd(exps)
        }
    }

    /// An expression in the integer encoding.
    fn translate_expression_int(&self, expression: &Expression) -> (r: Int)
        ensures
            r@ == expr_int(*expression, self.params().prime),
    {
        let ghost muls = expression.mul_terms@.map_values(|t: (FieldValue, Witness, Witness)| mul_term_int(t));
        let ghost lins = expression.linear_combinations@.map_values(|t: (FieldValue, Witness)| lin_term_int(t));
        let mut exps: Vec<Int> = Vec::new();
        let mut i: usize = 0;
        while i < expression.mul_terms.len()
            invariant
                i <= expression.mul_terms.len(),
                muls == expression.mul_terms@.map_values(|t: (FieldValue, Witness, Witness)| mul_term_int(t)),
                int_texts(exps@) == muls.take(i as int),
            decreases expression.mul_terms.len() - i,
        {
            let mul_term = &expression.mul_terms[i];
            let element = self.new_element_int(&mul_term.0);
            let wit0 = self.new_const_int(mul_term.1);
            let wit1 = self.new_const_int(mul_term.2);
            let ghost triple = seq![element@, wit0@, wit1@];
            let v = vec![element, wit0, wit1];
            assert(int_texts(v@) =~= triple);
            let t = Int::rmul(v);
            proof {
                lemma_int_texts_push(exps@, t);
            }
            exps.push(t);
            i += 1;
            assert(int_texts(exps@) =~= muls.take(i as int));
        }
        assert(muls.take(i as int) =~= muls);
        let mut j: usize = 0;
        while j < expression.linear_combinations.len()
            invariant
                j <= expression.linear_combinations.len(),
                lins == expression.linear_combinations@.map_values(|t: (FieldValue, Witness)| lin_term_int(t)),
                int_texts(exps@) == muls + lins.take(j as int),
            decreases expression.linear_combinations.len() - j,
        {
            let lin_term = &expression.linear_combinations[j];
            let element = self.new_element_int(&lin_term.0);
            let wit = self.new_const_int(lin_term.1);
            let ghost pair = seq![element@, wit@];
            let v = vec![element, wit];
            assert(int_texts(v@) =~= pair);
            let t = Int::rmul(v);
            proof {
                lemma_int_texts_push(exps@, t);
            }
            exps.push(t);
            j += 1;
            assert(int_texts(exps@) =~= muls + lins.take(j as int));
        }
        assert(lins.take(j as int) =~= lins);
        assert(int_texts(exps@) == terms_int(*expression));
        let element = Int::new_value(expression.q_c.to_text().as_str());
        if exps.len() == 0 {
            element
        } else {
            proof {
                lemma_int_texts_push(exps@, element);
            }
            exps.push(element);
            let prime = self.prime_int();
            Int::modu(Int::radd(exps), prime)
        }
    }

    /// `expression = 0`.
    fn translate_assert_zero(&mut self, expression: &Expression)
        ensures
            final(self).params() == old(self).params(),
            final(self).state() == assert_zero(old(self).params(), old(self).state(), *expression),
    {
        if self.use_int {
            let exp = self.translate_expression_int(expression);
            let zero = Int::zero();
            self.assert_term(exp.eq(zero));
        } else {
            let exp = self.translate_expression(expression);
            let zero = FField::zero();
            self.assert_term(exp.eq(zero));
        }
    }

    /// `input` fits in `num_bits` bits.
    fn translate_range(&mut self, input: &FunctionInput, num_bits: u32) -> (r: Result<(), Error>)
        ensures
            final(self).params() == old(self).params(),
            reached(r, final(self).state(), range(old(self).params(), old(self).state(), *input, num_bits)),
    {
        match input {
            FunctionInput::Constant(_) => Ok(()),
            FunctionInput::Witness(witness) => {
                if self.use_int {
                    self.translate_range_int(*witness, num_bits);
                    Ok(())
                } else {
                    self.translate_range_bitsum(*witness, num_bits)
                }
            },
        }
    }

    fn translate_range_int(&mut self, witness: Witness, num_bits: u32)
        requires
            old(self).params().use_int,
        ensures
            final(self).params() == old(self).params(),
            range(old(self).params(), old(self).state(), FunctionInput::Witness(witness), num_bits)
                == Outcome::Done(final(self).state()),
    {
        if num_bits == 0 {
            let wit = self.new_const_int(witness);
            self.assert_term(wit.eq(Int::zero()));
            return;
        }
        let wit = self.new_const_int(witness);
        let minus_one = Int::new_value("-1");
        self.assert_term(minus_one.lt(wit.duplicate()));
        let value = Int::new_value(pow2_text(num_bits).as_str());
        self.assert_term(wit.lt(value));
    }

    fn translate_range_bitsum(&mut self, witness: Witness, num_bits: u32) -> (r: Result<(), Error>)
        requires
            !old(self).params().use_int,
        ensures
            final(self).params() == old(self).params(),
            reached(r, final(self).state(), range(old(self).params(), old(self).state(), FunctionInput::Witness(witness), num_bits)),
    {
        if num_bits == 0 {
            let wit = self.new_const(witness);
            self.assert_term(wit.eq(FField::zero()));
            return Ok(());
        }
        self.encode_bitsum(witness, num_bits as usize)?;
        Ok(())
    }
}

fn encoding_error(msg: &'static str) -> (e: Error)
    ensures
        e matches Error::EncodingError(m) && m@ == msg@,
{
    Error::EncodingError(String::from_str(msg))
}

fn invalid_circuit(msg: &'static str) -> (e: Error)
    ensures
        e matches Error::InvalidCircuit(m) && m@ == msg@,
{
    Error::InvalidCircuit(String::from_str(msg))
}

fn unsupported(name: &'static str) -> (e: Error)
    ensures
        e matches Error::EncodingError(m) && m@ == unsupported_msg(name@),
{
    Error::EncodingError(String::from_str(name).concat(" black box function is not supported"))
}

impl Translator {
    fn translate_and(&mut self, lhs: &FunctionInput, rhs: &FunctionInput, num_bits: u32, output: Witness) -> (r: Result<(), Error>)
        ensures
            final(self).params() == old(self).params(),
            reached(r, final(self).state(), and(old(self).params(), old(self).state(), *lhs, *rhs, num_bits, output)),
    {
        let lhs_witness = match lhs {
            FunctionInput::Witness(w) => *w,
            FunctionInput::Constant(_) => {
                return Err(encoding_error("Constant input to AND is not supported"));
            },
        };
        let rhs_witness = match rhs {
            FunctionInput::Witness(w) => *w,
            FunctionInput::Constant(_) => {
                return Err(encoding_error("Constant input to AND is not supported"));
            },
        };
        if self.use_int {
            self.encode_and_int(lhs_witness, rhs_witness, num_bits, output)
        } else {
            self.encode_and_ff(lhs_witness, rhs_witness, num_bits, output)
        }
    }

    /// `output` is the bitwise AND of `lhs` and `rhs` over `num_bits` bits,
    /// through their decompositions: `output = ff.bitsum(l_i * r_i)`.
    fn encode_and_ff(&mut self, lhs: Witness, rhs: Witness, num_bits: u32, output: Witness) -> (r: Result<(), Error>)
        requires
            !old(self).params().use_int,
        ensures
            final(self).params() == old(self).params(),
            reached(r, final(self).state(), and(old(self).params(), old(self).state(),
                FunctionInput::Witness(lhs), FunctionInput::Witness(rhs), num_bits, output)),
    {
        let ghost st0 = old(self).state();
        let ghost n = num_bits as nat;
        if num_bits == 0 {
            let out = self.new_const(output);
            self.assert_term(out.eq(FField::zero()));
            return Ok(());
        }
        let lhs_bits = match self.encode_bitsum(lhs, num_bits as usize) {
            Ok(b) => b,
            Err(e) => {
                return Err(e);
            },
        };
        let ghost st1 = self.state();
        proof {
            lemma_bools_next(st0, n);
        }
        assert(st1.next == st0.next + n);
        let rhs_bits = match self.encode_bitsum(rhs, num_bits as usize) {
            Ok(b) => b,
            Err(e) => {
                assert(!room(st0, 2 * n));
                return Err(e);
            },
        };
        assert(room(st0, 2 * n));
        let ghost lnames = bit_names(st0.next, n);
        let ghost rnames = bit_names(st1.next, n);
        let mut and_bits: Vec<FField> = Vec::new();
        let mut i: usize = 0;
        while i < num_bits as usize
            invariant
                i <= num_bits,
                lhs_bits.len() == num_bits,
                rhs_bits.len() == num_bits,
                ff_texts(lhs_bits@) == lnames,
                ff_texts(rhs_bits@) == rnames,
                lnames.len() == n,
                n == num_bits,
                ff_texts(and_bits@) == and_bits_ff(lnames, rnames).take(i as int),
            decreases num_bits - i,
        {
            let t = lhs_bits[i].duplicate().mul(rhs_bits[i].duplicate());
            assert(t@ == and_bits_ff(lnames, rnames)[i as int]) by {
                assert(ff_texts(lhs_bits@)[i as int] == lnames[i as int]);
                assert(ff_texts(rhs_bits@)[i as int] == rnames[i as int]);
            }
            proof {
                lemma_ff_texts_push(and_bits@, t);
            }
            and_bits.push(t);
            i += 1;
            assert(ff_texts(and_bits@) =~= and_bits_ff(lnames, rnames).take(i as int));
        }
        assert(and_bits_ff(lnames, rnames).take(i as int) =~= and_bits_ff(lnames, rnames));
        assert(ff_texts(and_bits@) =~= and_bits_ff(lnames, rnames));
        let and_val = if num_bits == 1 {
            assert(ff_texts(and_bits@)[0] == and_bits@[0]@);
            and_bits.remove(0)
        } else {
            FField::rbitsum(and_bits)
        };
        let out = self.new_const(output);
        self.assert_term(out.eq(and_val));
        Ok(())
    }

    /// `output` is the bitwise AND of `lhs` and `rhs` over `num_bits` bits in
    /// the integer encoding: `output = sum 2^i * (l_i * r_i)`.
    fn encode_and_int(&mut self, lhs: Witness, rhs: Witness, num_bits: u32, output: Witness) -> (r: Result<(), Error>)
        requires
            old(self).params().use_int,
        ensures
            final(self).params() == old(self).params(),
            reached(r, final(self).state(), and(old(self).params(), old(self).state(),
                FunctionInput::Witness(lhs), FunctionInput::Witness(rhs), num_bits, output)),
    {
        let ghost st0 = old(self).state();
        let ghost n = num_bits as nat;
        if num_bits == 0 {
            let out = self.new_const_int(output);
            self.assert_term(out.eq(Int::zero()));
            return Ok(());
        }
        let lhs_bits = match self.encode_bitsum_int(lhs, num_bits as usize) {
            Ok(b) => b,
            Err(e) => {
                return Err(e);
            },
        };
        let ghost st1 = self.state();
        proof {
            lemma_bools_next(st0, n);
        }
        assert(st1.next == st0.next + n);
        let rhs_bits = match self.encode_bitsum_int(rhs, num_bits as usize) {
            Ok(b) => b,
            Err(e) => {
                assert(!room(st0, 2 * n));
                return Err(e);
            },
        };
        assert(room(st0, 2 * n));
        let ghost lnames = bit_names(st0.next, n);
        let ghost rnames = bit_names(st1.next, n);
        let mut terms: Vec<Int> = Vec::new();
        let mut i: usize = 0;
        while i < num_bits as usize
            invariant
                i <= num_bits,
                lhs_bits.len() == num_bits,
                rhs_bits.len() == num_bits,
                int_texts(lhs_bits@) == lnames,
                int_texts(rhs_bits@) == rnames,
                lnames.len() == n,
                n == num_bits,
                int_texts(terms@) == and_terms_int(lnames, rnames).take(i as int),
            decreases num_bits - i,
        {
            let c = Int::new_value(pow2_text(i as u32).as_str());
            let m = lhs_bits[i].duplicate().mul(rhs_bits[i].duplicate());
            let ghost pair = seq![c@, m@];
            let v = vec![c, m];
            assert(int_texts(v@) =~= pair);
            let t = Int::rmul(v);
            assert(t@ == and_terms_int(lnames, rnames)[i as int]) by {
                assert(int_texts(lhs_bits@)[i as int] == lnames[i as int]);
                assert(int_texts(rhs_bits@)[i as int] == rnames[i as int]);
            }
            proof {
                lemma_int_texts_push(terms@, t);
            }
            terms.push(t);
            i += 1;
            assert(int_texts(terms@) =~= and_terms_int(lnames, rnames).take(i as int));
        }
        assert(and_terms_int(lnames, rnames).take(i as int) =~= and_terms_int(lnames, rnames));
        assert(int_texts(terms@) =~= and_terms_int(lnames, rnames));
        let and_val = if num_bits == 1 {
            assert(int_texts(terms@)[0] == terms@[0]@);
            terms.remove(0)
        } else {
            Int::radd(terms)
        };
        let out = self.new_const_int(output);
        self.assert_term(out.eq(and_val));
        Ok(())
    }

    fn translate_blackbox_call(&mut self, call: &BlackBoxFuncCall) -> (r: Result<(), Error>)
        ensures
            final(self).params() == old(self).params(),
            reached(r, final(self).state(), black_box(old(self).params(), old(self).state(), *call)),
    {
        match call {
            BlackBoxFuncCall::And { lhs, rhs, num_bits, output } => self.translate_and(lhs, rhs, *num_bits, *output),
            BlackBoxFuncCall::Xor => Err(unsupported("XOR")),
            BlackBoxFuncCall::Range { input, num_bits } => self.translate_range(input, *num_bits),
            BlackBoxFuncCall::AES128Encrypt => Err(unsupported("AES128Encrypt")),
            BlackBoxFuncCall::Blake2s => Err(unsupported("Blake2s")),
            BlackBoxFuncCall::Blake3 => Err(unsupported("Blake3")),
            BlackBoxFuncCall::EcdsaSecp256k1 => Err(unsupported("EcdsaSecp256k1")),
            BlackBoxFuncCall::EcdsaSecp256r1 => Err(unsupported("EcdsaSecp256r1")),
            BlackBoxFuncCall::MultiScalarMul => Err(unsupported("MultiScalarMul")),
            BlackBoxFuncCall::EmbeddedCurveAdd => Err(unsupported("EmbeddedCurveAdd")),
            BlackBoxFuncCall::Keccakf1600 => Err(unsupported("Keccakf1600")),
            BlackBoxFuncCall::RecursiveAggregation => Err(unsupported("RecursiveAggregation")),
            BlackBoxFuncCall::Poseidon2Permutation => Err(unsupported("Poseidon2Permutation")),
            BlackBoxFuncCall::Sha256Compression => Err(unsupported("Sha256Compression")),
        }
    }
}

impl Translator {
    /// A fresh activation literal for a verification condition at `opcode_loc`.
    fn new_cond_lit(&mut self, opcode_loc: usize) -> (r: Bool)
        ensures
            final(self).params() == old(self).params(),
            ({
                let st = old(self).state();
                let a = actlit_text((st.ver_conds.len() as u32) as nat);
                &&& r@ == a
                &&& final(self).state() == (EncState {
                    cmds: st.cmds.push(CommandSpec::Declare(a, Type::Bool)),
                    ver_conds: st.ver_conds.push((a, opcode_loc)),
                    ..st
                })
            }),
    {
        let index = self.ver_conds.len() as u32;
        let name = actlit_name(index);
        self.declare_const(name.clone(), Type::Bool);
        let lit = Bool::new_const(name.as_str());
        let ghost before = self.ver_conds@;
        self.ver_conds.push((name, opcode_loc));
        assert(self.state().ver_conds =~= old(self).state().ver_conds.push((actlit_text(index as nat), opcode_loc)));
        lit
    }

    fn translate_verify_assert(
        &mut self,
        opcode_loc: usize,
        inputs: &Vec<BrilligInputs>,
        predicate: &Expression,
    ) -> (r: Result<(), Error>)
        ensures
            final(self).params() == old(self).params(),
            reached(r, final(self).state(), verify_assert_inputs(old(self).params(), old(self).state(),
                opcode_loc, inputs@, predicate.spec_is_one(), 0)),
    {
        let ghost p = old(self).params();
        let ghost whole = verify_assert_inputs(p, old(self).state(), opcode_loc, inputs@, predicate.spec_is_one(), 0);
        let pred_one = predicate.is_one();
        let mut i: usize = 0;
        while i < inputs.len()
            invariant
                i <= inputs.len(),
                p == old(self).params(),
                self.params() == p,
                pred_one == predicate.spec_is_one(),
                whole == verify_assert_inputs(p, old(self).state(), opcode_loc, inputs@, pred_one, 0),
                whole == verify_assert_inputs(p, self.state(), opcode_loc, inputs@, pred_one, i as nat),
            decreases inputs.len() - i,
        {
            match &inputs[i] {
                BrilligInputs::Single(exp) => {
                    let ghost st = self.state();
                    let new_cond_lit = self.new_cond_lit(opcode_loc);
                    if !pred_one {
                        return Err(invalid_circuit("verification call under a predicate other than 1"));
                    }
                    if self.next_witness_index == u32::MAX {
                        return Err(overflow_error());
                    }
                    assert(room(st, 1));
                    if self.use_int {
                        let exp_int = self.translate_expression_int(exp);
                        let new_wit = match self.new_witness_int() {
                            Ok(w) => w,
                            Err(e) => {
                                return Err(e);
                            },
                        };
                        self.assert_term(exp_int.eq(new_wit.duplicate()));
                        self.assert_term(new_cond_lit.duplicate().imp(new_wit.duplicate().eq(Int::zero())));
                        self.assert_term(new_cond_lit.neg().imp(new_wit.duplicate().eq(Int::one())));
                    } else {
                        let exp_ff = self.translate_expression(exp);
                        let new_wit = match self.new_witness() {
                            Ok(w) => w,
                            Err(e) => {
                                return Err(e);
                            },
                        };
                        self.assert_term(exp_ff.eq(new_wit.duplicate()));
                        self.assert_term(new_cond_lit.duplicate().imp(new_wit.duplicate().eq(FField::zero())));
                        self.assert_term(new_cond_lit.neg().imp(new_wit.duplicate().eq(FField::one())));
                    }
                    assert(self.state() == verify_condition(p, st, opcode_loc, *exp));
                },
                BrilligInputs::Array(_) => {
                    return Err(encoding_error("Brillig input array is unimplemented"));
                },
                BrilligInputs::MemoryArray(_) => {
                    return Err(encoding_error("Brillig input memory array is unimplemented"));
                },
            }
            i += 1;
        }
        Ok(())
    }

    fn translate_verify_assume(&mut self, inputs: &Vec<BrilligInputs>, predicate: &Expression) -> (r: Result<(), Error>)
        ensures
            final(self).params() == old(self).params(),
            reached(r, final(self).state(), verify_assume_inputs(old(self).params(), old(self).state(),
                inputs@, predicate.spec_is_one(), 0)),
    {
        let ghost p = old(self).params();
        let ghost whole = verify_assume_inputs(p, old(self).state(), inputs@, predicate.spec_is_one(), 0);
        let pred_one = predicate.is_one();
        let mut i: usize = 0;
        while i < inputs.len()
            invariant
                i <= inputs.len(),
                p == old(self).params(),
                self.params() == p,
                pred_one == predicate.spec_is_one(),
                whole == verify_assume_inputs(p, old(self).state(), inputs@, pred_one, 0),
                whole == verify_assume_inputs(p, self.state(), inputs@, pred_one, i as nat),
            decreases inputs.len() - i,
        {
            match &inputs[i] {
                BrilligInputs::Single(exp) => {
                    if !pred_one {
                        return Err(invalid_circuit("verification call under a predicate other than 1"));
                    }
                    if self.use_int {
                        let one_int = Int::one();
                        let exp_int = self.translate_expression_int(exp);
                        self.assert_term(exp_int.eq(one_int));
                    } else {
                        let one = FField::one();
                        let exp_ff = self.translate_expression(exp);
                        self.assert_term(exp_ff.eq(one));
                    }
                },
                BrilligInputs::Array(_) => {
                    return Err(encoding_error("Brillig input array is unimplemented"));
                },
                BrilligInputs::MemoryArray(_) => {
                    return Err(encoding_error("Brillig input memory array is unimplemented"));
                },
            }
            i += 1;
        }
        Ok(())
    }

    fn translate_verify_print(&mut self, opcode_loc: usize, outputs: &Vec<BrilligOutputs>) -> (r: Result<(), Error>)
        ensures
            final(self).params() == old(self).params(),
            reached(r, final(self).state(), verify_print(old(self).state(), opcode_loc, outputs@)),
    {
        if outputs.len() != 1 {
            return Err(encoding_error("verify_print should have exactly one output"));
        }
        let witness_id: u32 = match &outputs[0] {
            BrilligOutputs::Simple(wit) => wit.0,
            BrilligOutputs::Array(wits) => {
                if wits.len() == 0 {
                    return Err(invalid_circuit("verify_print output array is empty"));
                }
                wits[0].0
            },
        };
        self.print_locs.push((witness_id, opcode_loc));
        Ok(())
    }

    fn translate_brillig_call(
        &mut self,
        opcode_loc: usize,
        id: u32,
        inputs: &Vec<BrilligInputs>,
        outputs: &Vec<BrilligOutputs>,
        predicate: &Expression,
    ) -> (r: Result<(), Error>)
        ensures
            final(self).params() == old(self).params(),
            reached(r, final(self).state(), brillig_call(old(self).params(), old(self).state(),
                opcode_loc, id, inputs@, outputs@, *predicate)),
    {
        let ghost p = self.params();
        if (id as usize) < self.brillig_funcs.len() {
            let kind: u8 = {
                let name = &self.brillig_funcs[id as usize];
                assert(p.names[id as int] == name@);
                if *name == String::from_str("verify_assert") {
                    0
                } else if *name == String::from_str("verify_assume") {
                    1
                } else if *name == String::from_str("verify_print") {
                    2
                } else {
                    3
                }
            };
            if kind == 0 {
                self.translate_verify_assert(opcode_loc, inputs, predicate)
            } else if kind == 1 {
                self.translate_verify_assume(inputs, predicate)
            } else if kind == 2 {
                self.translate_verify_print(opcode_loc, outputs)
            } else {
                Ok(())
            }
        } else {
            Ok(())
        }
    }
}

/// The binary digits of `b`, least significant first.
fn binary_digits(b: u32) -> (r: Vec<bool>)
    ensures
        r.len() == bit_len(b as nat),
        forall|i: int| 0 <= i < r.len() ==> r@[i] == (bit_of(b as nat, i as nat) == 1),
{
    let mut r: Vec<bool> = Vec::new();
    let mut cur = b;
    proof {
        lemma_halve(b as nat, 0);
    }
    while cur > 0
        invariant
            cur as nat == halve(b as nat, r.len() as nat),
            forall|i: int| 0 <= i < r.len() ==> r@[i] == (bit_of(b as nat, i as nat) == 1),
            cur > 0 ==> bit_len(b as nat) == r.len() + bit_len(cur as nat),
            cur == 0 ==> bit_len(b as nat) == r.len(),
        decreases cur,
    {
        proof {
            lemma_halve(b as nat, r.len() as nat);
            lemma_halve(b as nat, r.len() as nat + 1);
        }
        assert(bit_len(cur as nat) == 1 + bit_len((cur / 2) as nat));
        r.push(cur % 2 == 1);
        cur = cur / 2;
    }
    r
}

/// The opcodes of one memory block, as the encoder collects them.
struct MemTrace {
    block_id: u32,
    block_type: BlockType,
    init: Vec<Witness>,
    ops: Vec<usize>,
}

impl View for MemTrace {
    type V = TraceSpec;

    closed spec fn view(&self) -> TraceSpec {
        TraceSpec { block_id: self.block_id, block_type: self.block_type, init: self.init@, ops: self.ops@ }
    }
}

fn copy_witnesses(v: &Vec<Witness>) -> (r: Vec<Witness>)
    ensures
        r@ == v@,
{
    let mut r: Vec<Witness> = Vec::new();
    let mut i: usize = 0;
    while i < v.len()
        invariant
            i <= v.len(),
            r@ == v@.take(i as int),
        decreases v.len() - i,
    {
        r.push(v[i]);
        i += 1;
        assert(r@ =~= v@.take(i as int));
    }
    assert(v@.take(i as int) =~= v@);
    r
}

impl Translator {
    fn translate_memory_init(&mut self, trace: &MemTrace) -> (r: Result<(), Error>)
        ensures
            final(self).params() == old(self).params(),
            reached(r, final(self).state(), memory_init(old(self).params(), old(self).state(), trace@)),
    {
        let ghost st0 = old(self).state();
        let ghost p = old(self).params();
        match trace.block_type {
            BlockType::Memory => {},
            _ => {
                return Err(encoding_error("Only memory block type is supported"));
            },
        }
        let ty = if self.use_int { Type::Int } else { Type::FField };
        let mut i: usize = 0;
        while i < trace.init.len()
            invariant
                i <= trace.init.len(),
                st0 == old(self).state(),
                p == old(self).params(),
                self.params() == p,
                ty == (if p.use_int { Type::Int } else { Type::FField }),
                self.state() == memory_cells(st0, trace.block_id, trace.init@, ty, i as nat),
            decreases trace.init.len() - i,
        {
            let name = memory_name(trace.block_id, i as u64, 0);
            self.declare_const(name.clone(), ty);
            let gate = FField::new_const(name.as_str());
            let wit = self.new_const(trace.init[i]);
            self.assert_term(wit.eq(gate));
            i += 1;
        }
        Ok(())
    }

    /// Constrains `witness` to `[0, length - 1]` in the field encoding: its
    /// bits are bounded, from the top, by the bits of `length - 1`.
    fn translate_range_inclusive(&mut self, witness: Witness, length: u32) -> (r: Result<(), Error>)
        ensures
            final(self).params() == old(self).params(),
            reached(r, final(self).state(), range_inclusive_ff(old(self).state(), witness.0 as nat, length)),
    {
        let ghost st0 = old(self).state();
        if length == 0 {
            return Err(invalid_circuit("memory operation on an empty block"));
        }
        let bound = length - 1;
        if bound == 0 {
            let wit = self.new_const(witness);
            self.assert_term(wit.eq(FField::zero()));
            return Ok(());
        }
        let digits = binary_digits(bound);
        let num_bits = digits.len();
        assert(num_bits >= 1) by {
            reveal_with_fuel(bit_len, 2);
        }
        let bitvec = match self.encode_bitsum(witness, num_bits) {
            Ok(b) => b,
            Err(e) => {
                return Err(e);
            },
        };
        let ghost names = bit_names(st0.next, num_bits as nat);
        let ghost whole = chain(self.state(), names, bound as nat, num_bits - 2, names[num_bits - 1]);
        assert(ff_texts(bitvec@)[num_bits - 1] == names[num_bits - 1]);
        assert(whole == range_inclusive_ff(old(self).state(), witness.0 as nat, length));
        let mut cur_ones_bit_field = bitvec[num_bits - 1].duplicate();
        let mut k: usize = num_bits - 1;
        while k > 0
            invariant
                k <= num_bits - 1,
                num_bits == digits.len(),
                num_bits == bitvec.len(),
                ff_texts(bitvec@) == names,
                forall|i: int| 0 <= i < digits.len() ==> digits@[i] == (bit_of(bound as nat, i as nat) == 1),
                self.params() == old(self).params(),
                whole == range_inclusive_ff(old(self).state(), witness.0 as nat, length),
                whole == chain(self.state(), names, bound as nat, k - 1, cur_ones_bit_field@),
            decreases k,
        {
            let i = k - 1;
            assert(ff_texts(bitvec@)[i as int] == names[i as int]);
            if digits[i] {
                let new_ones_bit_field = match self.new_witness() {
                    Ok(w) => w,
                    Err(e) => {
                        return Err(e);
                    },
                };
                self.assert_term(new_ones_bit_field.duplicate().eq(cur_ones_bit_field.duplicate().mul(bitvec[i].duplicate())));
                cur_ones_bit_field = new_ones_bit_field;
            } else {
                let bit_i_field = bitvec[i].duplicate();
                self.assert_term(bit_i_field.mul(cur_ones_bit_field.duplicate()).eq(FField::zero()));
            }
            k = i;
        }
        Ok(())
    }

    /// Constrains `witness` to `[0, length - 1]` in the integer encoding.
    fn translate_range_inclusive_int(&mut self, witness: Witness, length: u32) -> (r: Result<(), Error>)
        ensures
            final(self).params() == old(self).params(),
            reached(r, final(self).state(), range_inclusive_int(old(self).state(), witness.0 as nat, length)),
    {
        if length == 0 {
            return Err(invalid_circuit("memory operation on an empty block"));
        }
        let bound = length - 1;
        if bound == 0 {
            let wit = self.new_const_int(witness);
            self.assert_term(wit.eq(Int::zero()));
            return Ok(());
        }
        let wit = self.new_const_int(witness);
        let minus_one = Int::new_value("-1");
        self.assert_term(minus_one.lt(wit.duplicate()));
        let value = self.new_element_int(&FieldValue::from_u32(length));
        self.assert_term(wit.lt(value));
        Ok(())
    }
}

impl Translator {
    /// One memory operation in the field encoding; gives the new write count.
    fn translate_memory_op(&mut self, block_id: u32, op: &MemOp, len: usize, f: u32) -> (r: Result<u32, Error>)
        requires
            !old(self).params().use_int,
        ensures
            final(self).params() == old(self).params(),
            ({
                let spec = memory_op(old(self).params(), old(self).state(), block_id, op.operation, op.index, op.value, len as nat, f as nat);
                match r {
                    Ok(f_new) => spec == (Outcome::Done(final(self).state()), f_new as nat),
                    Err(e) => reached(Err(e), final(self).state(), spec.0),
                }
            }),
    {
        let ghost p = old(self).params();
        let ghost st0 = old(self).state();
        let index_witness = Witness(self.next_witness_index);
        let index_wit = match self.new_witness() {
            Ok(w) => w,
            Err(e) => {
                return Err(e);
            },
        };
        let index_exp = self.translate_expression(&op.index);
        self.assert_term(index_wit.duplicate().eq(index_exp));
        match self.translate_range_inclusive(index_witness, len as u32) {
            Ok(()) => {},
            Err(e) => {
                return Err(e);
            },
        }
        let value_wit = match self.new_witness() {
            Ok(w) => w,
            Err(e) => {
                return Err(e);
            },
        };
        let value_exp = self.translate_expression(&op.value);
        self.assert_term(value_wit.duplicate().eq(value_exp));
        let ghost s3 = self.state();
        match op.operation {
            MemOpKind::Read => {
                let mut i: usize = 0;
                while i < len
                    invariant
                        i <= len,
                        self.params() == p,
                        !p.use_int,
                        self.state() == read_cells(s3, block_id, index_wit@, value_wit@, f as nat, false, i as nat),
                    decreases len - i,
                {
                    let indexed_mem_value = FField::new_const(memory_name(block_id, i as u64, f).as_str());
                    let index_value = FField::new_value(crate::text::decimal_string(i as u64).as_str());
                    let exp = index_wit.duplicate().eq(index_value).imp(value_wit.duplicate().eq(indexed_mem_value));
                    self.assert_term(exp);
                    i += 1;
                }
                Ok(f)
            },
            MemOpKind::Write => {
                if f == u32::MAX {
                    return Err(invalid_circuit("memory write count overflow"));
                }
                let f_new = f + 1;
                let mut i: usize = 0;
                while i < len
                    invariant
                        i <= len,
                        f_new == f + 1,
                        self.params() == p,
                        !p.use_int,
                        self.state() == write_cells(s3, block_id, index_wit@, value_wit@, f as nat, false, i as nat),
                    decreases len - i,
                {
                    let new_name = memory_name(block_id, i as u64, f_new);
                    self.declare_const(new_name.clone(), Type::FField);
                    let indexed_mem_value = FField::new_const(new_name.as_str());
                    let pre_indexed_mem_value = FField::new_const(memory_name(block_id, i as u64, f).as_str());
                    let index_value = FField::new_value(crate::text::decimal_string(i as u64).as_str());
                    let value_change_exp = index_wit.duplicate().eq(index_value.duplicate()).imp(
                        value_wit.duplicate().eq(indexed_mem_value.duplicate()),
                    );
                    self.assert_term(value_change_exp);
                    let other_values_remain_exp = index_wit.duplicate().eq(index_value).neg().imp(
                        pre_indexed_mem_value.eq(indexed_mem_value),
                    );
                    self.assert_term(other_values_remain_exp);
                    i += 1;
                }
                Ok(f_new)
            },
        }
    }

    /// One memory operation in the integer encoding; gives the new write count.
    fn translate_memory_op_int(&mut self, block_id: u32, op: &MemOp, len: usize, f: u32) -> (r: Result<u32, Error>)
        requires
            old(self).params().use_int,
        ensures
            final(self).params() == old(self).params(),
            ({
                let spec = memory_op(old(self).params(), old(self).state(), block_id, op.operation, op.index, op.value, len as nat, f as nat);
                match r {
                    Ok(f_new) => spec == (Outcome::Done(final(self).state()), f_new as nat),
                    Err(e) => reached(Err(e), final(self).state(), spec.0),
                }
            }),
    {
        let ghost p = old(self).params();
        let ghost st0 = old(self).state();
        let index_witness = Witness(self.next_witness_index);
        let index_wit = match self.new_witness_int() {
            Ok(w) => w,
            Err(e) => {
                return Err(e);
            },
        };
        let index_exp = self.translate_expression_int(&op.index);
        self.assert_term(index_wit.duplicate().eq(index_exp));
        match self.translate_range_inclusive_int(index_witness, len as u32) {
            Ok(()) => {},
            Err(e) => {
                return Err(e);
            },
        }
        let value_wit = match self.new_witness_int() {
            Ok(w) => w,
            Err(e) => {
                return Err(e);
            },
        };
        let value_exp = self.translate_expression_int(&op.value);
        self.assert_term(value_wit.duplicate().eq(value_exp));
        let ghost s3 = self.state();
        match op.operation {
            MemOpKind::Read => {
                let mut i: usize = 0;
                while i < len
                    invariant
                        i <= len,
                        self.params() == p,
                        p.use_int,
                        self.state() == read_cells(s3, block_id, index_wit@, value_wit@, f as nat, true, i as nat),
                    decreases len - i,
                {
                    let indexed_mem_value = Int::new_const(memory_name(block_id, i as u64, f).as_str());
                    let index_value = Int::new_value(crate::text::decimal_string(i as u64).as_str());
                    let exp = index_wit.duplicate().eq(index_value).imp(value_wit.duplicate().eq(indexed_mem_value));
                    self.assert_term(exp);
                    i += 1;
                }
                Ok(f)
            },
            MemOpKind::Write => {
                if f == u32::MAX {
                    return Err(invalid_circuit("memory write count overflow"));
                }
                let f_new = f + 1;
                let mut i: usize = 0;
                while i < len
                    invariant
                        i <= len,
                        f_new == f + 1,
                        self.params() == p,
                        p.use_int,
                        self.state() == write_cells(s3, block_id, index_wit@, value_wit@, f as nat, true, i as nat),
                    decreases len - i,
                {
                    let new_name = memory_name(block_id, i as u64, f_new);
                    self.declare_const(new_name.clone(), Type::Int);
                    let indexed_mem_value = Int::new_const(new_name.as_str());
                    let pre_indexed_mem_value = Int::new_const(memory_name(block_id, i as u64, f).as_str());
                    let index_value = Int::new_value(crate::text::decimal_string(i as u64).as_str());
                    let value_change_exp = index_wit.duplicate().eq(index_value.duplicate()).imp(
                        value_wit.duplicate().eq(indexed_mem_value.duplicate()),
                    );
                    self.assert_term(value_change_exp);
                    let other_values_remain_exp = index_wit.duplicate().eq(index_value).neg().imp(
                        pre_indexed_mem_value.eq(indexed_mem_value),
                    );
                    self.assert_term(other_values_remain_exp);
                    i += 1;
                }
                Ok(f_new)
            },
        }
    }
}

/// Whether the exec result of encoding a whole circuit and the state it left
/// match what the encoding prescribes.
pub open spec fn passed(res: Result<(), Error>, st: EncState, o: Pass) -> bool {
    match o {
        Pass::Done(s, _) => res is Ok && st == s,
        Pass::Failed(m) => res matches Err(Error::EncodingError(e)) && e@ == m,
        Pass::Halted(m) => res matches Err(Error::InvalidCircuit(e)) && e@ == m,
    }
}

/// Applies the strictness setting to the result of encoding one opcode: in
/// relaxed mode every error is dropped, so the opcode is skipped, except an
/// invalid circuit, on which the command-line tool stops.
pub fn check_strictness(strict: bool, res: Result<(), Error>) -> (r: Result<(), Error>)
    ensures
        strict ==> r == res,
        !strict ==> match res {
            Err(Error::InvalidCircuit(_)) => r == res,
            _ => r is Ok,
        },
{
    if strict {
        res
    } else {
        match res {
            Err(Error::InvalidCircuit(m)) => Err(Error::InvalidCircuit(m)),
            _ => Ok(()),
        }
    }
}

pub open spec fn traces_view(traces: Seq<MemTrace>) -> Seq<TraceSpec> {
    traces.map_values(|t: MemTrace| t@)
}

fn find_trace_index(traces: &Vec<MemTrace>, b: u32) -> (r: Option<usize>)
    ensures
        match r {
            Some(j) => j < traces.len() && find_trace(traces_view(traces@), b, 0) == Some(j as nat),
            None => find_trace(traces_view(traces@), b, 0) is None,
        },
{
    let ghost tv = traces_view(traces@);
    let mut j: usize = 0;
    while j < traces.len()
        invariant
            j <= traces.len(),
            tv == traces_view(traces@),
            find_trace(tv, b, 0) == find_trace(tv, b, j as nat),
        decreases traces.len() - j,
    {
        assert(tv[j as int] == traces@[j as int]@);
        if traces[j].block_id == b {
            return Some(j);
        }
        j += 1;
    }
    None
}

impl Translator {
    /// The first pass over one opcode at location `loc`: encodes it, or
    /// records a memory opcode in the trace of its block.
    fn translate_opcode(&mut self, loc: usize, opcode: &Opcode, traces: &mut Vec<MemTrace>) -> (r: Result<(), Error>)
        requires
            forall|t: int, q: int| 0 <= t < old(traces).len() && 0 <= q < old(traces)@[t].ops.len() ==> #[trigger] old(traces)@[t].ops@[q] < loc,
        ensures
            final(self).params() == old(self).params(),
            match opcode_step(old(self).params(), old(self).state(), traces_view(old(traces)@), loc, *opcode) {
                Pass::Done(s, tr) => r is Ok && final(self).state() == s && traces_view(final(traces)@) == tr,
                Pass::Failed(m) => r matches Err(Error::EncodingError(e)) && e@ == m,
                Pass::Halted(m) => r matches Err(Error::InvalidCircuit(e)) && e@ == m,
            },
            r is Ok ==> forall|t: int, q: int| 0 <= t < final(traces).len() && 0 <= q < final(traces)@[t].ops.len() ==> #[trigger] final(traces)@[t].ops@[q] <= loc,
    {
        let ghost tr = traces_view(traces@);
        match opcode {
            Opcode::AssertZero(expression) => {
                self.translate_assert_zero(expression);
                Ok(())
            },
            Opcode::BlackBoxFuncCall(call) => {
                let res = self.translate_blackbox_call(call);
                check_strictness(self.strict, res)
            },
            Opcode::MemoryOp { block_id, op: _ } => {
                match find_trace_index(traces, *block_id) {
                    Some(j) => {
                        let mut t = traces.remove(j);
                        t.ops.push(loc);
                        traces.insert(j, t);
                        assert(traces_view(traces@) =~= tr.update(j as int, TraceSpec { ops: tr[j as int].ops.push(loc), ..tr[j as int] }));
                        assert forall|t: int, q: int| 0 <= t < traces.len() && 0 <= q < traces@[t].ops.len() implies #[trigger] traces@[t].ops@[q] <= loc by {
                            if t != j {
                                assert(traces@[t] == old(traces)@[t]);
                            } else if q < old(traces)@[t].ops.len() {
                                assert(traces@[t].ops@[q] == old(traces)@[t].ops@[q]);
                            }
                        }
                        Ok(())
                    },
                    None => Err(invalid_circuit("MemInit opcode should have run before")),
                }
            },
            Opcode::MemoryInit { block_id, init, block_type } => {
                let t = MemTrace {
                    block_id: *block_id,
                    block_type: *block_type,
                    init: copy_witnesses(init),
                    ops: Vec::new(),
                };
                let ghost tv = t@;
                assert(tv.ops =~= Seq::<usize>::empty());
                match find_trace_index(traces, *block_id) {
                    Some(j) => {
                        traces.set(j, t);
                        assert(traces_view(traces@) =~= tr.update(j as int, tv));
                        assert forall|t: int, q: int| 0 <= t < traces.len() && 0 <= q < traces@[t].ops.len() implies #[trigger] traces@[t].ops@[q] <= loc by {
                            if t != j {
                                assert(traces@[t] == old(traces)@[t]);
                            }
                        }
                    },
                    None => {
                        traces.push(t);
                        assert(traces_view(traces@) =~= tr.push(tv));
                        assert forall|t: int, q: int| 0 <= t < traces.len() && 0 <= q < traces@[t].ops.len() implies #[trigger] traces@[t].ops@[q] <= loc by {
                            if t < old(traces).len() {
                                assert(traces@[t] == old(traces)@[t]);
                            }
                        }
                    },
                }
                Ok(())
            },
            Opcode::BrilligCall { id, inputs, outputs, predicate } => {
                let res = self.translate_brillig_call(loc, *id, inputs, outputs, predicate);
                check_strictness(self.strict, res)
            },
            Opcode::Call { .. } => {
                let res: Result<(), Error> = Err(encoding_error("Function calls are not supported in formal verification"));
                check_strictness(self.strict, res)
            },
        }
    }

    /// One memory block: its initialisation, then its operations in order.
    fn translate_memory_block(&mut self, trace: &MemTrace, circuit: &Circuit) -> (r: Result<(), Error>)
        requires
            forall|q: int| 0 <= q < trace.ops.len() ==> #[trigger] trace.ops@[q] < circuit.opcodes.len(),
        ensures
            final(self).params() == old(self).params(),
            passed(r, final(self).state(), memory_block(old(self).params(), old(self).state(), trace@, circuit.opcodes@)),
    {
        let ghost p = old(self).params();
        let ghost ops = circuit.opcodes@;
        let res = self.translate_memory_init(trace);
        match check_strictness(self.strict, res) {
            Ok(()) => {},
            Err(e) => {
                return Err(e);
            },
        }
        let ghost si = self.state();
        assert(strictly(p.strict, memory_init(p, old(self).state(), trace@), Seq::empty()) == Pass::Done(si, Seq::empty()));
        let mem_block_len = trace.init.len();
        let mut f: u32 = 0;
        let mut q: usize = 0;
        while q < trace.ops.len()
            invariant
                q <= trace.ops.len(),
                mem_block_len == trace.init.len(),
                ops == circuit.opcodes@,
                self.params() == p,
                p == old(self).params(),
                forall|q2: int| 0 <= q2 < trace.ops.len() ==> #[trigger] trace.ops@[q2] < circuit.opcodes.len(),
                memory_ops(p, si, trace@, ops, q as nat) == (Outcome::Done(self.state()), f as nat),
                memory_block(p, old(self).state(), trace@, ops) == (match memory_ops(p, si, trace@, ops, trace.ops.len() as nat).0 {
                    Outcome::Done(s2) => Pass::Done(s2, Seq::empty()),
                    Outcome::Failed(_, m) => Pass::Failed(m),
                    Outcome::Halted(m) => Pass::Halted(m),
                }),
            decreases trace.ops.len() - q,
        {
            let loc = trace.ops[q];
            let ghost sq = self.state();
            match &circuit.opcodes[loc] {
                Opcode::MemoryOp { block_id: _, op } => {
                    let res = if self.use_int {
                        self.translate_memory_op_int(trace.block_id, op, mem_block_len, f)
                    } else {
                        self.translate_memory_op(trace.block_id, op, mem_block_len, f)
                    };
                    match res {
                        Ok(f_new) => {
                            f = f_new;
                        },
                        Err(e) => {
                            proof {
                                lemma_memory_ops_stop(p, si, trace@, ops, (q + 1) as nat, trace.ops.len() as nat);
                            }
                            return Err(e);
                        },
                    }
                },
                _ => {},
            }
            q += 1;
        }
        Ok(())
    }

    /// Encodes a circuit: declares its witnesses, encodes its opcodes in
    /// order, then its memory blocks. The circuit must be one on which the
    /// encoding does not stop (see `Error::InvalidCircuit`).
    pub fn translate_to_smt(&mut self, circuit: &Circuit) -> (r: Result<(), Error>)
        requires
            !(translate(old(self).params(), old(self).state(), circuit.current_witness_index,
                circuit.opcodes@) is Halted),
        ensures
            final(self).params() == old(self).params(),
            passed(r, final(self).state(), translate(old(self).params(), old(self).state(),
                circuit.current_witness_index, circuit.opcodes@)),
    {
        self.encode_circuit(circuit)
    }

    /// Encodes a circuit, or stops on one that breaks an assumption of the
    /// encoder, with `InvalidCircuit`.
    pub(crate) fn encode_circuit(&mut self, circuit: &Circuit) -> (r: Result<(), Error>)
        ensures
            final(self).params() == old(self).params(),
            passed(r, final(self).state(), translate(old(self).params(), old(self).state(),
                circuit.current_witness_index, circuit.opcodes@)),
    {
        let ghost p = old(self).params();
        let ghost st0 = old(self).state();
        if circuit.current_witness_index == u32::MAX {
            return Err(invalid_circuit("circuit witness count overflow"));
        }
        let num_vars = circuit.current_witness_index + 1;
        let mut wi: u32 = 0;
        while wi < num_vars
            invariant
                wi <= num_vars,
                self.params() == p,
                self.state() == declare_witnesses(p, st0, wi as nat),
            decreases num_vars - wi,
        {
            let name = witness_name(wi);
            if self.use_int {
                self.declare_const(name.clone(), Type::Int);
                self.encode_int_range_of(&name);
            } else {
                self.declare_const(name, Type::FField);
            }
            wi += 1;
        }
        let ghost s0 = self.state();
        let ghost ops = circuit.opcodes@;
        let mut traces: Vec<MemTrace> = Vec::new();
        let mut i: usize = 0;
        assert(traces_view(traces@) =~= Seq::<TraceSpec>::empty());
        while i < circuit.opcodes.len()
            invariant
                i <= circuit.opcodes.len(),
                ops == circuit.opcodes@,
                self.params() == p,
                p == old(self).params(),
                st0 == old(self).state(),
                s0 == declare_witnesses(p, st0, circuit.current_witness_index as nat + 1),
                circuit.current_witness_index < u32::MAX,
                first_pass(p, s0, ops, i as nat) == Pass::Done(self.state(), traces_view(traces@)),
                forall|t: int, q: int| 0 <= t < traces.len() && 0 <= q < traces@[t].ops.len() ==> #[trigger] traces@[t].ops@[q] < i,
            decreases circuit.opcodes.len() - i,
        {
            match self.translate_opcode(i, &circuit.opcodes[i], &mut traces) {
                Ok(()) => {},
                Err(e) => {
                    proof {
                        lemma_first_pass_stops(p, s0, ops, (i + 1) as nat, ops.len());
                    }
                    return Err(e);
                },
            }
            i += 1;
        }
        let ghost s1 = self.state();
        let ghost tr1 = traces_view(traces@);
        assert(translate(p, st0, circuit.current_witness_index, ops) == second_pass(p, s1, tr1, ops, tr1.len()));
        let mut k: usize = 0;
        while k < traces.len()
            invariant
                k <= traces.len(),
                ops == circuit.opcodes@,
                self.params() == p,
                p == old(self).params(),
                st0 == old(self).state(),
                tr1 == traces_view(traces@),
                translate(p, st0, circuit.current_witness_index, ops) == second_pass(p, s1, tr1, ops, tr1.len()),
                second_pass(p, s1, tr1, ops, k as nat) == Pass::Done(self.state(), Seq::empty()),
                forall|t: int, q: int| 0 <= t < traces.len() && 0 <= q < traces@[t].ops.len() ==> #[trigger] traces@[t].ops@[q] < circuit.opcodes.len(),
            decreases traces.len() - k,
        {
            let trace = &traces[k];
            assert(tr1[k as int] == trace@);
            match self.translate_memory_block(trace, circuit) {
                Ok(()) => {},
                Err(e) => {
                    proof {
                        lemma_second_pass_stops(p, s1, tr1, ops, (k + 1) as nat, tr1.len());
                    }
                    return Err(e);
                },
            }
            k += 1;
        }
        Ok(())
    }

    /// Asserts that each witness of an assignment has its value (reduced into
    /// `[0, prime)` in the integer encoding when acir writes it as negative).
    pub fn translate_witness_map(&mut self, witness_map: &Vec<(Witness, FieldValue)>) -> (r: Result<(), Error>)
        ensures
            final(self).params() == old(self).params(),
            r is Ok,
            final(self).state() == witness_values(old(self).params(), old(self).state(), witness_map@, witness_map.len() as nat),
    {
        let ghost p = old(self).params();
        let ghost st0 = old(self).state();
        let mut i: usize = 0;
        while i < witness_map.len()
            invariant
                i <= witness_map.len(),
                self.params() == p,
                self.state() == witness_values(p, st0, witness_map@, i as nat),
            decreases witness_map.len() - i,
        {
            let (witness, value) = &witness_map[i];
            if self.use_int {
                let wit = self.new_const_int(*witness);
                let text = value.to_text();
                proof {
                    lemma_decimal_digits(value.value());
                    lemma_decimal_digits((field_prime() - value.value()) as nat);
                }
                let negative = text.as_str().get_char(0) == '-';
                assert(negative == written_negative(value.value()));
                let val = if !negative {
                    self.new_element_int(value)
                } else {
                    self.new_element_int(value).modu(self.prime_int())
                };
                self.assert_term(wit.eq(val));
            } else {
                let wit = self.new_const(*witness);
                let val = self.new_element(value);
                self.assert_term(wit.eq(val));
            }
            i += 1;
        }
        Ok(())
    }

    /// The activation literals of the verification conditions, with their opcode locations.
    pub fn ver_conds(&self) -> (r: Vec<(String, usize)>)
        ensures
            r@.map_values(|v: (String, usize)| (v.0@, v.1)) == self.state().ver_conds,
    {
        let mut r: Vec<(String, usize)> = Vec::new();
        let mut i: usize = 0;
        while i < self.ver_conds.len()
            invariant
                i <= self.ver_conds.len(),
                r@.map_values(|v: (String, usize)| (v.0@, v.1)) == self.state().ver_conds.take(i as int),
            decreases self.ver_conds.len() - i,
        {
            let (name, loc) = &self.ver_conds[i];
            let c = name.clone();
            let ghost before = r@;
            r.push((c, *loc));
            assert(self.state().ver_conds[i as int] == (self.ver_conds@[i as int].0@, self.ver_conds@[i as int].1));
            assert(r@.map_values(|v: (String, usize)| (v.0@, v.1)) =~= before.map_values(|v: (String, usize)| (v.0@, v.1)).push((c@, *loc)));
            i += 1;
            assert(r@.map_values(|v: (String, usize)| (v.0@, v.1)) =~= self.state().ver_conds.take(i as int));
        }
        assert(self.state().ver_conds.take(i as int) =~= self.state().ver_conds);
        r
    }

    /// The witnesses to print, with their opcode locations.
    pub fn print_locs(&self) -> (r: Vec<(u32, usize)>)
        ensures
            r@ == self.state().print_locs,
    {
        let mut r: Vec<(u32, usize)> = Vec::new();
        let mut i: usize = 0;
        while i < self.print_locs.len()
            invariant
                i <= self.print_locs.len(),
                r@ == self.print_locs@.take(i as int),
            decreases self.print_locs.len() - i,
        {
            r.push(self.print_locs[i]);
            i += 1;
            assert(r@ =~= self.print_locs@.take(i as int));
        }
        assert(self.print_locs@.take(i as int) =~= self.print_locs@);
        r
    }

    /// The commands sent to the solver, in order.
    pub fn commands(&self) -> (r: &Vec<Command>)
        ensures
            r@.map_values(|c: Command| c@) == self.state().cmds,
    {
        &self.commands
    }

    /// Whether some command asserts a constraint.
    pub open spec fn spec_has_constraints(&self) -> bool {
        exists|i: int| 0 <= i < self.state().cmds.len() && #[trigger] self.state().cmds[i] is Assert
    }

    /// Whether some constraint was asserted.
    pub fn has_constraints(&self) -> (b: bool)
        ensures
            b == self.spec_has_constraints(),
    {
        let mut i: usize = 0;
        while i < self.commands.len()
            invariant
                i <= self.commands.len(),
                forall|j: int| 0 <= j < i ==> !(#[trigger] self.state().cmds[j] is Assert),
            decreases self.commands.len() - i,
        {
            assert(self.state().cmds[i as int] == self.commands@[i as int]@);
            match &self.commands[i] {
                Command::Assert(_) => {
                    return true;
                },
                _ => {},
            }
            i += 1;
        }
        false
    }
}

} // verus!
