// Verification conditions that can be falsified.
//
// Each test names a Noir program and the ACIR circuits it compiles to,
// written out here with the same witnesses and opcodes. The circuits are
// encoded for each backend; for every verification condition the test
// exhibits a model of the constraints in which the condition's activation
// literal holds, which is what a satisfiable answer of the solver means,
// and hands that answer to the check session. The program is falsified when
// every condition comes out falsified.

use std::collections::HashMap;

use acir_checker::check::{encoding_stop, translate_program, BackendType, CheckSession, Output};
use acir_checker::circuit::{
    BlackBoxFuncCall, BlockType, BrilligInputs, BrilligOutputs, Circuit, Expression, FunctionInput, MemOp,
    MemOpKind, Opcode, Witness,
};
use acir_checker::field::FieldValue;
use acir_checker::smt::{Command, SolverOutput, Type, Value};
use num_bigint::BigInt;

const PRIME: &str = "21888242871839275222246405745257275088548364400416034343698204186575808495617";

// ------------------------------------------------------------ Noir programs

fn with_decls(program: &str) -> String {
    format!(
        "{}unconstrained fn verify_assert(exp: bool){{keep()}}
            unconstrained fn verify_assume(exp: bool){{keep()}}
            #[oracle(keep)]
            unconstrained fn keep(){{}}",
        program
    )
}

/// The unconstrained functions of the compiled programs, by index.
fn brillig_names() -> Vec<String> {
    vec![
        "verify_assert".to_string(),
        "verify_assume".to_string(),
        "directive_invert".to_string(),
        "directive_integer_quotient".to_string(),
    ]
}

const VERIFY_ASSERT: u32 = 0;
const VERIFY_ASSUME: u32 = 1;
const INVERT: u32 = 2;
const QUOTIENT: u32 = 3;

// ------------------------------------------------------------ circuits

fn prime() -> BigInt {
    PRIME.parse().unwrap()
}

fn fe(n: i64) -> FieldValue {
    let v = BigInt::from(n).mod_floor_p();
    let (_, bytes) = v.to_bytes_be();
    FieldValue::from_be_bytes(&bytes)
}

trait ModP {
    fn mod_floor_p(&self) -> BigInt;
}

impl ModP for BigInt {
    fn mod_floor_p(&self) -> BigInt {
        let p = prime();
        ((self % &p) + &p) % &p
    }
}

fn expr(mul: &[(i64, u32, u32)], lin: &[(i64, u32)], c: i64) -> Expression {
    Expression {
        mul_terms: mul.iter().map(|&(q, a, b)| (fe(q), Witness(a), Witness(b))).collect(),
        linear_combinations: lin.iter().map(|&(q, a)| (fe(q), Witness(a))).collect(),
        q_c: fe(c),
    }
}

fn lin(terms: &[(i64, u32)], c: i64) -> Expression {
    expr(&[], terms, c)
}

fn assert_zero(e: Expression) -> Opcode {
    Opcode::AssertZero(e)
}

fn range(w: u32, bits: u32) -> Opcode {
    Opcode::BlackBoxFuncCall(BlackBoxFuncCall::Range { input: FunctionInput::Witness(Witness(w)), num_bits: bits })
}

fn and(l: u32, r: u32, bits: u32, out: u32) -> Opcode {
    Opcode::BlackBoxFuncCall(BlackBoxFuncCall::And {
        lhs: FunctionInput::Witness(Witness(l)),
        rhs: FunctionInput::Witness(Witness(r)),
        num_bits: bits,
        output: Witness(out),
    })
}

fn call(id: u32, inputs: Vec<Expression>, outputs: &[u32]) -> Opcode {
    Opcode::BrilligCall {
        id,
        inputs: inputs.into_iter().map(BrilligInputs::Single).collect(),
        outputs: outputs.iter().map(|&w| BrilligOutputs::Simple(Witness(w))).collect(),
        predicate: lin(&[], 1),
    }
}

fn verify_assert(e: Expression) -> Opcode {
    call(VERIFY_ASSERT, vec![e], &[])
}

fn verify_assume(e: Expression) -> Opcode {
    call(VERIFY_ASSUME, vec![e], &[])
}

/// `eq = (t == 0)` for `t = sum lin + c`, with `inv` the inverse of `t`
/// given by an unconstrained call: `t * inv + eq - 1 = 0` and `t * eq = 0`.
fn is_zero(t: &[(i64, u32)], c: i64, inv: u32, eq: u32) -> Vec<Opcode> {
    let mut mul1: Vec<(i64, u32, u32)> = t.iter().map(|&(q, w)| (q, w, inv)).collect();
    let mut lin1: Vec<(i64, u32)> = vec![(c, inv), (1, eq)];
    let mut mul2: Vec<(i64, u32, u32)> = t.iter().map(|&(q, w)| (q, w, eq)).collect();
    let mut lin2: Vec<(i64, u32)> = vec![(c, eq)];
    lin1.retain(|&(q, _)| q != 0);
    lin2.retain(|&(q, _)| q != 0);
    mul1.retain(|&(q, _, _)| q != 0);
    mul2.retain(|&(q, _, _)| q != 0);
    vec![
        call(INVERT, vec![lin(t, c)], &[inv]),
        assert_zero(expr(&mul1, &lin1, -1)),
        assert_zero(expr(&mul2, &lin2, 0)),
    ]
}

fn circuit(current_witness_index: u32, opcodes: Vec<Opcode>) -> Circuit {
    Circuit { current_witness_index, opcodes }
}

/// A compiled program: its circuit and a valid assignment of its witnesses
/// that falsifies its verification conditions.
struct Program {
    circuit: Circuit,
    witnesses: Vec<BigInt>,
}

fn program(current_witness_index: u32, opcodes: Vec<Opcode>, witnesses: &[i64]) -> Program {
    assert_eq!(witnesses.len(), current_witness_index as usize + 1);
    Program {
        circuit: circuit(current_witness_index, opcodes),
        witnesses: witnesses.iter().map(|&v| BigInt::from(v).mod_floor_p()).collect(),
    }
}

/// The inverse an unconstrained call gives for 0 or 1 (0 for 0).
fn inverse(v: i64) -> i64 {
    match v {
        0 => 0,
        1 => 1,
        _ => panic!("no inverse written for {}", v),
    }
}

// ------------------------------------------------------------ SMT terms

#[derive(Clone, Debug)]
enum Sx {
    Atom(String),
    List(Vec<Sx>),
}

fn parse(text: &str) -> Sx {
    let mut tokens: Vec<String> = Vec::new();
    let mut cur = String::new();
    for ch in text.chars() {
        if ch == '(' || ch == ')' || ch.is_whitespace() {
            if !cur.is_empty() {
                tokens.push(cur.clone());
                cur.clear();
            }
            if ch != ' ' && !ch.is_whitespace() {
                tokens.push(ch.to_string());
            }
        } else {
            cur.push(ch);
        }
    }
    if !cur.is_empty() {
        tokens.push(cur);
    }
    let mut pos = 0;
    let e = parse_tokens(&tokens, &mut pos);
    assert_eq!(pos, tokens.len(), "trailing text in {}", text);
    e
}

fn parse_tokens(tokens: &[String], pos: &mut usize) -> Sx {
    let t = tokens[*pos].clone();
    *pos += 1;
    if t == "(" {
        let mut items = Vec::new();
        while tokens[*pos] != ")" {
            items.push(parse_tokens(tokens, pos));
        }
        *pos += 1;
        Sx::List(items)
    } else {
        Sx::Atom(t)
    }
}

#[derive(Clone, Debug, PartialEq)]
enum V {
    B(bool),
    N(BigInt),
}

struct Env {
    p: BigInt,
    sorts: HashMap<String, Type>,
    vals: HashMap<String, V>,
}

impl Env {
    fn num(&self, e: &Sx) -> Option<BigInt> {
        match self.eval(e)? {
            V::N(n) => Some(n),
            V::B(_) => None,
        }
    }

    fn boolean(&self, e: &Sx) -> Option<bool> {
        match self.eval(e)? {
            V::B(b) => Some(b),
            V::N(_) => None,
        }
    }

    fn eval(&self, e: &Sx) -> Option<V> {
        match e {
            Sx::Atom(a) => {
                if a == "true" {
                    Some(V::B(true))
                } else if a == "false" {
                    Some(V::B(false))
                } else if let Ok(n) = a.parse::<BigInt>() {
                    Some(V::N(n))
                } else {
                    self.vals.get(a).cloned()
                }
            },
            Sx::List(items) => {
                let op = match &items[0] {
                    Sx::Atom(a) => a.as_str(),
                    _ => return None,
                };
                let args = &items[1..];
                let p = &self.p;
                match op {
                    "as" => match &args[0] {
                        Sx::Atom(lit) => {
                            let n: BigInt = lit.strip_prefix("ff")?.parse().ok()?;
                            Some(V::N(((n % p) + p) % p))
                        },
                        _ => None,
                    },
                    "ff.add" | "ff.mul" | "ff.bitsum" => {
                        let mut acc = if op == "ff.mul" { BigInt::from(1) } else { BigInt::from(0) };
                        for (i, a) in args.iter().enumerate() {
                            let v = self.num(a)?;
                            acc = match op {
                                "ff.add" => acc + v,
                                "ff.mul" => acc * v,
                                _ => acc + (v << i),
                            };
                        }
                        Some(V::N(((acc % p) + p) % p))
                    },
                    "+" | "*" => {
                        let mut acc = if op == "*" { BigInt::from(1) } else { BigInt::from(0) };
                        for a in args {
                            let v = self.num(a)?;
                            acc = if op == "*" { acc * v } else { acc + v };
                        }
                        Some(V::N(acc))
                    },
                    "mod" => {
                        let a = self.num(&args[0])?;
                        let m = self.num(&args[1])?;
                        Some(V::N(((a % &m) + &m) % &m))
                    },
                    "<" => Some(V::B(self.num(&args[0])? < self.num(&args[1])?)),
                    "=" => Some(V::B(self.eval(&args[0])? == self.eval(&args[1])?)),
                    "=>" => {
                        let a = self.boolean(&args[0])?;
                        if !a {
                            return Some(V::B(true));
                        }
                        Some(V::B(self.boolean(&args[1])?))
                    },
                    "not" => Some(V::B(!self.boolean(&args[0])?)),
                    "and" => {
                        let mut r = true;
                        for a in args {
                            r = r && self.boolean(a)?;
                        }
                        Some(V::B(r))
                    },
                    "or" => {
                        let mut r = false;
                        for a in args {
                            r = r || self.boolean(a)?;
                        }
                        Some(V::B(r))
                    },
                    _ => None,
                }
            },
        }
    }

    fn open_symbol(&self, e: &Sx) -> Option<String> {
        match e {
            Sx::Atom(a) if self.sorts.contains_key(a) && !self.vals.contains_key(a) => Some(a.clone()),
            _ => None,
        }
    }

    fn set(&mut self, name: String, v: V) {
        self.vals.insert(name, v);
    }

    /// `(= a b)` with one side open and the other known: the open one takes it.
    fn solve_eq(&mut self, a: &Sx, b: &Sx) -> bool {
        if let Some(x) = self.open_symbol(a) {
            if let Some(v) = self.eval(b) {
                self.set(x, v);
                return true;
            }
        }
        if let Some(x) = self.open_symbol(b) {
            if let Some(v) = self.eval(a) {
                self.set(x, v);
                return true;
            }
        }
        // a known value decomposed into open bits
        if let (Some(v), Sx::List(items)) = (self.num(a), b) {
            if let Sx::Atom(op) = &items[0] {
                let bits: Option<Vec<String>> = match op.as_str() {
                    "ff.bitsum" => items[1..].iter().map(|e| self.open_symbol(e)).collect(),
                    "+" => items[1..]
                        .iter()
                        .map(|e| match e {
                            Sx::List(t) if t.len() == 3 => self.open_symbol(&t[2]),
                            _ => None,
                        })
                        .collect(),
                    _ => None,
                };
                if let Some(bits) = bits {
                    if !bits.is_empty() {
                        for (i, name) in bits.into_iter().enumerate() {
                            let bit = (&v >> i) & BigInt::from(1);
                            self.set(name, V::N(bit));
                        }
                        return true;
                    }
                }
            }
        }
        false
    }

    /// One round over the assertions; whether it assigned anything.
    fn step(&mut self, asserts: &[Sx]) -> bool {
        let mut progress = false;
        for t in asserts {
            if let Sx::List(items) = t {
                if let Sx::Atom(op) = &items[0] {
                    if op == "=" && items.len() == 3 {
                        progress |= self.solve_eq(&items[1], &items[2]);
                    } else if op == "=>" {
                        match self.boolean(&items[1]) {
                            Some(true) => {
                                if let Sx::List(c) = &items[2] {
                                    if c.len() == 3 && matches!(&c[0], Sx::Atom(o) if o == "=") {
                                        progress |= self.solve_eq(&c[1], &c[2]);
                                    }
                                }
                            },
                            Some(false) => {},
                            None => {
                                // an open activation literal: false where its
                                // consequence fails, true where that of its negation does
                                if self.boolean(&items[2]) == Some(false) {
                                    if let Some(x) = self.open_symbol(&items[1]) {
                                        self.set(x, V::B(false));
                                        progress = true;
                                    } else if let Sx::List(n) = &items[1] {
                                        if n.len() == 2 {
                                            if let Some(x) = self.open_symbol(&n[1]) {
                                                self.set(x, V::B(true));
                                                progress = true;
                                            }
                                        }
                                    }
                                }
                            },
                        }
                    }
                }
            }
        }
        progress
    }
}

/// A model of the encoded constraints in which the activation literal
/// `actlit` holds, from the values of the circuit's witnesses; the other
/// constants take what the constraints force. `None` when the constraints
/// fail.
fn model_for(commands: &[Command], actlit: &str, witnesses: &[BigInt]) -> Option<Vec<(String, Value)>> {
    let mut env = Env { p: prime(), sorts: HashMap::new(), vals: HashMap::new() };
    let mut order = Vec::new();
    let mut asserts = Vec::new();
    for c in commands {
        match c {
            Command::DeclareConst(name, ty) => {
                env.sorts.insert(name.clone(), *ty);
                order.push(name.clone());
            },
            Command::Assert(b) => asserts.push(parse(&b.to_smt2())),
        }
    }
    for (i, v) in witnesses.iter().enumerate() {
        env.set(format!("w{}", i), V::N(v.clone()));
    }
    env.set(actlit.to_string(), V::B(true));
    while env.step(&asserts) {}
    for name in &order {
        if !env.vals.contains_key(name) && env.sorts[name] == Type::Bool {
            env.set(name.clone(), V::B(false));
        }
    }
    for t in &asserts {
        if env.boolean(t) != Some(true) {
            return None;
        }
    }
    let mut model = Vec::new();
    for name in order {
        let v = env.vals.get(&name)?.clone();
        let value = match (env.sorts[&name], v) {
            (Type::Bool, V::B(b)) => Value::Bool(b),
            (Type::Int, V::N(n)) => Value::Int(n.to_string()),
            (Type::FField, V::N(n)) => Value::FField(n.to_string()),
            _ => return None,
        };
        model.push((name, value));
    }
    Some(model)
}

/// Checks each program: every verification condition is asked for in turn,
/// and the answer is satisfiable exactly when a model is found.
fn check(programs: &[Program], backend: BackendType, strict: bool) -> Vec<Vec<(Output, usize)>> {
    let mut results = Vec::new();
    for prog in programs {
        assert_eq!(encoding_stop(&prog.circuit, brillig_names(), backend, strict), None);
        let translator = translate_program(&prog.circuit, brillig_names(), backend, strict).unwrap();
        let mut session = CheckSession::new(&translator);
        while let Some(actlit) = session.next_query() {
            let (answer, model) = match model_for(translator.commands(), &actlit, &prog.witnesses) {
                Some(m) => (SolverOutput::Sat, m),
                None => (SolverOutput::Unknown, vec![]),
            };
            let _ = session.record(answer, model);
        }
        let result = session.finish();
        results.push(result.solver_output().iter().map(|(o, l)| (clone_output(o), *l)).collect());
    }
    results
}

fn clone_output(o: &Output) -> Output {
    match o {
        Output::Falsified(m) => Output::Falsified(m.iter().map(|(n, v)| (n.clone(), v.duplicate())).collect()),
        Output::Verified => Output::Verified,
        Output::Unknown => Output::Unknown,
    }
}

/// Whether every verification condition of the programs compiled from
/// `source` is falsified.
fn is_falsified(source: &str, programs: &[Program], backend: BackendType, strict: bool) -> bool {
    assert!(source.contains("verify_assert"));
    let results = check(programs, backend, strict);
    !results.iter().all(|r| r.is_empty())
        && results.iter().all(|r| r.iter().all(|(output, _)| output.is_falsified()))
}

// ------------------------------------------------------------ programs

/// A program whose condition is the constant `false` once its arithmetic
/// is folded away: the witnesses keep the computation.
fn folded(current_witness_index: u32, mut opcodes: Vec<Opcode>, witnesses: &[i64]) -> Vec<Program> {
    opcodes.push(verify_assert(lin(&[], 0)));
    vec![program(current_witness_index, opcodes, witnesses)]
}

fn or_with_assume() -> Program {
    // x: w0, y: w1; assume x == 0; z = 255 - ((255 - x) & (255 - y)); assert z != y
    let mut ops = Vec::new();
    ops.push(range(0, 8));
    ops.push(range(1, 8));
    ops.extend(is_zero(&[(1, 0)], 0, 2, 3));
    ops.push(verify_assume(lin(&[(1, 3)], 0)));
    ops.push(assert_zero(lin(&[(1, 0), (1, 4)], -255)));
    ops.push(assert_zero(lin(&[(1, 1), (1, 5)], -255)));
    ops.push(and(4, 5, 8, 6));
    ops.push(assert_zero(lin(&[(1, 6), (1, 7)], -255)));
    ops.extend(is_zero(&[(1, 7), (-1, 1)], 0, 8, 9));
    ops.push(verify_assert(lin(&[(-1, 9)], 1)));
    program(9, ops, &[0, 0, inverse(0), 1, 255, 255, 255, 0, inverse(0), 1])
}

fn array_index(len: u32, index: i64, cond: Vec<Opcode>, cond_witnesses: &[i64]) -> Program {
    // index: w0; arr: w1..=w<len>; then the condition's witnesses; then the read value
    let mut ops = vec![range(0, 32)];
    for i in 1..=len {
        ops.push(assert_zero(lin(&[(1, i)], -(i as i64))));
    }
    ops.push(Opcode::MemoryInit {
        block_id: 0,
        init: (1..=len).map(Witness).collect(),
        block_type: BlockType::Memory,
    });
    ops.extend(cond);
    let value = len + 1 + cond_witnesses.len() as u32;
    ops.push(Opcode::MemoryOp {
        block_id: 0,
        op: MemOp { operation: MemOpKind::Read, index: lin(&[(1, 0)], 0), value: lin(&[(1, value)], 0) },
    });
    let mut ws = vec![index];
    ws.extend((1..=len as i64).collect::<Vec<i64>>());
    ws.extend_from_slice(cond_witnesses);
    ws.push(index + 1);
    program(value, ops, &ws)
}

/// `index != k` for the array program of length `len`, with index `k`.
fn index_not(len: u32, k: i64) -> Program {
    let inv = len + 1;
    let eq = len + 2;
    let mut cond = is_zero(&[(1, 0)], -k, inv, eq);
    cond.push(verify_assert(lin(&[(-1, eq)], 1)));
    array_index(len, k, cond, &[inverse(0), 1])
}

// ------------------------------------------------------------ tests

#[test]
fn test_assert_false() {
    let source = with_decls(
        "fn main() {
            unsafe { verify_assert(false); }
        }",
    );
    let programs = || vec![program(0, vec![verify_assert(lin(&[], 0))], &[0])];
    assert!(is_falsified(&source, &programs(), BackendType::FfGb, false));
    assert!(is_falsified(&source, &programs(), BackendType::FfSplit, false));
    assert!(is_falsified(&source, &programs(), BackendType::Int, false));
}

#[test]
fn test_mul() {
    let source = with_decls(
        "fn main(x: Field, y: Field) {
            let z = x * y;
            unsafe { verify_assert(z != x * y); }
        }",
    );
    let programs = || folded(2, vec![assert_zero(expr(&[(1, 0, 1)], &[(-1, 2)], 0))], &[3, 5, 15]);
    assert!(is_falsified(&source, &programs(), BackendType::FfGb, false));
    assert!(is_falsified(&source, &programs(), BackendType::FfSplit, false));
    assert!(is_falsified(&source, &programs(), BackendType::Int, false));
}

#[test]
fn test_add() {
    let source = with_decls(
        "fn main(x: Field, y: Field) {
            let z = x + y;
            unsafe { verify_assert(z != x + y); }
        }",
    );
    let programs = || folded(2, vec![assert_zero(lin(&[(1, 0), (1, 1), (-1, 2)], 0))], &[3, 5, 8]);
    assert!(is_falsified(&source, &programs(), BackendType::FfGb, false));
    assert!(is_falsified(&source, &programs(), BackendType::FfSplit, false));
    assert!(is_falsified(&source, &programs(), BackendType::Int, false));
}

#[test]
fn test_div() {
    let source = with_decls(
        "fn main(x: Field, y: Field) {
            let z = x / y;
            unsafe { verify_assert(z != x / y); }
        }",
    );
    // inv = 1 / y from an unconstrained call, y * inv = 1, z = x * inv
    let programs = || {
        folded(
            3,
            vec![
                call(INVERT, vec![lin(&[(1, 1)], 0)], &[2]),
                assert_zero(expr(&[(1, 1, 2)], &[], -1)),
                assert_zero(expr(&[(1, 0, 2)], &[(-1, 3)], 0)),
            ],
            &[7, 1, 1, 7],
        )
    };
    assert!(is_falsified(&source, &programs(), BackendType::FfGb, false));
    assert!(is_falsified(&source, &programs(), BackendType::FfSplit, false));
    assert!(is_falsified(&source, &programs(), BackendType::Int, false));
}

#[test]
fn test_sub() {
    let source = with_decls(
        "fn main(x: Field, y: Field) {
            let z = x - y;
            unsafe { verify_assert(z != x - y); }
        }",
    );
    let programs = || folded(2, vec![assert_zero(lin(&[(1, 0), (-1, 1), (-1, 2)], 0))], &[3, 5, -2]);
    assert!(is_falsified(&source, &programs(), BackendType::FfGb, false));
    assert!(is_falsified(&source, &programs(), BackendType::FfSplit, false));
    assert!(is_falsified(&source, &programs(), BackendType::Int, false));
}

/// `fn main(x: u8, y: u8)` with `z` computed by `op` and checked to fit in 8 bits.
fn u8_binary(z_constraint: Expression, z: i64, x: i64, y: i64) -> Vec<Program> {
    folded(2, vec![range(0, 8), range(1, 8), assert_zero(z_constraint), range(2, 8)], &[x, y, z])
}

#[test]
fn test_sub_u8() {
    let source = with_decls(
        "fn main(x: u8, y: u8) {
            let z = x - y;
            unsafe { verify_assert(z != x - y); }
        }",
    );
    let programs = || u8_binary(lin(&[(1, 0), (-1, 1), (-1, 2)], 0), 2, 7, 5);
    // Timeout with ff-gb backend
    // assert!(is_falsified(&source, &programs(), BackendType::FfGb, false));
    assert!(is_falsified(&source, &programs(), BackendType::FfSplit, false));
    assert!(is_falsified(&source, &programs(), BackendType::Int, false));
}

#[test]
fn test_add_u8() {
    let source = with_decls(
        "fn main(x: u8, y: u8) {
            let z = x + y;
            unsafe { verify_assert(z != x + y); }
        }",
    );
    let programs = || u8_binary(lin(&[(1, 0), (1, 1), (-1, 2)], 0), 12, 7, 5);
    // Timeout with ff-gb backend
    // assert!(is_falsified(&source, &programs(), BackendType::FfGb, false));
    assert!(is_falsified(&source, &programs(), BackendType::FfSplit, false));
    assert!(is_falsified(&source, &programs(), BackendType::Int, false));
}

#[test]
fn test_mul_u8() {
    let source = with_decls(
        "fn main(x: u8, y: u8) {
            let z = x * y;
            unsafe { verify_assert(z != x * y); }
        }",
    );
    let programs = || u8_binary(expr(&[(1, 0, 1)], &[(-1, 2)], 0), 35, 7, 5);
    // Timeout with ff-gb backend
    // assert!(is_falsified(&source, &programs(), BackendType::FfGb, false));
    assert!(is_falsified(&source, &programs(), BackendType::FfSplit, false));
    assert!(is_falsified(&source, &programs(), BackendType::Int, false));
}

#[test]
fn test_div_u8() {
    let source = with_decls(
        "fn main(x: u8, y: u8) {
            let z = x / y;
            unsafe { verify_assert(z != x / y); }
        }",
    );
    // q, r = x / y, x % y from an unconstrained call; y * q + r = x;
    // q and r fit in 8 bits, and y - r - 1 too (r < y)
    let programs = || {
        folded(
            4,
            vec![
                range(0, 8),
                range(1, 8),
                call(QUOTIENT, vec![lin(&[(1, 0)], 0), lin(&[(1, 1)], 0)], &[2, 3]),
                assert_zero(expr(&[(1, 1, 2)], &[(1, 3), (-1, 0)], 0)),
                range(2, 8),
                range(3, 8),
                assert_zero(lin(&[(1, 1), (-1, 3), (-1, 4)], -1)),
                range(4, 8),
            ],
            &[7, 5, 1, 2, 2],
        )
    };
    // Timeout to solve with ff-gb and ff-split backends
    // assert!(is_falsified(&source, &programs(), BackendType::FfGb, false));
    // assert!(is_falsified(&source, &programs(), BackendType::FfSplit, false));
    assert!(is_falsified(&source, &programs(), BackendType::Int, false));
}

#[test]
fn test_and_u8() {
    let source = with_decls(
        "fn main(x: u8, y: u8) {
            let z = x & y;
            unsafe { verify_assert(z != x & y); }
        }",
    );
    let programs = || folded(2, vec![range(0, 8), range(1, 8), and(0, 1, 8, 2)], &[6, 3, 2]);
    assert!(is_falsified(&source, &programs(), BackendType::FfGb, false));
    assert!(is_falsified(&source, &programs(), BackendType::FfSplit, false));
    assert!(is_falsified(&source, &programs(), BackendType::Int, false));
}

#[test]
fn test_or_u8() {
    let source = with_decls(
        "fn main(x: u8, y: u8) {
            let z = x | y;
            unsafe { verify_assert(z != x | y); }
        }",
    );
    // z = 255 - ((255 - x) & (255 - y))
    let programs = || {
        folded(
            5,
            vec![
                range(0, 8),
                range(1, 8),
                assert_zero(lin(&[(1, 0), (1, 2)], -255)),
                assert_zero(lin(&[(1, 1), (1, 3)], -255)),
                and(2, 3, 8, 4),
                assert_zero(lin(&[(1, 4), (1, 5)], -255)),
            ],
            &[6, 3, 249, 252, 248, 7],
        )
    };
    assert!(is_falsified(&source, &programs(), BackendType::FfGb, false));
    assert!(is_falsified(&source, &programs(), BackendType::FfSplit, false));
    assert!(is_falsified(&source, &programs(), BackendType::Int, false));
}

/// `XOR` of two witnesses: the library carries no operands for it, as it
/// does not encode it; relaxed mode skips it.
fn xor() -> Opcode {
    Opcode::BlackBoxFuncCall(BlackBoxFuncCall::Xor)
}

#[test]
fn test_xor_u8() {
    let source = with_decls(
        "fn main(x: u8, y: u8) {
            let z = x ^ y;
            unsafe { verify_assert(z != x ^ y); }
        }",
    );
    let programs = || folded(2, vec![range(0, 8), range(1, 8), xor()], &[6, 3, 5]);
    assert!(is_falsified(&source, &programs(), BackendType::FfGb, false));
    assert!(is_falsified(&source, &programs(), BackendType::FfSplit, false));
    assert!(is_falsified(&source, &programs(), BackendType::Int, false));
}

#[test]
fn test_xor_zero_u8() {
    let source = with_decls(
        "fn main(x: u8) {
            let z = x ^ x;
            unsafe { verify_assert(z != 0); }
        }",
    );
    let programs = || folded(0, vec![range(0, 8)], &[9]);
    assert!(is_falsified(&source, &programs(), BackendType::FfGb, false));
    assert!(is_falsified(&source, &programs(), BackendType::FfSplit, false));
    assert!(is_falsified(&source, &programs(), BackendType::Int, false));
}

#[test]
fn test_xor_zero_assert_u8() {
    let source = with_decls(
        "fn main(x: u8, y: u8) {
            assert(x == y);
            let z = x ^ y;
            let w = z & x;
            let v = z & y;
            unsafe { verify_assert((w != 0) & (v != 0)); }
        }",
    );
    // z: w2 (XOR), w: w3, v: w4; (w != 0) = 1 - w6, (v != 0) = 1 - w8
    let programs = || {
        let mut ops = vec![range(0, 8), range(1, 8), assert_zero(lin(&[(1, 0), (-1, 1)], 0)), xor()];
        ops.push(and(2, 0, 8, 3));
        ops.push(and(2, 1, 8, 4));
        ops.extend(is_zero(&[(1, 3)], 0, 5, 6));
        ops.extend(is_zero(&[(1, 4)], 0, 7, 8));
        // (1 - w6) * (1 - w8) = w6 * w8 - w6 - w8 + 1
        ops.push(verify_assert(expr(&[(1, 6, 8)], &[(-1, 6), (-1, 8)], 1)));
        vec![program(8, ops, &[4, 4, 0, 0, 0, inverse(0), 1, inverse(0), 1])]
    };
    // Timeout with ff-gb backend
    // assert!(is_falsified(&source, &programs(), BackendType::FfGb, false));
    assert!(is_falsified(&source, &programs(), BackendType::FfSplit, false));
    assert!(is_falsified(&source, &programs(), BackendType::Int, false));
}

#[test]
fn test_comparison_u8() {
    let source = with_decls(
        "fn main(x: u8, y: u8) {
            let z = x > y;
            unsafe { verify_assert(z != (x > y)); }
        }",
    );
    // z = x > y: x - y - 1 + 256 = 256 * z + r, r in 8 bits, z a bit
    let programs = || {
        folded(
            3,
            vec![
                range(0, 8),
                range(1, 8),
                assert_zero(lin(&[(1, 0), (-1, 1), (-256, 2), (-1, 3)], 255)),
                range(2, 1),
                range(3, 8),
            ],
            &[9, 4, 1, 4],
        )
    };
    assert!(is_falsified(&source, &programs(), BackendType::FfGb, false));
    assert!(is_falsified(&source, &programs(), BackendType::FfSplit, false));
    assert!(is_falsified(&source, &programs(), BackendType::Int, false));
}

#[test]
fn test_not_bool() {
    let source = with_decls(
        "fn main(x: bool) {
            let z = !x;
            unsafe { verify_assert(z == x); }
        }",
    );
    // z == x is (1 - 2x) == 0
    let programs = || {
        let mut ops = vec![range(0, 1)];
        ops.extend(is_zero(&[(-2, 0)], 1, 1, 2));
        ops.push(verify_assert(lin(&[(1, 2)], 0)));
        vec![program(2, ops, &[0, 1, 0])]
    };
    assert!(is_falsified(&source, &programs(), BackendType::FfGb, false));
    assert!(is_falsified(&source, &programs(), BackendType::FfSplit, false));
    assert!(is_falsified(&source, &programs(), BackendType::Int, false));
}

#[test]
fn test_array_add() {
    let source = with_decls(
        "fn main(x: [u8; 2]) {
            let z = x[0] + x[1];
            unsafe { verify_assert(z != x[0] + x[1]); }
        }",
    );
    let programs = || u8_binary(lin(&[(1, 0), (1, 1), (-1, 2)], 0), 30, 10, 20);
    // Timeout with ff-gb
    // assert!(is_falsified(&source, &programs(), BackendType::FfGb, false));
    assert!(is_falsified(&source, &programs(), BackendType::FfSplit, false));
    assert!(is_falsified(&source, &programs(), BackendType::Int, false));
}

#[test]
fn test_loop_add() {
    let source = with_decls(
        "fn main(values: [Field; 2]) {
            let mut sum = 0;
            for value in values {
                sum = sum + value;
            }
            unsafe { verify_assert(sum != (values[0] + values[1])); }
        }",
    );
    let programs = || folded(2, vec![assert_zero(lin(&[(1, 0), (1, 1), (-1, 2)], 0))], &[11, 31, 42]);
    assert!(is_falsified(&source, &programs(), BackendType::FfGb, false));
    assert!(is_falsified(&source, &programs(), BackendType::FfSplit, false));
    assert!(is_falsified(&source, &programs(), BackendType::Int, false));
}

#[test]
fn test_xor_with_assume() {
    let source = with_decls(
        "fn main(x: u8) {
            unsafe { verify_assume(x == 1); }
            let z = x ^ 0;
            unsafe { verify_assert(z == 0); }
        }",
    );
    // assume (x - 1 == 0): w2; assert (x == 0): w4
    let programs = || {
        let mut ops = vec![range(0, 8)];
        ops.extend(is_zero(&[(1, 0)], -1, 1, 2));
        ops.push(verify_assume(lin(&[(1, 2)], 0)));
        ops.extend(is_zero(&[(1, 0)], 0, 3, 4));
        ops.push(verify_assert(lin(&[(1, 4)], 0)));
        vec![program(4, ops, &[1, inverse(0), 1, inverse(1), 0])]
    };
    assert!(is_falsified(&source, &programs(), BackendType::FfGb, false));
    assert!(is_falsified(&source, &programs(), BackendType::FfSplit, false));
    assert!(is_falsified(&source, &programs(), BackendType::Int, false));
}

#[test]
fn test_or_with_assume() {
    let source = with_decls(
        "fn main(x: u8, y: u8) {
            unsafe { verify_assume(x == 0); }
            let z = x | y;
            unsafe { verify_assert(z != y); }
        }",
    );
    let programs = || vec![or_with_assume()];
    assert!(is_falsified(&source, &programs(), BackendType::FfGb, false));
    assert!(is_falsified(&source, &programs(), BackendType::FfSplit, false));
    assert!(is_falsified(&source, &programs(), BackendType::Int, false));
}

#[test]
fn test_array_index_bound_3() {
    let source = with_decls(
        "fn main(index: u32) -> pub Field {
            let arr: [Field; 7] = [1, 2, 3, 4, 5, 6, 7];
            unsafe { verify_assert(index != 3); }
            arr[index]
        }",
    );
    let programs = || vec![index_not(7, 3)];
    assert!(is_falsified(&source, &programs(), BackendType::FfGb, false));
    assert!(is_falsified(&source, &programs(), BackendType::FfSplit, false));
    assert!(is_falsified(&source, &programs(), BackendType::Int, false));
}

#[test]
fn test_array_index_bound_6() {
    let source = with_decls(
        "fn main(index: u32) -> pub Field {
            let arr: [Field; 7] = [1, 2, 3, 4, 5, 6, 7];
            unsafe { verify_assert(index != 6); }
            arr[index]
        }",
    );
    let programs = || vec![index_not(7, 6)];
    assert!(is_falsified(&source, &programs(), BackendType::FfGb, false));
    assert!(is_falsified(&source, &programs(), BackendType::FfSplit, false));
    assert!(is_falsified(&source, &programs(), BackendType::Int, false));
}

#[test]
fn test_array_index_bound_2() {
    let source = with_decls(
        "fn main(index: u32) -> pub Field {
            let arr: [Field; 2] = [1, 2];
            unsafe { verify_assert(index >= 2); }
            arr[index]
        }",
    );
    // index >= 2: index - 2 + 2^32 = 2^32 * ge + r, r in 32 bits, ge a bit
    let programs = || {
        let cond = vec![
            assert_zero(lin(&[(1, 0), (-(1i64 << 32), 3), (-1, 4)], (1i64 << 32) - 2)),
            range(3, 1),
            range(4, 32),
            verify_assert(lin(&[(1, 3)], 0)),
        ];
        vec![array_index(2, 0, cond, &[0, (1i64 << 32) - 2])]
    };
    // Timeout with ff-gb backend
    // assert!(is_falsified(&source, &programs(), BackendType::FfGb, false));
    assert!(is_falsified(&source, &programs(), BackendType::FfSplit, false));
    assert!(is_falsified(&source, &programs(), BackendType::Int, false));
}

#[test]
fn test_with_formal_attribute() {
    let source = with_decls(
        "fn main(x: u8, y: u8) {
            unsafe { verify_assume(x == 0); }
            let z = x | y;
            unsafe { verify_assert(z != y); }
        }

        #[formal]
        fn add(x: Field, y: Field) {
            let z = x + y;
            unsafe { verify_assert(z != x + y); }
        }",
    );
    let programs = || {
        let mut progs = vec![or_with_assume()];
        progs.extend(folded(2, vec![assert_zero(lin(&[(1, 0), (1, 1), (-1, 2)], 0))], &[1, 2, 3]));
        progs
    };
    assert!(is_falsified(&source, &programs(), BackendType::FfGb, false));
    assert!(is_falsified(&source, &programs(), BackendType::FfSplit, false));
    assert!(is_falsified(&source, &programs(), BackendType::Int, false));
}

#[test]
fn unsatisfiable_constraints_are_not_falsified() {
    // the witness values break `x * y = z`: no model is found
    let programs = vec![program(
        2,
        vec![assert_zero(expr(&[(1, 0, 1)], &[(-1, 2)], 0)), verify_assert(lin(&[], 0))],
        &[3, 5, 16],
    )];
    let results = check(&programs, BackendType::FfGb, false);
    assert_eq!(results.len(), 1);
    assert_eq!(results[0].len(), 1);
    assert!(!results[0][0].0.is_falsified());
}

#[test]
fn conditions_carry_their_call_locations() {
    let prog = or_with_assume();
    let results = check(&[prog], BackendType::Int, false);
    // the verify_assert call is the last opcode
    assert_eq!(results[0].len(), 1);
    assert_eq!(results[0][0].1, 13);
}

#[test]
fn models_name_witnesses_and_activation_literals() {
    let results = check(&[program(0, vec![verify_assert(lin(&[], 0))], &[0])], BackendType::FfGb, false);
    match &results[0][0].0 {
        Output::Falsified(model) => {
            let names: Vec<&str> = model.iter().map(|(n, _)| n.as_str()).collect();
            assert_eq!(names, vec!["w0", "actlit_0", "w1"]);
            assert!(matches!(model[1].1, Value::Bool(true)));
            match &model[2].1 {
                Value::FField(s) => assert_eq!(s, "0"),
                _ => panic!("the condition witness is a field element"),
            }
        },
        _ => panic!("expected a falsified condition"),
    }
}

#[test]
fn reads_admit_exactly_the_indices_of_the_block() {
    // arr: w1..=w7 holding 1..=7; a read of arr[w0] into w8; the condition is `false`
    let read_at = |index: i64| {
        let mut ops = Vec::new();
        for i in 1..=7u32 {
            ops.push(assert_zero(lin(&[(1, i)], -(i as i64))));
        }
        ops.push(Opcode::MemoryInit { block_id: 0, init: (1..=7).map(Witness).collect(), block_type: BlockType::Memory });
        ops.push(verify_assert(lin(&[], 0)));
        ops.push(Opcode::MemoryOp {
            block_id: 0,
            op: MemOp { operation: MemOpKind::Read, index: lin(&[(1, 0)], 0), value: lin(&[(1, 8)], 0) },
        });
        let value = if index < 7 { index + 1 } else { 0 };
        program(8, ops, &[index, 1, 2, 3, 4, 5, 6, 7, value])
    };
    for backend in [BackendType::FfGb, BackendType::FfSplit, BackendType::Int] {
        for index in 0..7 {
            let results = check(&[read_at(index)], backend, false);
            assert!(results[0][0].0.is_falsified(), "index {} is in the block", index);
        }
        for index in [7, 8, 255] {
            let results = check(&[read_at(index)], backend, false);
            assert!(!results[0][0].0.is_falsified(), "index {} is past the block", index);
        }
    }
}
