use acir_checker::check::{
    encoding_stop, get_output, translate_execution, translate_program, BackendType, CheckSession, Output, RangeEncodingKind,
    RangeOpts, PRIME,
};
use acir_checker::circuit::{
    BlackBoxFuncCall, BlockType, BrilligInputs, BrilligOutputs, Circuit, Expression, FunctionInput, MemOp,
    MemOpKind, Opcode, Witness,
};
use acir_checker::encoder::check_strictness;
use acir_checker::error::Error;
use acir_checker::field::{is_field_modulus, FieldValue};
use acir_checker::model::parse_model_value;
use acir_checker::report::{exec_report, verify_report, Color, Signature};
use acir_checker::smt::{Bool, Command, SolverOutput, Type, Value};
use acir_checker::source::{extract_expr, extract_expr_accepts, line_and_column_from};
use acir_checker::text::{actlit_name, decimal_string, memory_name, witness_name};
use num_bigint::BigUint;

fn fe(n: u32) -> FieldValue {
    FieldValue::from_u32(n)
}

fn minus(n: u32) -> FieldValue {
    let p: BigUint = PRIME.parse().unwrap();
    FieldValue::from_be_bytes(&(p - BigUint::from(n)).to_bytes_be())
}

fn lin(terms: &[(u32, u32)], c: u32) -> Expression {
    Expression {
        mul_terms: vec![],
        linear_combinations: terms.iter().map(|&(q, w)| (fe(q), Witness(w))).collect(),
        q_c: fe(c),
    }
}

fn verify_call(id: u32, e: Expression) -> Opcode {
    Opcode::BrilligCall { id, inputs: vec![BrilligInputs::Single(e)], outputs: vec![], predicate: lin(&[], 1) }
}

fn names() -> Vec<String> {
    vec!["verify_assert".to_string(), "verify_assume".to_string(), "verify_print".to_string()]
}

fn texts(commands: &[Command]) -> Vec<String> {
    commands
        .iter()
        .map(|c| match c {
            Command::DeclareConst(n, t) => format!("(declare-const {} {})", n, t.sort_name()),
            Command::Assert(b) => format!("(assert {})", b.to_smt2()),
        })
        .collect()
}

// ------------------------------------------------------------ field elements

#[test]
fn field_elements_are_shown_in_their_shorter_form() {
    assert_eq!(fe(5).to_text(), "5");
    assert_eq!(minus(1).to_text(), "-1");
    assert_eq!(minus(42).to_text(), "-42");
    let p: BigUint = PRIME.parse().unwrap();
    // the modulus itself is reduced to zero
    assert_eq!(FieldValue::from_be_bytes(&p.to_bytes_be()).to_text(), "0");
    assert!(FieldValue::from_be_bytes(&p.to_bytes_be()).is_zero());
    assert!(fe(1).is_one());
    assert!(!fe(2).is_one());
}

#[test]
fn the_solver_prime_is_the_field_modulus() {
    assert!(is_field_modulus(PRIME));
    assert!(!is_field_modulus("13"));
}

// ------------------------------------------------------------ names

#[test]
fn constants_are_named_by_their_numbers() {
    assert_eq!(witness_name(12), "w12");
    assert_eq!(actlit_name(3), "actlit_3");
    assert_eq!(memory_name(1, 2, 3), "_m_1_2_3");
    assert_eq!(decimal_string(0), "0");
    assert_eq!(decimal_string(1234567890123), "1234567890123");
}

// ------------------------------------------------------------ terms

#[test]
fn boolean_terms_are_written_in_smt_lib() {
    let a = Bool::new_const("a");
    let b = Bool::new_const("b");
    assert_eq!(a.duplicate().and(b.duplicate()).to_smt2(), "(and a b)");
    assert_eq!(a.duplicate().or(b.duplicate()).to_smt2(), "(or a b)");
    assert_eq!(a.duplicate().imp(b.duplicate()).to_smt2(), "(=> a b)");
    assert_eq!(a.neg().to_smt2(), "(not a)");
    assert_eq!(Bool::new_value(true).to_smt2(), "true");
}

#[test]
fn values_are_written_for_the_solver_and_the_user() {
    let mut out = String::new();
    Value::FField("7".to_string()).write_smt2(&mut out);
    assert_eq!(out, "(as ff7 FF)");
    assert_eq!(Value::FField("7".to_string()).to_display_string(), "7");
    assert_eq!(Value::Int("-3".to_string()).to_display_string(), "-3");
    assert_eq!(Value::Bool(false).to_display_string(), "false");
    assert_eq!(Type::FField.sort_name(), "FF");
}

// ------------------------------------------------------------ models

#[test]
fn model_values_are_read_by_sort() {
    assert!(matches!(parse_model_value("Int", "42"), Some(Value::Int(s)) if s == "42"));
    assert!(matches!(parse_model_value("Bool", "true"), Some(Value::Bool(true))));
    assert!(matches!(parse_model_value("Bool", "false"), Some(Value::Bool(false))));
    assert!(parse_model_value("Bool", "maybe").is_none());
    assert!(matches!(parse_model_value("(_ FiniteField 17)", "#f5m17"), Some(Value::FField(s)) if s == "5"));
    assert!(parse_model_value("(_ FiniteField 17)", "#f5").is_none());
    assert!(parse_model_value("(_ FiniteField 17)", "5m17").is_none());
    assert!(parse_model_value("Real", "1.0").is_none());
}

#[test]
fn a_field_value_reads_back_its_digits() {
    let text = format!("#f{}m{}", "123456", PRIME);
    let typ = format!("(_ FiniteField {})", PRIME);
    assert!(matches!(parse_model_value(&typ, &text), Some(Value::FField(s)) if s == "123456"));
}

// ------------------------------------------------------------ outcomes

#[test]
fn solver_answers_give_outcomes() {
    assert!(get_output(SolverOutput::Sat, vec![]).is_falsified());
    assert!(get_output(SolverOutput::Unsat, vec![]).is_verified());
    let u = get_output(SolverOutput::Unknown, vec![]);
    assert!(!u.is_verified() && !u.is_falsified());
    assert_eq!(BackendType::default(), BackendType::FfGb);
}

#[test]
fn range_options_keep_what_they_were_given() {
    let r = RangeOpts::new(Some(16), RangeEncodingKind::BaseDecomposition(4));
    assert_eq!(r.limit(), Some(16));
    assert_eq!(r.kind(), RangeEncodingKind::BaseDecomposition(4));
    let d = RangeOpts::default();
    assert_eq!(d.limit(), None);
    assert_eq!(d.kind(), RangeEncodingKind::BitDecomposition);
}

// ------------------------------------------------------------ encoding

#[test]
fn assert_zero_is_encoded_for_each_backend() {
    let c = Circuit {
        current_witness_index: 1,
        opcodes: vec![Opcode::AssertZero(Expression {
            mul_terms: vec![(fe(2), Witness(0), Witness(1))],
            linear_combinations: vec![(minus(1), Witness(1))],
            q_c: fe(3),
        })],
    };
    let t = translate_program(&c, vec![], BackendType::FfGb, true).unwrap();
    assert_eq!(
        texts(t.commands()),
        vec![
            "(declare-const w0 FF)",
            "(declare-const w1 FF)",
            "(assert (= (ff.add (ff.mul (as ff2 FF) w0 w1) (ff.mul (as ff-1 FF) w1) (as ff3 FF)) (as ff0 FF)))",
        ]
    );
    assert!(t.has_constraints());
    let t = translate_program(&c, vec![], BackendType::Int, true).unwrap();
    let expected_tail = format!("(assert (= (mod (+ (* 2 w0 w1) (* -1 w1) 3) {}) 0))", PRIME);
    let got = texts(t.commands());
    assert_eq!(got[0], "(declare-const w0 Int)");
    assert_eq!(got[1], "(assert (< -1 w0))");
    assert_eq!(got[2], format!("(assert (< w0 {}))", PRIME));
    assert_eq!(got.last().unwrap(), &expected_tail);
}

#[test]
fn ranges_are_bit_decompositions_or_bounds() {
    let c = Circuit {
        current_witness_index: 0,
        opcodes: vec![Opcode::BlackBoxFuncCall(BlackBoxFuncCall::Range {
            input: FunctionInput::Witness(Witness(0)),
            num_bits: 3,
        })],
    };
    let t = translate_program(&c, vec![], BackendType::Int, true).unwrap();
    let got = texts(t.commands());
    assert_eq!(got.last().unwrap(), "(assert (< w0 8))");
    let t = translate_program(&c, vec![], BackendType::FfSplit, true).unwrap();
    let got = texts(t.commands());
    assert_eq!(got.last().unwrap(), "(assert (= w0 (ff.bitsum w1 w2 w3)))");
    assert_eq!(got[1], "(declare-const w1 FF)");
    assert_eq!(got[2], "(assert (= (ff.mul w1 (ff.add w1 (as ff-1 FF))) (as ff0 FF)))");
}

#[test]
fn wide_ranges_use_large_powers_of_two() {
    let c = Circuit {
        current_witness_index: 0,
        opcodes: vec![Opcode::BlackBoxFuncCall(BlackBoxFuncCall::Range {
            input: FunctionInput::Witness(Witness(0)),
            num_bits: 100,
        })],
    };
    let t = translate_program(&c, vec![], BackendType::Int, true).unwrap();
    let got = texts(t.commands());
    assert_eq!(got.last().unwrap(), "(assert (< w0 1267650600228229401496703205376))");
}

#[test]
fn verification_conditions_are_numbered_in_order() {
    let c = Circuit {
        current_witness_index: 0,
        opcodes: vec![
            verify_call(0, lin(&[(1, 0)], 0)),
            verify_call(1, lin(&[(1, 0)], 0)),
            verify_call(0, lin(&[], 1)),
            Opcode::BrilligCall {
                id: 2,
                inputs: vec![],
                outputs: vec![BrilligOutputs::Simple(Witness(0))],
                predicate: lin(&[], 1),
            },
        ],
    };
    let t = translate_program(&c, names(), BackendType::FfGb, true).unwrap();
    assert_eq!(t.ver_conds(), vec![("actlit_0".to_string(), 0), ("actlit_1".to_string(), 2)]);
    assert_eq!(t.print_locs(), vec![(0, 3)]);
    let got = texts(t.commands());
    assert!(got.contains(&"(assert (= (ff.add (ff.mul (as ff1 FF) w0) (as ff0 FF)) (as ff1 FF)))".to_string()));
    assert!(got.contains(&"(assert (=> actlit_0 (= w1 (as ff0 FF))))".to_string()));
    assert!(got.contains(&"(assert (=> (not actlit_0) (= w1 (as ff1 FF))))".to_string()));
}

#[test]
fn a_session_assumes_verified_conditions() {
    let c = Circuit {
        current_witness_index: 0,
        opcodes: vec![verify_call(0, lin(&[(1, 0)], 0)), verify_call(0, lin(&[], 0))],
    };
    let t = translate_program(&c, names(), BackendType::FfGb, true).unwrap();
    let mut s = CheckSession::new(&t);
    assert_eq!(s.next_query(), Some("actlit_0".to_string()));
    let follow = s.record(SolverOutput::Unsat, vec![]);
    assert_eq!(follow.unwrap().to_smt2(), "(not actlit_0)");
    assert_eq!(s.next_query(), Some("actlit_1".to_string()));
    assert!(s.record(SolverOutput::Sat, vec![("w0".to_string(), Value::FField("1".to_string()))]).is_none());
    assert!(s.is_done());
    assert_eq!(s.next_query(), None);
    let r = s.finish();
    let outs = r.solver_output();
    assert_eq!(outs.len(), 2);
    assert!(outs[0].0.is_verified() && outs[0].1 == 0);
    assert!(outs[1].0.is_falsified() && outs[1].1 == 1);
}

#[test]
fn unsupported_opcodes_fail_only_in_strict_mode() {
    let c = Circuit { current_witness_index: 0, opcodes: vec![Opcode::BlackBoxFuncCall(BlackBoxFuncCall::Xor)] };
    match translate_program(&c, vec![], BackendType::FfGb, true) {
        Err(Error::EncodingError(m)) => assert_eq!(m, "XOR black box function is not supported"),
        _ => panic!("strict mode refuses XOR"),
    }
    assert!(translate_program(&c, vec![], BackendType::FfGb, false).is_ok());
    assert!(check_strictness(false, Err(Error::EncodingError("x".to_string()))).is_ok());
    assert!(check_strictness(true, Err(Error::EncodingError("x".to_string()))).is_err());
    assert!(check_strictness(false, Err(Error::SmtSolvingError("x".to_string()))).is_ok());
    assert!(check_strictness(true, Err(Error::SmtSolvingError("x".to_string()))).is_err());
    assert!(check_strictness(false, Err(Error::InvalidCircuit("x".to_string()))).is_err());
}

#[test]
fn invalid_circuits_are_refused() {
    // a memory operation on a block that was never initialised
    let c = Circuit {
        current_witness_index: 1,
        opcodes: vec![Opcode::MemoryOp {
            block_id: 4,
            op: MemOp { operation: MemOpKind::Read, index: lin(&[(1, 0)], 0), value: lin(&[(1, 1)], 0) },
        }],
    };
    assert_eq!(encoding_stop(&c, vec![], BackendType::Int, false), Some("MemInit opcode should have run before".to_string()));
    // a verification call under a predicate other than 1
    let c = Circuit {
        current_witness_index: 0,
        opcodes: vec![Opcode::BrilligCall {
            id: 0,
            inputs: vec![BrilligInputs::Single(lin(&[], 0))],
            outputs: vec![],
            predicate: lin(&[(1, 0)], 0),
        }],
    };
    assert_eq!(
        encoding_stop(&c, names(), BackendType::FfGb, false),
        Some("verification call under a predicate other than 1".to_string())
    );
    let e = Error::SmtSolvingError("no solver".to_string());
    assert_eq!(e.to_display_string(), "SMT solving error: no solver");
}

#[test]
fn memory_reads_bound_the_index_and_select_the_cell() {
    let c = Circuit {
        current_witness_index: 3,
        opcodes: vec![
            Opcode::MemoryInit { block_id: 0, init: vec![Witness(0), Witness(1), Witness(2)], block_type: BlockType::Memory },
            Opcode::MemoryOp {
                block_id: 0,
                op: MemOp { operation: MemOpKind::Read, index: lin(&[(1, 3)], 0), value: lin(&[(1, 0)], 0) },
            },
        ],
    };
    let t = translate_program(&c, vec![], BackendType::FfGb, true).unwrap();
    let got = texts(t.commands());
    assert!(got.contains(&"(declare-const _m_0_0_0 FF)".to_string()));
    assert!(got.contains(&"(assert (= w2 _m_0_2_0))".to_string()));
    assert!(got.contains(&"(assert (=> (= w4 (as ff1 FF)) (= w7 _m_0_1_0)))".to_string()));
    // the index 0..=2 is two bits, and bit 1 set forbids bit 0
    assert!(got.contains(&"(assert (= w4 (ff.bitsum w5 w6)))".to_string()));
    assert!(got.contains(&"(assert (= (ff.mul w5 w6) (as ff0 FF)))".to_string()));
}

#[test]
fn executions_fix_the_witnesses() {
    let c = Circuit { current_witness_index: 1, opcodes: vec![] };
    let wm = vec![(Witness(0), fe(5)), (Witness(1), minus(1))];
    let t = translate_execution(&wm, &c, BackendType::FfGb, true).unwrap();
    let got = texts(t.commands());
    assert_eq!(got[2], "(assert (= w0 (as ff5 FF)))");
    assert_eq!(got[3], "(assert (= w1 (as ff-1 FF)))");
    let t = translate_execution(&wm, &c, BackendType::Int, true).unwrap();
    let got = texts(t.commands());
    assert_eq!(got[got.len() - 2], "(assert (= w0 5))");
    assert_eq!(got[got.len() - 1], format!("(assert (= w1 (mod -1 {})))", PRIME));
}

// ------------------------------------------------------------ source text

#[test]
fn lines_and_columns_are_counted_in_characters() {
    assert_eq!(line_and_column_from(0, "abc"), (1, 1));
    assert_eq!(line_and_column_from(4, "ab\ncd\nef"), (2, 2));
    assert_eq!(line_and_column_from(2, "ab\ncd"), (2, 0));
    assert_eq!(line_and_column_from(100, "ab\nc"), (2, 1));
    assert_eq!(line_and_column_from(0, ""), (1, 0));
}

#[test]
fn conditions_are_cut_from_their_statement() {
    let src = "fn main(x: u8) {\n    unsafe { verify_assert(x == 1); }\n}\n";
    assert!(extract_expr_accepts(2, 13, src));
    assert_eq!(extract_expr(2, 13, src), Some("x == 1".to_string()));
    // a `;` before the last `)` ends the condition just before it
    let src2 = "verify_assert(a); f(b)";
    assert_eq!(extract_expr(1, 0, src2), Some("a".to_string()));
    // no `;`: nothing is cut
    assert_eq!(extract_expr(1, 0, "verify_assert(a)"), None);
    // a line past the end
    assert_eq!(extract_expr(9, 0, src), None);
    // carriage returns end lines with their newline
    assert_eq!(extract_expr(1, 0, "g(y);\r\nz"), Some("y".to_string()));
    // line 0, or a column past the line, cannot be read
    assert!(!extract_expr_accepts(0, 0, src));
    assert!(!extract_expr_accepts(3, 5, src));
}

// ------------------------------------------------------------ reports

fn joined(segs: &[(Color, String)]) -> String {
    segs.iter().map(|(_, t)| t.as_str()).collect::<Vec<_>>().join("")
}

#[test]
fn execution_reports_name_the_package_and_the_verdict() {
    let r = exec_report("pkg", &Output::Falsified(vec![]));
    assert_eq!(joined(&r), "\n[pkg] Execution check for packageChecked\n");
    assert_eq!(r[1].0, Color::Blue);
    assert_eq!(r[3].0, Color::Green);
    let r = exec_report("pkg", &Output::Verified);
    assert_eq!(r[3], (Color::Red, "Failed\n".to_string()));
}

#[test]
fn short_reports_summarise_verified_conditions() {
    let sig = Signature { param_names: vec![], param_witnesses: vec![], return_witnesses: vec![] };
    let results = vec![(Output::Verified, 3), (Output::Verified, 7)];
    let r = verify_report("pkg", "main", &results, &[None, None], &sig, false);
    assert_eq!(joined(&r), "\n[pkg] Checked main \nAll assertions verified\n\n[pkg]\n");
}

#[test]
fn verbose_reports_show_models_and_witnesses() {
    let sig = Signature {
        param_names: vec!["x".to_string(), "y".to_string()],
        param_witnesses: vec![0, 1],
        return_witnesses: vec![2],
    };
    let model = vec![("w0".to_string(), Value::FField("3".to_string())), ("actlit_0".to_string(), Value::Bool(true))];
    let results = vec![(Output::Falsified(model), 5), (Output::Unknown, 6)];
    let r = verify_report("pkg", "main", &results, &[Some("x == 1".to_string()), None], &sig, true);
    assert_eq!(
        joined(&r),
        "\n[pkg] Checked main \nAssert \"x == 1\" : Falsified\nModel---\n[\"{\"w0\": FField(\"3\"), \"actlit_0\": Bool(true)}\"]\n\
         \nFunction parameters (name, witness_id, and value)---\nx: w0 -> Some(FField(\"3\"))\ny: w1 -> None\n\
         \nReturn values (witness_id, and value)---\nw2 -> None\n\
         Assert \"<-->\" : Unknown\n\n[pkg]\n"
    );
    let short = verify_report("pkg", "main", &results, &[Some("x == 1".to_string()), None], &sig, false);
    assert_eq!(joined(&short), "\n[pkg] Checked main \nAssert \"x == 1\" : Falsified\n\n[pkg]\n");
}

#[test]
fn no_constant_is_declared_twice() {
    let c = Circuit {
        current_witness_index: 4,
        opcodes: vec![
            Opcode::MemoryInit { block_id: 0, init: vec![Witness(0), Witness(1)], block_type: BlockType::Memory },
            Opcode::MemoryInit { block_id: 1, init: vec![Witness(2)], block_type: BlockType::Memory },
            Opcode::MemoryOp {
                block_id: 0,
                op: MemOp { operation: MemOpKind::Write, index: lin(&[(1, 3)], 0), value: lin(&[(1, 4)], 0) },
            },
            Opcode::MemoryOp {
                block_id: 0,
                op: MemOp { operation: MemOpKind::Write, index: lin(&[(1, 3)], 0), value: lin(&[(1, 2)], 0) },
            },
            Opcode::MemoryOp {
                block_id: 1,
                op: MemOp { operation: MemOpKind::Read, index: lin(&[], 0), value: lin(&[(1, 4)], 0) },
            },
            verify_call(0, lin(&[(1, 4)], 0)),
            verify_call(0, lin(&[(1, 3)], 0)),
        ],
    };
    for backend in [BackendType::FfGb, BackendType::Int] {
        let t = translate_program(&c, names(), backend, true).unwrap();
        let mut declared: Vec<String> = t
            .commands()
            .iter()
            .filter_map(|c| match c {
                Command::DeclareConst(n, _) => Some(n.clone()),
                _ => None,
            })
            .collect();
        let total = declared.len();
        assert!(declared.contains(&"_m_0_1_2".to_string()));
        assert!(declared.contains(&"actlit_1".to_string()));
        declared.sort();
        declared.dedup();
        assert_eq!(declared.len(), total);
    }
}

#[test]
fn a_circuit_without_constraints_asks_nothing() {
    let c = Circuit {
        current_witness_index: 0,
        opcodes: vec![Opcode::BrilligCall {
            id: 2,
            inputs: vec![],
            outputs: vec![BrilligOutputs::Simple(Witness(0))],
            predicate: lin(&[], 1),
        }],
    };
    let t = translate_program(&c, names(), BackendType::FfGb, true).unwrap();
    assert!(!t.has_constraints());
    assert_eq!(t.print_locs(), vec![(0, 0)]);
    let s = CheckSession::for_circuit(&t);
    assert!(s.is_done());
    let r = s.finish();
    assert!(r.solver_output().is_empty());
    assert!(r.print_locs().is_empty());
}

#[test]
fn each_input_of_a_verify_assert_call_is_a_condition() {
    let c = Circuit {
        current_witness_index: 1,
        opcodes: vec![
            Opcode::AssertZero(lin(&[(1, 0)], 0)),
            Opcode::BrilligCall {
                id: 0,
                inputs: vec![BrilligInputs::Single(lin(&[(1, 0)], 0)), BrilligInputs::Single(lin(&[(1, 1)], 0))],
                outputs: vec![],
                predicate: lin(&[], 1),
            },
            verify_call(1, lin(&[(1, 1)], 0)),
            verify_call(0, lin(&[], 0)),
        ],
    };
    let t = translate_program(&c, names(), BackendType::Int, false).unwrap();
    let locs: Vec<usize> = t.ver_conds().iter().map(|(_, l)| *l).collect();
    assert_eq!(locs, vec![1, 1, 3]);
}

#[test]
fn relaxed_mode_skips_what_strict_mode_refuses() {
    let c = Circuit {
        current_witness_index: 0,
        opcodes: vec![
            Opcode::Call { id: 1, inputs: vec![], outputs: vec![], predicate: lin(&[], 1) },
            Opcode::MemoryInit { block_id: 0, init: vec![Witness(0)], block_type: BlockType::ReturnData },
            verify_call(0, lin(&[(1, 0)], 0)),
        ],
    };
    match translate_program(&c, names(), BackendType::FfGb, true) {
        Err(Error::EncodingError(m)) => assert_eq!(m, "Function calls are not supported in formal verification"),
        _ => panic!("strict mode refuses a call"),
    }
    let t = translate_program(&c, names(), BackendType::FfGb, false).unwrap();
    assert_eq!(t.ver_conds().len(), 1);
}

#[test]
fn broken_circuits_stop_the_encoding_in_either_mode() {
    // a verify_print call with an empty output array
    let c = Circuit {
        current_witness_index: 0,
        opcodes: vec![Opcode::BrilligCall {
            id: 2,
            inputs: vec![],
            outputs: vec![BrilligOutputs::Array(vec![])],
            predicate: lin(&[], 1),
        }],
    };
    for strict in [true, false] {
        assert_eq!(
            encoding_stop(&c, names(), BackendType::FfGb, strict),
            Some("verify_print output array is empty".to_string())
        );
    }
    // an operation on a block with no cells
    let c = Circuit {
        current_witness_index: 1,
        opcodes: vec![
            Opcode::MemoryInit { block_id: 3, init: vec![], block_type: BlockType::Memory },
            Opcode::MemoryOp {
                block_id: 3,
                op: MemOp { operation: MemOpKind::Read, index: lin(&[(1, 0)], 0), value: lin(&[(1, 1)], 0) },
            },
        ],
    };
    for strict in [true, false] {
        for backend in [BackendType::FfGb, BackendType::Int] {
            assert_eq!(
                encoding_stop(&c, names(), backend, strict),
                Some("memory operation on an empty block".to_string())
            );
        }
    }
}

#[test]
fn circuits_that_encode_do_not_stop() {
    let c = Circuit { current_witness_index: 0, opcodes: vec![verify_call(0, lin(&[(1, 0)], 0))] };
    assert_eq!(encoding_stop(&c, names(), BackendType::FfGb, true), None);
    let c = Circuit { current_witness_index: 0, opcodes: vec![Opcode::BlackBoxFuncCall(BlackBoxFuncCall::Xor)] };
    assert_eq!(encoding_stop(&c, vec![], BackendType::FfGb, true), None);
}

#[test]
fn strict_mode_refuses_an_unsupported_opcode_wherever_it_stands() {
    let c = Circuit {
        current_witness_index: 1,
        opcodes: vec![
            Opcode::MemoryInit { block_id: 0, init: vec![Witness(0)], block_type: BlockType::ReturnData },
            Opcode::AssertZero(lin(&[(1, 0), (1, 1)], 0)),
            Opcode::BlackBoxFuncCall(BlackBoxFuncCall::Xor),
        ],
    };
    assert_eq!(encoding_stop(&c, vec![], BackendType::FfGb, true), None);
    match translate_program(&c, vec![], BackendType::FfGb, true) {
        Err(Error::EncodingError(m)) => assert_eq!(m, "XOR black box function is not supported"),
        _ => panic!("strict mode refuses XOR"),
    }
    assert!(translate_program(&c, vec![], BackendType::FfGb, false).is_ok());
}

#[test]
fn a_block_takes_the_type_of_its_last_initialisation() {
    let memory = || Opcode::MemoryInit { block_id: 2, init: vec![Witness(0)], block_type: BlockType::Memory };
    let call_data = || Opcode::MemoryInit { block_id: 2, init: vec![Witness(0)], block_type: BlockType::CallData(1) };
    let c = Circuit { current_witness_index: 0, opcodes: vec![memory(), call_data()] };
    match translate_program(&c, vec![], BackendType::Int, true) {
        Err(Error::EncodingError(m)) => assert_eq!(m, "Only memory block type is supported"),
        _ => panic!("strict mode refuses a call-data block"),
    }
    assert!(translate_program(&c, vec![], BackendType::Int, false).is_ok());
    let c = Circuit { current_witness_index: 0, opcodes: vec![call_data(), memory()] };
    assert!(translate_program(&c, vec![], BackendType::Int, true).is_ok());
}
