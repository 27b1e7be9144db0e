//! Checking a circuit: the outcomes of the verification conditions, the
//! encoding settings, and the steps between the encoder and the solver.

use vstd::prelude::*;
use vstd::string::StringExecFns;

use crate::circuit::{BlockType, Circuit, Opcode, Witness};
use crate::conditions::{assert_call_locs, assert_inputs_single, lemma_translate_locs, locs};
use crate::stops::{
    declared, empty_print_call, init_block, init_cells, init_type, last_init_before, lemma_empty_block_anywhere, lemma_empty_print, lemma_memory_before_init,
    lemma_relaxed_never_refuses, lemma_stop_anywhere, lemma_strict_refuses_anywhere, lemma_strict_refuses_init, unsupported,
};
use crate::encoder::{passed, Translator};
use crate::encoding::{
    empty_print_msg, first_pass, max_index, memory_order_msg, translate, witness_values, EncState, Params,
    Pass,
};
use crate::error::Error;
use crate::field::{field_prime, is_field_modulus, FieldValue};
use crate::smt::{app_text, Bool, SolverOutput, Value};
use crate::declarations::{declared_once, lemma_translate_declares_once};
use crate::invariants::lemma_translate_numbered;
use crate::text::{actlit_text, decimal, lemma_actlit_injective};

verus! {

/// The order of the field of the circuits, in decimal.
pub const PRIME: &'static str = "21888242871839275222246405745257275088548364400416034343698204186575808495617";

/// A model of the solver: the value of each constant it reports.
pub type Model = Vec<(String, Value)>;

/// The outcome of checking one verification condition.
#[derive(Debug, Clone)]
pub enum Output {
    /// The condition can be false; the model shows how.
    Falsified(Model),
    /// The condition holds for every assignment.
    Verified,
    /// The solver could not decide.
    Unknown,
}

impl Output {
    /// Whether the condition was verified.
    pub fn is_verified(&self) -> (b: bool)
        ensures
            b == (*self is Verified),
    {
        match self {
            Output::Verified => true,
            _ => false,
        }
    }

    /// Whether the condition was falsified.
    pub fn is_falsified(&self) -> (b: bool)
        ensures
            b == (*self is Falsified),
    {
        match self {
            Output::Falsified(_) => true,
            _ => false,
        }
    }
}

/// The outcome that a solver answer gives; the model counts only for `Sat`.
pub open spec fn spec_output(answer: SolverOutput, model: Model) -> Output {
    match answer {
        SolverOutput::Sat => Output::Falsified(model),
        SolverOutput::Unsat => Output::Verified,
        SolverOutput::Unknown => Output::Unknown,
    }
}

/// The outcome that a solver answer gives: satisfiable means the condition
/// can be false (with the model as witness), unsatisfiable means it holds.
pub fn get_output(answer: SolverOutput, model: Model) -> (o: Output)
    ensures
        o == spec_output(answer, model),
{
    match answer {
        SolverOutput::Sat => Output::Falsified(model),
        SolverOutput::Unsat => Output::Verified,
        SolverOutput::Unknown => Output::Unknown,
    }
}

/// The SMT encodings that a circuit can be checked with.
#[derive(Clone, Copy, Debug, PartialEq, Eq, Structural)]
pub enum BackendType {
    /// Finite field, Gröbner-basis solver.
    FfGb,
    /// Finite field, split solver.
    FfSplit,
    /// Integers modulo the prime.
    Int,
}

impl Default for BackendType {
    fn default() -> (b: Self)
        ensures
            b == BackendType::FfGb,
    {
        BackendType::FfGb
    }
}

/// Whether the backend uses the integer encoding.
pub open spec fn spec_use_int(backend: BackendType) -> bool {
    backend == BackendType::Int
}

/// Whether the backend uses the integer encoding.
pub fn use_int(backend: BackendType) -> (b: bool)
    ensures
        b == spec_use_int(backend),
{
    match backend {
        BackendType::FfGb | BackendType::FfSplit => false,
        BackendType::Int => true,
    }
}

/// How range constraints may be encoded.
#[derive(Clone, Copy, Debug, PartialEq, Eq, Structural)]
pub enum RangeEncodingKind {
    BitDecomposition,
    BaseDecomposition(u32),
    ExplicitValue,
}

impl Default for RangeEncodingKind {
    fn default() -> (k: Self)
        ensures
            k == RangeEncodingKind::BitDecomposition,
    {
        RangeEncodingKind::BitDecomposition
    }
}

/// Options for the encoding of range constraints.
#[derive(Clone, Copy, Debug, PartialEq, Eq, Structural)]
pub struct RangeOpts {
    limit: Option<u32>,
    kind: RangeEncodingKind,
}

impl RangeOpts {
    pub closed spec fn spec_limit(self) -> Option<u32> {
        self.limit
    }

    pub closed spec fn spec_kind(self) -> RangeEncodingKind {
        self.kind
    }

    /// Options with the given limit and kind.
    pub fn new(limit: Option<u32>, kind: RangeEncodingKind) -> (r: Self)
        ensures
            r.spec_limit() == limit,
            r.spec_kind() == kind,
    {
        Self { limit, kind }
    }

    /// The limit.
    pub fn limit(&self) -> (l: Option<u32>)
        ensures
            l == self.spec_limit(),
    {
        self.limit
    }

    /// The kind of encoding.
    pub fn kind(&self) -> (k: RangeEncodingKind)
        ensures
            k == self.spec_kind(),
    {
        self.kind
    }
}

impl Default for RangeOpts {
    fn default() -> (r: Self)
        ensures
            r.spec_limit() is None,
            r.spec_kind() == RangeEncodingKind::BitDecomposition,
    {
        Self { limit: None, kind: RangeEncodingKind::BitDecomposition }
    }
}

/// The outcomes of the verification conditions of a circuit, each with the
/// location of its opcode, and the witnesses to print with theirs.
#[derive(Debug)]
pub struct VerifyResult {
    solver_output: Vec<(Output, usize)>,
    print_locs: Vec<(u32, usize)>,
}

impl VerifyResult {
    pub closed spec fn spec_solver_output(&self) -> Seq<(Output, usize)> {
        self.solver_output@
    }

    pub closed spec fn spec_print_locs(&self) -> Seq<(u32, usize)> {
        self.print_locs@
    }

    /// No verification conditions and nothing to print.
    pub fn empty() -> (r: VerifyResult)
        ensures
            r.spec_solver_output() == Seq::<(Output, usize)>::empty(),
            r.spec_print_locs() == Seq::<(u32, usize)>::empty(),
    {
        VerifyResult { solver_output: Vec::new(), print_locs: Vec::new() }
    }

    /// The outcome of each verification condition, with the location of its opcode.
    pub fn solver_output(&self) -> (r: &[(Output, usize)])
        ensures
            r@ == self.spec_solver_output(),
    {
        self.solver_output.as_slice()
    }

    /// The witnesses to print, each with the location of its opcode.
    pub fn print_locs(&self) -> (r: &[(u32, usize)])
        ensures
            r@ == self.spec_print_locs(),
    {
        self.print_locs.as_slice()
    }
}

/// The settings that the encoding of a circuit uses for a backend.
pub open spec fn params_for(backend: BackendType, strict: bool, names: Seq<String>) -> Params {
    Params {
        use_int: spec_use_int(backend),
        strict,
        prime: decimal(field_prime()),
        names: names.map_values(|s: String| s@),
    }
}

/// The state the encoding of a circuit starts from.
pub open spec fn start_state(current_witness_index: u32) -> EncState {
    EncState {
        next: current_witness_index as nat + 1,
        cmds: Seq::empty(),
        ver_conds: Seq::empty(),
        print_locs: Seq::empty(),
    }
}

/// The encoding of a circuit, as `translate_program` gives it.
pub open spec fn program_encoding(circuit: &Circuit, backend: BackendType, strict: bool, names: Seq<String>) -> Pass {
    translate(params_for(backend, strict, names), start_state(circuit.current_witness_index),
        circuit.current_witness_index, circuit.opcodes@)
}

pub open spec fn modulus_msg() -> Seq<char> {
    "the solver prime differs from the field modulus"@
}

/// Encodes a circuit for the backend, stopping on one that breaks an
/// assumption of the encoder.
fn encode(
    circuit: &Circuit,
    brillig_names: Vec<String>,
    backend: BackendType,
    strict: bool,
) -> (r: Result<Translator, Error>)
    ensures
        PRIME@ != decimal(field_prime()) ==> (r matches Err(Error::InvalidCircuit(m)) && m@ == modulus_msg()),
        PRIME@ == decimal(field_prime()) ==> match r {
            Ok(t) => t.params() == params_for(backend, strict, brillig_names@)
                && passed(Ok(()), t.state(), program_encoding(circuit, backend, strict, brillig_names@)),
            Err(e) => passed(Err(e), start_state(circuit.current_witness_index),
                program_encoding(circuit, backend, strict, brillig_names@)),
        },
{
    if !is_field_modulus(PRIME) {
        return Err(Error::InvalidCircuit(String::from_str("the solver prime differs from the field modulus")));
    }
    let ghost names = brillig_names@;
    if circuit.current_witness_index == u32::MAX {
        return Err(Error::InvalidCircuit(String::from_str("circuit witness count overflow")));
    }
    let next_witness_index = circuit.current_witness_index + 1;
    let mut translator = Translator::new(
        brillig_names,
        next_witness_index,
        use_int(backend),
        strict,
        String::from_str(PRIME),
    );
    assert(translator.params() == params_for(backend, strict, names));
    match translator.encode_circuit(circuit) {
        Ok(()) => Ok(translator),
        Err(e) => Err(e),
    }
}


/// Whether the encoding stops on the circuit, and why: `Some(message)` where
/// the circuit breaks an assumption of the encoder (a memory operation before
/// its block is initialised, an operation on a block with no cells, a
/// `verify_print` call whose output array is empty, a verification call
/// under a predicate other than 1, more witnesses than indices). The
/// command-line tool tests this before `translate_program` and stops there.
pub fn encoding_stop(
    circuit: &Circuit,
    brillig_names: Vec<String>,
    backend: BackendType,
    strict: bool,
) -> (r: Option<String>)
    ensures
        PRIME@ == decimal(field_prime()) ==> match program_encoding(circuit, backend, strict, brillig_names@) {
            Pass::Halted(m) => r matches Some(x) && x@ == m,
            _ => r is None,
        },
{
    let ghost names = brillig_names@;
    match encode(circuit, brillig_names, backend, strict) {
        Err(Error::InvalidCircuit(m)) => Some(m),
        _ => None,
    }
}

/// Encodes a circuit for the backend: the encoder after the whole circuit,
/// or the unsupported construct that refused it. `brillig_names[i]` names
/// the unconstrained function of index `i`. An unsupported construct gives
/// `EncodingError` in strict mode and is skipped in relaxed mode. The
/// circuit must be one on which the encoding does not stop: `encoding_stop`
/// tells.
pub fn translate_program(
    circuit: &Circuit,
    brillig_names: Vec<String>,
    backend: BackendType,
    strict: bool,
) -> (r: Result<Translator, Error>)
    requires
        !(program_encoding(circuit, backend, strict, brillig_names@) is Halted),
    ensures
        PRIME@ != decimal(field_prime()) ==> (r matches Err(Error::InvalidCircuit(m)) && m@ == modulus_msg()),
        PRIME@ == decimal(field_prime()) ==> match r {
            Ok(t) => t.params() == params_for(backend, strict, brillig_names@)
                && passed(Ok(()), t.state(), program_encoding(circuit, backend, strict, brillig_names@)),
            Err(e) => passed(Err(e), start_state(circuit.current_witness_index),
                program_encoding(circuit, backend, strict, brillig_names@)),
        },
{
    encode(circuit, brillig_names, backend, strict)
}

/// Encodes a circuit together with an assignment of its witnesses: a model
/// of the result exists exactly when the assignment is a valid execution.
pub fn translate_execution(
    witness_map: &Vec<(Witness, FieldValue)>,
    circuit: &Circuit,
    backend: BackendType,
    strict: bool,
) -> (r: Result<Translator, Error>)
    requires
        !(program_encoding(circuit, backend, strict, Seq::empty()) is Halted),
    ensures
        PRIME@ != decimal(field_prime()) ==> (r matches Err(Error::InvalidCircuit(m)) && m@ == modulus_msg()),
        PRIME@ == decimal(field_prime()) ==> match r {
            Ok(t) => t.params() == params_for(backend, strict, Seq::empty())
                && (match program_encoding(circuit, backend, strict, Seq::empty()) {
                    Pass::Done(s, _) => t.state() == witness_values(t.params(), s, witness_map@, witness_map.len() as nat),
                    _ => false,
                }),
            Err(e) => passed(Err(e), start_state(circuit.current_witness_index),
                program_encoding(circuit, backend, strict, Seq::empty())),
        },
{
    let names: Vec<String> = Vec::new();
    assert(names@ =~= Seq::<String>::empty());
    let mut translator = translate_program(circuit, names, backend, strict)?;
    let ghost s = translator.state();
    let _ = translator.translate_witness_map(witness_map);
    Ok(translator)
}


/// The verification conditions of an encoded circuit are numbered in order:
/// the `i`-th is named `actlit_<i>`, so no two share a name; and each of
/// them, like each witness to print, comes from a call opcode of the circuit.
pub proof fn lemma_conditions_in_order(circuit: &Circuit, backend: BackendType, strict: bool, names: Seq<String>)
    ensures
        program_encoding(circuit, backend, strict, names) matches Pass::Done(s, _) ==> {
            &&& forall|i: int| 0 <= i < s.ver_conds.len() ==> {
                &&& (#[trigger] s.ver_conds[i]).0 == actlit_text(i as nat)
                &&& s.ver_conds[i].1 < circuit.opcodes@.len()
                &&& circuit.opcodes@[s.ver_conds[i].1 as int] is BrilligCall
            }
            &&& forall|i: int, j: int|
                0 <= i < s.ver_conds.len() && 0 <= j < s.ver_conds.len() && i != j
                    ==> (#[trigger] s.ver_conds[i]).0 != (#[trigger] s.ver_conds[j]).0
            &&& forall|i: int| 0 <= i < s.print_locs.len() ==> {
                &&& (#[trigger] s.print_locs[i]).1 < circuit.opcodes@.len()
                &&& circuit.opcodes@[s.print_locs[i].1 as int] is BrilligCall
            }
        },
{
    assert(circuit.opcodes.len() == circuit.opcodes@.len());
    let st = start_state(circuit.current_witness_index);
    lemma_translate_numbered(params_for(backend, strict, names), st, circuit.current_witness_index, circuit.opcodes@);
    match program_encoding(circuit, backend, strict, names) {
        Pass::Done(s, _) => {
            assert forall|i: int, j: int|
                0 <= i < s.ver_conds.len() && 0 <= j < s.ver_conds.len() && i != j
                    implies (#[trigger] s.ver_conds[i]).0 != (#[trigger] s.ver_conds[j]).0 by {
                if s.ver_conds[i].0 == s.ver_conds[j].0 {
                    lemma_actlit_injective(i as nat, j as nat);
                }
            }
        },
        _ => {},
    }
}


/// No constant is declared twice in the encoding of a circuit: the
/// circuit's witnesses, the fresh witnesses, the activation literals and the
/// memory cells all have names of their own.
pub proof fn lemma_constants_declared_once(circuit: &Circuit, backend: BackendType, strict: bool, names: Seq<String>)
    ensures
        program_encoding(circuit, backend, strict, names) matches Pass::Done(s, _) ==> declared_once(s.cmds),
{
    assert(circuit.opcodes.len() == circuit.opcodes@.len());
    lemma_translate_declares_once(
        params_for(backend, strict, names),
        start_state(circuit.current_witness_index),
        circuit.current_witness_index,
        circuit.opcodes@,
    );
}


/// Fixing the witnesses of an execution only adds assertions: the commands
/// of the circuit's encoding come first, unchanged, every later command is
/// an assertion, and nothing else of the state changes.
pub proof fn lemma_execution_adds_assertions(p: Params, st: EncState, wm: Seq<(Witness, FieldValue)>, n: nat)
    ensures
        ({
            let r = witness_values(p, st, wm, n);
            &&& r.cmds.len() == st.cmds.len() + n
            &&& r.cmds.take(st.cmds.len() as int) == st.cmds
            &&& forall|i: int| st.cmds.len() <= i < r.cmds.len() ==> (#[trigger] r.cmds[i]) is Assert
            &&& r.next == st.next && r.ver_conds == st.ver_conds && r.print_locs == st.print_locs
        }),
    decreases n,
{
    if n > 0 {
        lemma_execution_adds_assertions(p, st, wm, (n - 1) as nat);
        let s = witness_values(p, st, wm, (n - 1) as nat);
        let r = witness_values(p, st, wm, n);
        assert(r.cmds.take(st.cmds.len() as int) =~= s.cmds.take(st.cmds.len() as int));
        assert forall|i: int| st.cmds.len() <= i < r.cmds.len() implies (#[trigger] r.cmds[i]) is Assert by {
            if i < s.cmds.len() {
                assert(r.cmds[i] == s.cmds[i]);
            }
        }
    } else {
        assert(st.cmds.take(st.cmds.len() as int) =~= st.cmds);
    }
}


/// The names of the unconstrained functions, as the encoding reads them.
pub open spec fn names_view(names: Seq<String>) -> Seq<Seq<char>> {
    names.map_values(|s: String| s@)
}

/// The state after a circuit's witnesses are declared, from which its
/// opcodes are encoded.
pub open spec fn opcodes_start(circuit: &Circuit, backend: BackendType, strict: bool, names: Seq<String>) -> EncState {
    declared(params_for(backend, strict, names), start_state(circuit.current_witness_index), circuit.current_witness_index)
}

/// A circuit gives one verification condition per input of each
/// `verify_assert` call, in the order of the opcodes and of their inputs,
/// each at the location of its call (when every such input is a single
/// expression).
pub proof fn lemma_one_condition_per_input(circuit: &Circuit, backend: BackendType, strict: bool, names: Seq<String>)
    requires
        assert_inputs_single(circuit.opcodes@, names_view(names)),
    ensures
        program_encoding(circuit, backend, strict, names) matches Pass::Done(s, _) ==> locs(s.ver_conds)
            == assert_call_locs(circuit.opcodes@, names_view(names), circuit.opcodes@.len()),
{
    assert(circuit.opcodes.len() == circuit.opcodes@.len());
    lemma_translate_locs(
        params_for(backend, strict, names),
        start_state(circuit.current_witness_index),
        circuit.current_witness_index,
        circuit.opcodes@,
    );
}

/// In relaxed mode no circuit is refused: its encoding is done, or stopped
/// by an invalid circuit, never an encoding error.
pub proof fn lemma_relaxed_never_refuses_circuit(circuit: &Circuit, backend: BackendType, names: Seq<String>)
    ensures
        !(program_encoding(circuit, backend, false, names) is Failed),
{
    lemma_relaxed_never_refuses(
        params_for(backend, false, names),
        start_state(circuit.current_witness_index),
        circuit.current_witness_index,
        circuit.opcodes@,
    );
}

/// In strict mode a circuit that holds an unsupported opcode, wherever it
/// stands, is refused with an encoding error, unless the circuit is invalid
/// in a way that stops the encoding first; relaxed mode skips the opcode and
/// never refuses the circuit.
pub proof fn lemma_strict_refuses_unsupported(circuit: &Circuit, backend: BackendType, names: Seq<String>, k: nat)
    requires
        k < circuit.opcodes@.len(),
        unsupported(circuit.opcodes@[k as int]),
        !(program_encoding(circuit, backend, true, names) is Halted),
    ensures
        program_encoding(circuit, backend, true, names) is Failed,
        !(program_encoding(circuit, backend, false, names) is Failed),
{
    assert(circuit.opcodes.len() == circuit.opcodes@.len());
    lemma_strict_refuses_anywhere(
        params_for(backend, true, names),
        start_state(circuit.current_witness_index),
        circuit.current_witness_index,
        circuit.opcodes@,
        k,
    );
    lemma_relaxed_never_refuses_circuit(circuit, backend, names);
}

/// In strict mode a circuit in which the last initialisation of some memory
/// block gives it another type than plain memory is refused with an encoding
/// error, unless the circuit is invalid in a way that stops the encoding
/// first; relaxed mode skips the initialisation and never refuses the
/// circuit. (A block initialised again later takes the type of its last
/// initialisation.)
pub proof fn lemma_strict_refuses_block_type(circuit: &Circuit, backend: BackendType, names: Seq<String>, j: nat)
    requires
        j < circuit.opcodes@.len(),
        last_init_before(circuit.opcodes@, j as int, circuit.opcodes@.len() as int),
        init_type(circuit.opcodes@[j as int]) != BlockType::Memory,
        !(program_encoding(circuit, backend, true, names) is Halted),
    ensures
        program_encoding(circuit, backend, true, names) is Failed,
        !(program_encoding(circuit, backend, false, names) is Failed),
{
    assert(circuit.opcodes.len() == circuit.opcodes@.len());
    lemma_strict_refuses_init(
        params_for(backend, true, names),
        start_state(circuit.current_witness_index),
        circuit.current_witness_index,
        circuit.opcodes@,
        j,
    );
    lemma_relaxed_never_refuses_circuit(circuit, backend, names);
}

/// A circuit with a memory operation on a block that no earlier opcode
/// initialises never encodes: the encoding stops on that operation (with
/// "MemInit opcode should have run before") or on an earlier invalid opcode,
/// or, in strict mode only, is refused before it. `encoding_stop` reports
/// the stop, and `translate_program` does not take such a circuit.
pub proof fn lemma_stops_on_memory_before_init(circuit: &Circuit, backend: BackendType, strict: bool, names: Seq<String>, k: nat)
    requires
        k < circuit.opcodes@.len(),
        circuit.opcodes@[k as int] is MemoryOp,
        forall|j: int| 0 <= j < k ==> !(#[trigger] circuit.opcodes@[j] matches Opcode::MemoryInit { block_id, .. }
            && block_id == circuit.opcodes@[k as int]->MemoryOp_block_id),
    ensures
        program_encoding(circuit, backend, strict, names) is Halted
            || (strict && program_encoding(circuit, backend, strict, names) is Failed),
        (circuit.current_witness_index as nat) < max_index() && first_pass(params_for(backend, strict, names),
            opcodes_start(circuit, backend, strict, names), circuit.opcodes@, k) is Done
            ==> program_encoding(circuit, backend, strict, names) == Pass::Halted(memory_order_msg()),
{
    assert(circuit.opcodes.len() == circuit.opcodes@.len());
    let p = params_for(backend, strict, names);
    let st = start_state(circuit.current_witness_index);
    let cwi = circuit.current_witness_index;
    if (cwi as nat) < max_index() && first_pass(p, declared(p, st, cwi), circuit.opcodes@, k) is Done {
        lemma_memory_before_init(p, st, cwi, circuit.opcodes@, k);
    }
    lemma_stop_anywhere(p, st, cwi, circuit.opcodes@, k);
}

/// A circuit with a `verify_print` call whose one output is an empty array
/// never encodes: the encoding stops on that call (with "verify_print output
/// array is empty") or on an earlier invalid opcode, or, in strict mode
/// only, is refused before it.
pub proof fn lemma_stops_on_empty_print(circuit: &Circuit, backend: BackendType, strict: bool, names: Seq<String>, k: nat)
    requires
        k < circuit.opcodes@.len(),
        empty_print_call(circuit.opcodes@[k as int], names_view(names)),
    ensures
        program_encoding(circuit, backend, strict, names) is Halted
            || (strict && program_encoding(circuit, backend, strict, names) is Failed),
        (circuit.current_witness_index as nat) < max_index() && first_pass(params_for(backend, strict, names),
            opcodes_start(circuit, backend, strict, names), circuit.opcodes@, k) is Done
            ==> program_encoding(circuit, backend, strict, names) == Pass::Halted(empty_print_msg()),
{
    assert(circuit.opcodes.len() == circuit.opcodes@.len());
    let p = params_for(backend, strict, names);
    let st = start_state(circuit.current_witness_index);
    let cwi = circuit.current_witness_index;
    if (cwi as nat) < max_index() && first_pass(p, declared(p, st, cwi), circuit.opcodes@, k) is Done {
        lemma_empty_print(p, st, cwi, circuit.opcodes@, k);
    }
    lemma_stop_anywhere(p, st, cwi, circuit.opcodes@, k);
}

/// A circuit in which the last initialisation of a block of plain memory
/// gives it no cells, while an operation on the block follows it, never
/// encodes: the encoding stops on that block (its index cannot be bounded)
/// or earlier, or, in strict mode only, is refused.
pub proof fn lemma_stops_on_empty_block(
    circuit: &Circuit,
    backend: BackendType,
    strict: bool,
    names: Seq<String>,
    j: nat,
    m: nat,
)
    requires
        j < m < circuit.opcodes@.len(),
        last_init_before(circuit.opcodes@, j as int, circuit.opcodes@.len() as int),
        init_type(circuit.opcodes@[j as int]) == BlockType::Memory,
        init_cells(circuit.opcodes@[j as int]).len() == 0,
        circuit.opcodes@[m as int] matches Opcode::MemoryOp { block_id, .. } && block_id == init_block(
            circuit.opcodes@[j as int],
        ),
    ensures
        program_encoding(circuit, backend, strict, names) is Halted
            || (strict && program_encoding(circuit, backend, strict, names) is Failed),
{
    assert(circuit.opcodes.len() == circuit.opcodes@.len());
    lemma_empty_block_anywhere(
        params_for(backend, strict, names),
        start_state(circuit.current_witness_index),
        circuit.current_witness_index,
        circuit.opcodes@,
        j,
        m,
    );
}

/// The decisions between the solver and the outcomes of a circuit's
/// verification conditions, taken one condition at a time: ask whether the
/// condition's activation literal is satisfiable, record the answer, and once
/// a condition is verified assume it for the later ones.
pub struct CheckSession {
    ver_conds: Vec<(String, usize)>,
    print_locs: Vec<(u32, usize)>,
    outputs: Vec<(Output, usize)>,
}

impl CheckSession {
    /// The activation literals of the conditions with their opcode locations.
    pub closed spec fn conditions(&self) -> Seq<(Seq<char>, usize)> {
        self.ver_conds@.map_values(|v: (String, usize)| (v.0@, v.1))
    }

    /// The outcomes recorded so far.
    pub closed spec fn outputs(&self) -> Seq<(Output, usize)> {
        self.outputs@
    }

    pub closed spec fn spec_print_locs(&self) -> Seq<(u32, usize)> {
        self.print_locs@
    }

    /// The outcomes are in step with the conditions: there are no more of
    /// them, and each carries the location of the condition at its position.
    pub open spec fn aligned(&self) -> bool {
        &&& self.outputs().len() <= self.conditions().len()
        &&& forall|i: int| 0 <= i < self.outputs().len() ==> (#[trigger] self.outputs()[i]).1 == self.conditions()[i].1
    }

    /// A session over the verification conditions of an encoded circuit.
    pub fn new(translator: &Translator) -> (s: CheckSession)
        ensures
            s.conditions() == translator.state().ver_conds,
            s.spec_print_locs() == translator.state().print_locs,
            s.outputs() == Seq::<(Output, usize)>::empty(),
            s.aligned(),
    {
        let ver_conds = translator.ver_conds();
        let print_locs = translator.print_locs();
        let s = CheckSession { ver_conds, print_locs, outputs: Vec::new() };
        assert(s.outputs() =~= Seq::<(Output, usize)>::empty());
        s
    }

    /// A session over an encoded circuit, with nothing to ask when the
    /// encoding asserts no constraint: then the result is empty, with no
    /// condition and no witness to print.
    pub fn for_circuit(translator: &Translator) -> (s: CheckSession)
        ensures
            s.outputs() == Seq::<(Output, usize)>::empty(),
            s.aligned(),
            translator.spec_has_constraints() ==> s.conditions() == translator.state().ver_conds
                && s.spec_print_locs() == translator.state().print_locs,
            !translator.spec_has_constraints() ==> s.conditions() == Seq::<(Seq<char>, usize)>::empty()
                && s.spec_print_locs() == Seq::<(u32, usize)>::empty(),
    {
        if translator.has_constraints() {
            Self::new(translator)
        } else {
            let s = CheckSession { ver_conds: Vec::new(), print_locs: Vec::new(), outputs: Vec::new() };
            assert(s.conditions() =~= Seq::<(Seq<char>, usize)>::empty());
            assert(s.outputs() =~= Seq::<(Output, usize)>::empty());
            s
        }
    }

    /// The activation literal to check next, if a condition is left.
    pub fn next_query(&self) -> (r: Option<String>)
        ensures
            self.outputs().len() < self.conditions().len() ==> (r matches Some(a)
                && a@ == self.conditions()[self.outputs().len() as int].0),
            self.outputs().len() >= self.conditions().len() ==> r is None,
    {
        let i = self.outputs.len();
        if i < self.ver_conds.len() {
            Some(self.ver_conds[i].0.clone())
        } else {
            None
        }
    }

    /// Records the solver's answer for the next condition. When it is
    /// verified, gives the assertion `(not actlit)` to send, which assumes
    /// the condition from then on.
    pub fn record(&mut self, answer: SolverOutput, model: Model) -> (follow_up: Option<Bool>)
        requires
            old(self).outputs().len() < old(self).conditions().len(),
        ensures
            final(self).conditions() == old(self).conditions(),
            final(self).spec_print_locs() == old(self).spec_print_locs(),
            final(self).outputs() == old(self).outputs().push(
                (spec_output(answer, model), old(self).conditions()[old(self).outputs().len() as int].1),
            ),
            answer == SolverOutput::Unsat ==> (follow_up matches Some(b)
                && b@ == app_text("not"@, seq![old(self).conditions()[old(self).outputs().len() as int].0])),
            answer != SolverOutput::Unsat ==> follow_up is None,
            old(self).aligned() ==> final(self).aligned(),
    {
        let i = self.outputs.len();
        let call_loc = self.ver_conds[i].1;
        let output = get_output(answer, model);
        let follow_up = if output.is_verified() {
            Some(Bool::new_const(self.ver_conds[i].0.as_str()).neg())
        } else {
            None
        };
        self.outputs.push((output, call_loc));
        follow_up
    }

    /// Whether every condition has an outcome.
    pub fn is_done(&self) -> (b: bool)
        ensures
            b == (self.outputs().len() >= self.conditions().len()),
    {
        self.outputs.len() >= self.ver_conds.len()
    }

    /// The result: the outcome of each condition with its location, and the
    /// witnesses to print.
    pub fn finish(self) -> (r: VerifyResult)
        requires
            self.aligned(),
            self.outputs().len() >= self.conditions().len(),
        ensures
            r.spec_solver_output() == self.outputs(),
            r.spec_print_locs() == self.spec_print_locs(),
            r.spec_solver_output().len() == self.conditions().len(),
            forall|i: int|
                0 <= i < self.conditions().len() ==> (#[trigger] r.spec_solver_output()[i]).1
                    == self.conditions()[i].1,
    {
        VerifyResult { solver_output: self.outputs, print_locs: self.print_locs }
    }
}

} // verus!
