//! The reports shown to a user: what to write, and in which colour, after
//! checking a circuit or an execution.

use vstd::prelude::*;
use vstd::string::StringExecFns;

use crate::check::{Model, Output};
use crate::smt::Value;
use crate::text::{witness_name, witness_text};

verus! {

/// The colour a piece of a report is written in; `Plain` is the terminal's own.
#[derive(Clone, Copy, Debug, PartialEq, Eq, Structural)]
pub enum Color {
    Plain,
    Blue,
    Green,
    Red,
    Yellow,
}

/// A piece of a report: its colour and its text.
pub type Segment = (Color, String);

/// The colours and texts of the pieces of a report.
pub open spec fn seg_view(v: Seq<Segment>) -> Seq<(Color, Seq<char>)> {
    v.map_values(|s: Segment| (s.0, s.1@))
}

/// `[<package>] Execution check for package` and the verdict on whether
/// the given inputs make a valid execution: `Checked` when the constraints
/// with the inputs are satisfiable, `Failed` when they are not.
pub open spec fn exec_report_spec(package: Seq<char>, output: Output) -> Seq<(Color, Seq<char>)> {
    seq![
        (Color::Plain, "\n["@),
        (Color::Blue, package),
        (Color::Plain, "] Execution check for package"@),
        match output {
            Output::Falsified(_) => (Color::Green, "Checked\n"@),
            Output::Verified => (Color::Red, "Failed\n"@),
            Output::Unknown => (Color::Yellow, "Unknown\n"@),
        },
    ]
}

fn seg(color: Color, text: &str) -> (s: Segment)
    ensures
        s.0 == color,
        s.1@ == text@,
{
    (color, String::from_str(text))
}

/// The report on checking an execution of a package.
pub fn exec_report(package: &str, output: &Output) -> (r: Vec<Segment>)
    ensures
        seg_view(r@) == exec_report_spec(package@, *output),
{
    let mut r: Vec<Segment> = Vec::new();
    r.push(seg(Color::Plain, "\n["));
    r.push(seg(Color::Blue, package));
    r.push(seg(Color::Plain, "] Execution check for package"));
    match output {
        Output::Falsified(_) => r.push(seg(Color::Green, "Checked\n")),
        Output::Verified => r.push(seg(Color::Red, "Failed\n")),
        Output::Unknown => r.push(seg(Color::Yellow, "Unknown\n")),
    }
    assert(seg_view(r@) =~= exec_report_spec(package@, *output));
    r
}

// ---------------------------------------------------------------- values

/// A value as its debug form shows it: `Bool(true)`, `Int("5")`, `FField("7")`.
pub open spec fn value_debug(v: Value) -> Seq<char> {
    match v {
        Value::Bool(b) => "Bool("@ + (if b { "true"@ } else { "false"@ }) + ")"@,
        Value::Int(s) => "Int(\""@ + s@ + "\")"@,
        Value::FField(s) => "FField(\""@ + s@ + "\")"@,
    }
}

/// A model entry as its debug form shows it: `"<name>": <value>`.
pub open spec fn entry_debug(e: (String, Value)) -> Seq<char> {
    "\""@ + e.0@ + "\": "@ + value_debug(e.1)
}

/// The first `n` entries of a model, separated by `, `.
pub open spec fn entries_debug(m: Seq<(String, Value)>, n: nat) -> Seq<char>
    decreases n,
{
    if n == 0 {
        Seq::empty()
    } else if n == 1 {
        entry_debug(m[0])
    } else {
        entries_debug(m, (n - 1) as nat) + ", "@ + entry_debug(m[n - 1])
    }
}

/// A model as its debug form shows it: its entries in braces.
pub open spec fn model_debug(m: Seq<(String, Value)>) -> Seq<char> {
    "{"@ + entries_debug(m, m.len()) + "}"@
}

/// The value of the first entry of `m` named `name`, from entry `i` on.
pub open spec fn lookup(m: Seq<(String, Value)>, name: Seq<char>, i: nat) -> Option<Value>
    decreases m.len() - i,
{
    if i >= m.len() {
        None
    } else if m[i as int].0@ == name {
        Some(m[i as int].1)
    } else {
        lookup(m, name, i + 1)
    }
}

/// An optional value as its debug form shows it: `Some(<value>)` or `None`.
pub open spec fn option_debug(v: Option<Value>) -> Seq<char> {
    match v {
        Some(x) => "Some("@ + value_debug(x) + ")"@,
        None => "None"@,
    }
}

fn push_value_debug(out: &mut String, v: &Value)
    ensures
        final(out)@ == old(out)@ + value_debug(*v),
{
    match v {
        Value::Bool(b) => {
            out.append("Bool(");
            if *b {
                out.append("true");
            } else {
                out.append("false");
            }
            out.append(")");
        },
        Value::Int(s) => {
            out.append("Int(\"");
            out.append(s.as_str());
            out.append("\")");
        },
        Value::FField(s) => {
            out.append("FField(\"");
            out.append(s.as_str());
            out.append("\")");
        },
    }
    assert(final(out)@ =~= old(out)@ + value_debug(*v));
}

/// The debug form of a model.
pub fn model_debug_string(m: &Model) -> (s: String)
    ensures
        s@ == model_debug(m@),
{
    let mut s = String::from_str("{");
    let mut i: usize = 0;
    while i < m.len()
        invariant
            i <= m@.len(),
            s@ == "{"@ + entries_debug(m@, i as nat),
        decreases m@.len() - i,
    {
        if i > 0 {
            s.append(", ");
        }
        s.append("\"");
        s.append(m[i].0.as_str());
        s.append("\": ");
        push_value_debug(&mut s, &m[i].1);
        assert(s@ =~= "{"@ + entries_debug(m@, (i + 1) as nat));
        i = i + 1;
    }
    s.append("}");
    assert(s@ =~= model_debug(m@));
    s
}

/// The value that `m` gives the constant `name`: its first entry of that name.
pub fn model_lookup<'a>(m: &'a Model, name: &str) -> (r: Option<&'a Value>)
    ensures
        match lookup(m@, name@, 0) {
            Some(v) => r matches Some(x) && *x == v,
            None => r is None,
        },
{
    let mut i: usize = 0;
    while i < m.len()
        invariant
            i <= m@.len(),
            lookup(m@, name@, 0) == lookup(m@, name@, i as nat),
        decreases m@.len() - i,
    {
        if m[i].0.as_str().to_owned() == name.to_owned() {
            return Some(&m[i].1);
        }
        i = i + 1;
    }
    None
}

fn push_option_debug(out: &mut String, v: Option<&Value>)
    ensures
        final(out)@ == old(out)@ + option_debug(match v { Some(x) => Some(*x), None => None }),
{
    match v {
        Some(x) => {
            out.append("Some(");
            push_value_debug(out, x);
            out.append(")");
            assert(final(out)@ =~= old(out)@ + option_debug(Some(*x)));
        },
        None => out.append("None"),
    }
}

// ---------------------------------------------------------------- verification report

/// `\n[<package>] Checked <function> \n`
pub open spec fn header(package: Seq<char>, func: Seq<char>) -> Seq<(Color, Seq<char>)> {
    seq![
        (Color::Plain, "\n["@),
        (Color::Blue, package),
        (Color::Plain, "] Checked "@),
        (Color::Blue, func + " \n"@),
    ]
}

/// `\n[<package>]\n`
pub open spec fn footer(package: Seq<char>) -> Seq<(Color, Seq<char>)> {
    seq![(Color::Plain, "\n["@), (Color::Blue, package), (Color::Plain, "]\n"@)]
}

/// Whether every condition was verified.
pub open spec fn all_verified(results: Seq<(Output, usize)>) -> bool {
    forall|i: int| 0 <= i < results.len() ==> (#[trigger] results[i]).0 is Verified
}

/// The text of a condition, or a placeholder when its source was not found.
pub open spec fn cond_text(c: Option<String>) -> Seq<char> {
    match c {
        Some(s) => s@,
        None => "<-->"@,
    }
}

/// `Assert "<condition>" : `
pub open spec fn assert_head(c: Seq<char>) -> Seq<(Color, Seq<char>)> {
    seq![(Color::Plain, "Assert "@), (Color::Blue, "\""@ + c + "\" : "@)]
}

/// The witnesses of a falsified condition's circuit: the function's
/// parameters (names paired with their witnesses, as far as both go) and
/// its return values.
pub struct Signature {
    pub param_names: Vec<String>,
    pub param_witnesses: Vec<u32>,
    pub return_witnesses: Vec<u32>,
}

/// `<name>: w<id> -> <value>` for parameter `i`.
pub open spec fn param_line(sig: Signature, m: Seq<(String, Value)>, i: int) -> (Color, Seq<char>) {
    let w = witness_text(sig.param_witnesses@[i] as nat);
    (Color::Plain, sig.param_names@[i]@ + ": "@ + w + " -> "@ + option_debug(lookup(m, w, 0)) + "\n"@)
}

/// `w<id> -> <value>` for return value `i`.
pub open spec fn return_line(sig: Signature, m: Seq<(String, Value)>, i: int) -> (Color, Seq<char>) {
    let w = witness_text(sig.return_witnesses@[i] as nat);
    (Color::Plain, w + " -> "@ + option_debug(lookup(m, w, 0)) + "\n"@)
}

/// How many parameters are listed: as many as have both a name and a witness.
pub open spec fn param_count(sig: Signature) -> nat {
    if sig.param_names@.len() <= sig.param_witnesses@.len() {
        sig.param_names@.len()
    } else {
        sig.param_witnesses@.len()
    }
}

/// The parameters and return values of a falsified condition, with the
/// values the model gives them; each list only when the function has some.
pub open spec fn witnesses_part(sig: Signature, m: Seq<(String, Value)>) -> Seq<(Color, Seq<char>)> {
    (if sig.param_names@.len() == 0 {
        Seq::empty()
    } else {
        seq![(Color::Plain, "\nFunction parameters (name, witness_id, and value)---\n"@)]
            + Seq::new(param_count(sig), |i: int| param_line(sig, m, i))
    }) + (if sig.return_witnesses@.len() == 0 {
        Seq::empty()
    } else {
        seq![(Color::Plain, "\nReturn values (witness_id, and value)---\n"@)]
            + Seq::new(sig.return_witnesses@.len(), |i: int| return_line(sig, m, i))
    })
}

/// What is reported of one condition. In the short form only a falsified
/// one is listed; in the verbose form each is, a falsified one with its
/// model and the witnesses of the function's parameters and return values.
pub open spec fn item(o: Output, c: Seq<char>, sig: Signature, verbose: bool) -> Seq<(Color, Seq<char>)> {
    if !verbose {
        if o is Falsified {
            assert_head(c) + seq![(Color::Red, "Falsified\n"@)]
        } else {
            Seq::empty()
        }
    } else {
        assert_head(c) + match o {
            Output::Falsified(m) => seq![
                (Color::Red, "Falsified\n"@),
                (Color::Plain, "Model---\n[\""@ + model_debug(m@) + "\"]\n"@),
            ] + witnesses_part(sig, m@),
            Output::Verified => seq![(Color::Green, "Verified\n"@)],
            Output::Unknown => seq![(Color::Yellow, "Unknown\n"@)],
        }
    }
}

/// What is reported of the first `n` conditions, in order.
pub open spec fn items(
    results: Seq<(Output, usize)>,
    conds: Seq<Option<String>>,
    sig: Signature,
    verbose: bool,
    n: nat,
) -> Seq<(Color, Seq<char>)>
    decreases n,
{
    if n == 0 {
        Seq::empty()
    } else {
        items(results, conds, sig, verbose, (n - 1) as nat) + item(
            results[n - 1].0,
            cond_text(conds[n - 1]),
            sig,
            verbose,
        )
    }
}

/// The report on checking the verification conditions of a function: a
/// header; in the short form, when all conditions are verified, one line
/// that says so; else what is reported of each condition; then a footer.
pub open spec fn verify_report_spec(
    package: Seq<char>,
    func: Seq<char>,
    results: Seq<(Output, usize)>,
    conds: Seq<Option<String>>,
    sig: Signature,
    verbose: bool,
) -> Seq<(Color, Seq<char>)> {
    if !verbose && all_verified(results) {
        header(package, func) + seq![(Color::Green, "All assertions verified\n"@)] + footer(package)
    } else {
        header(package, func) + items(results, conds, sig, verbose, results.len()) + footer(package)
    }
}

/// The line a short report gives when every condition was verified.
pub open spec fn all_verified_line() -> (Color, Seq<char>) {
    (Color::Green, "All assertions verified\n"@)
}

/// The only green text among the reported conditions is `Verified`.
proof fn lemma_items_green(
    results: Seq<(Output, usize)>,
    conds: Seq<Option<String>>,
    sig: Signature,
    verbose: bool,
    n: nat,
)
    requires
        n <= results.len(),
        conds.len() == results.len(),
    ensures
        forall|k: int|
            0 <= k < items(results, conds, sig, verbose, n).len() && (#[trigger] items(results, conds, sig, verbose, n)[k]).0
                == Color::Green ==> items(results, conds, sig, verbose, n)[k].1 == "Verified\n"@,
    decreases n,
{
    if n > 0 {
        lemma_items_green(results, conds, sig, verbose, (n - 1) as nat);
        let prev = items(results, conds, sig, verbose, (n - 1) as nat);
        let it = item(results[n - 1].0, cond_text(conds[n - 1]), sig, verbose);
        let all = items(results, conds, sig, verbose, n);
        assert(all == prev + it);
        match results[n - 1].0 {
            Output::Falsified(m) => {
                let w = witnesses_part(sig, m@);
                assert forall|k: int| 0 <= k < w.len() implies (#[trigger] w[k]).0 == Color::Plain by {
                    let ps = if sig.param_names@.len() == 0 {
                        Seq::empty()
                    } else {
                        seq![(Color::Plain, "\nFunction parameters (name, witness_id, and value)---\n"@)]
                            + Seq::new(param_count(sig), |i: int| param_line(sig, m@, i))
                    };
                    let rs = if sig.return_witnesses@.len() == 0 {
                        Seq::empty()
                    } else {
                        seq![(Color::Plain, "\nReturn values (witness_id, and value)---\n"@)]
                            + Seq::new(sig.return_witnesses@.len(), |i: int| return_line(sig, m@, i))
                    };
                    assert(w == ps + rs);
                    if k < ps.len() {
                        assert(w[k] == ps[k]);
                    } else {
                        assert(w[k] == rs[k - ps.len()]);
                    }
                }
            },
            _ => {},
        }
        assert forall|k: int| 0 <= k < all.len() && (#[trigger] all[k]).0 == Color::Green implies all[k].1
            == "Verified\n"@ by {
            if k < prev.len() {
                assert(all[k] == prev[k]);
            } else {
                assert(all[k] == it[k - prev.len()]);
                if verbose {
                    let h = assert_head(cond_text(conds[n - 1]));
                    match results[n - 1].0 {
                        Output::Falsified(m) => {
                            let tail = seq![
                                (Color::Red, "Falsified\n"@),
                                (Color::Plain, "Model---\n[\""@ + model_debug(m@) + "\"]\n"@),
                            ];
                            assert(it == h + tail + witnesses_part(sig, m@));
                            let j = k - prev.len();
                            if j >= h.len() + tail.len() {
                                assert(it[j] == witnesses_part(sig, m@)[j - h.len() - tail.len()]);
                            }
                        },
                        _ => {},
                    }
                }
            }
        }
    }
}

/// A short report says "All assertions verified" exactly when every
/// condition was verified: one that is falsified or undecided rules the
/// line out, and a verbose report never has it.
pub proof fn lemma_all_verified_line(
    package: Seq<char>,
    func: Seq<char>,
    results: Seq<(Output, usize)>,
    conds: Seq<Option<String>>,
    sig: Signature,
    verbose: bool,
)
    requires
        conds.len() == results.len(),
    ensures
        verify_report_spec(package, func, results, conds, sig, verbose).contains(all_verified_line()) <==> (!verbose
            && forall|i: int| 0 <= i < results.len() ==> (#[trigger] results[i]).0 is Verified),
{
    let r = verify_report_spec(package, func, results, conds, sig, verbose);
    let h = header(package, func);
    let f = footer(package);
    reveal_strlit("All assertions verified\n");
    reveal_strlit("Verified\n");
    if !verbose && forall|i: int| 0 <= i < results.len() ==> (#[trigger] results[i]).0 is Verified {
        assert(r[4] == all_verified_line());
    } else {
        let its = items(results, conds, sig, verbose, results.len());
        lemma_items_green(results, conds, sig, verbose, results.len());
        assert(r == h + its + f);
        assert("Verified\n"@.len() != "All assertions verified\n"@.len());
        assert forall|k: int| 0 <= k < r.len() implies r[k] != all_verified_line() by {
            if k < h.len() {
                assert(r[k] == h[k]);
            } else if k < h.len() + its.len() {
                assert(r[k] == its[k - h.len()]);
            } else {
                assert(r[k] == f[k - h.len() - its.len()]);
            }
        }
    }
}

fn push_witness_line(r: &mut Vec<Segment>, prefix: &str, id: u32, m: &Model)
    ensures
        seg_view(final(r)@) == seg_view(old(r)@).push((
            Color::Plain,
            prefix@ + witness_text(id as nat) + " -> "@ + option_debug(lookup(m@, witness_text(id as nat), 0))
                + "\n"@,
        )),
{
    let w = witness_name(id);
    let mut s = String::from_str(prefix);
    s.append(w.as_str());
    s.append(" -> ");
    push_option_debug(&mut s, model_lookup(m, w.as_str()));
    s.append("\n");
    let ghost before = r@;
    r.push((Color::Plain, s));
    assert(seg_view(r@) =~= seg_view(before).push((
        Color::Plain,
        prefix@ + witness_text(id as nat) + " -> "@ + option_debug(lookup(m@, witness_text(id as nat), 0)) + "\n"@,
    )));
}

fn push_witnesses_part(r: &mut Vec<Segment>, sig: &Signature, m: &Model)
    ensures
        seg_view(final(r)@) == seg_view(old(r)@) + witnesses_part(*sig, m@),
{
    let ghost start = seg_view(r@);
    let ghost first: Seq<(Color, Seq<char>)> = if sig.param_names@.len() == 0 {
        Seq::empty()
    } else {
        seq![(Color::Plain, "\nFunction parameters (name, witness_id, and value)---\n"@)]
            + Seq::new(param_count(*sig), |i: int| param_line(*sig, m@, i))
    };
    if sig.param_names.len() > 0 {
        r.push(seg(Color::Plain, "\nFunction parameters (name, witness_id, and value)---\n"));
        let n = if sig.param_names.len() <= sig.param_witnesses.len() {
            sig.param_names.len()
        } else {
            sig.param_witnesses.len()
        };
        let mut i: usize = 0;
        while i < n
            invariant
                n == param_count(*sig),
                i <= n,
                seg_view(r@) == start + seq![(Color::Plain, "\nFunction parameters (name, witness_id, and value)---\n"@)]
                    + Seq::new(i as nat, |j: int| param_line(*sig, m@, j)),
            decreases n - i,
        {
            let mut prefix = sig.param_names[i].clone();
            prefix.append(": ");
            let ghost before = seg_view(r@);
            push_witness_line(r, prefix.as_str(), sig.param_witnesses[i], m);
            assert(seg_view(r@) =~= start + seq![(Color::Plain, "\nFunction parameters (name, witness_id, and value)---\n"@)]
                + Seq::new((i + 1) as nat, |j: int| param_line(*sig, m@, j)));
            i = i + 1;
        }
    } else {
        assert(seg_view(r@) =~= start + first);
    }
    assert(seg_view(r@) =~= start + first);
    let ghost mid = seg_view(r@);
    if sig.return_witnesses.len() > 0 {
        r.push(seg(Color::Plain, "\nReturn values (witness_id, and value)---\n"));
        let mut i: usize = 0;
        while i < sig.return_witnesses.len()
            invariant
                i <= sig.return_witnesses@.len(),
                seg_view(r@) == mid + seq![(Color::Plain, "\nReturn values (witness_id, and value)---\n"@)]
                    + Seq::new(i as nat, |j: int| return_line(*sig, m@, j)),
            decreases sig.return_witnesses@.len() - i,
        {
            proof {
                reveal_strlit("");
            }
            push_witness_line(r, "", sig.return_witnesses[i], m);
            assert(""@ + witness_text(sig.return_witnesses@[i as int] as nat) =~= witness_text(sig.return_witnesses@[i as int] as nat));
            assert(seg_view(r@) =~= mid + seq![(Color::Plain, "\nReturn values (witness_id, and value)---\n"@)]
                + Seq::new((i + 1) as nat, |j: int| return_line(*sig, m@, j)));
            i = i + 1;
        }
    }
    assert(seg_view(r@) =~= seg_view(old(r)@) + witnesses_part(*sig, m@));
}

fn push_item(r: &mut Vec<Segment>, o: &Output, c: &Option<String>, sig: &Signature, verbose: bool)
    ensures
        seg_view(final(r)@) == seg_view(old(r)@) + item(*o, cond_text(*c), *sig, verbose),
{
    let ghost start = seg_view(r@);
    if !verbose && !o.is_falsified() {
        assert(seg_view(r@) =~= start + item(*o, cond_text(*c), *sig, verbose));
        return;
    }
    r.push(seg(Color::Plain, "Assert "));
    let mut quoted = String::from_str("\"");
    match c {
        Some(s) => quoted.append(s.as_str()),
        None => quoted.append("<-->"),
    }
    quoted.append("\" : ");
    r.push((Color::Blue, quoted));
    assert(seg_view(r@) =~= start + assert_head(cond_text(*c)));
    let ghost head = seg_view(r@);
    if !verbose {
        r.push(seg(Color::Red, "Falsified\n"));
        assert(seg_view(r@) =~= start + item(*o, cond_text(*c), *sig, verbose));
        return;
    }
    match o {
        Output::Falsified(m) => {
            r.push(seg(Color::Red, "Falsified\n"));
            let mut text = String::from_str("Model---\n[\"");
            let md = model_debug_string(m);
            text.append(md.as_str());
            text.append("\"]\n");
            r.push((Color::Plain, text));
            let ghost before = seg_view(r@);
            push_witnesses_part(r, sig, m);
            assert(seg_view(r@) =~= start + item(*o, cond_text(*c), *sig, verbose));
        },
        Output::Verified => {
            r.push(seg(Color::Green, "Verified\n"));
            assert(seg_view(r@) =~= start + item(*o, cond_text(*c), *sig, verbose));
        },
        Output::Unknown => {
            r.push(seg(Color::Yellow, "Unknown\n"));
            assert(seg_view(r@) =~= start + item(*o, cond_text(*c), *sig, verbose));
        },
    }
}

fn push_footer(r: &mut Vec<Segment>, package: &str)
    ensures
        seg_view(final(r)@) == seg_view(old(r)@) + footer(package@),
{
    r.push(seg(Color::Plain, "\n["));
    r.push(seg(Color::Blue, package));
    r.push(seg(Color::Plain, "]\n"));
    assert(seg_view(r@) =~= seg_view(old(r)@) + footer(package@));
}

/// The report on checking the verification conditions of function `func`
/// of a package: `results` as checking gave them, `conds[i]` the source text
/// of condition `i` where it was found, `sig` the witnesses of the function's
/// parameters and return values.
pub fn verify_report(
    package: &str,
    func: &str,
    results: &[(Output, usize)],
    conds: &[Option<String>],
    sig: &Signature,
    verbose: bool,
) -> (r: Vec<Segment>)
    requires
        conds@.len() == results@.len(),
    ensures
        seg_view(r@) == verify_report_spec(package@, func@, results@, conds@, *sig, verbose),
        seg_view(r@).contains(all_verified_line()) <==> (!verbose && forall|i: int|
            0 <= i < results@.len() ==> (#[trigger] results@[i]).0 is Verified),
{
    proof {
        lemma_all_verified_line(package@, func@, results@, conds@, *sig, verbose);
    }
    let mut r: Vec<Segment> = Vec::new();
    r.push(seg(Color::Plain, "\n["));
    r.push(seg(Color::Blue, package));
    r.push(seg(Color::Plain, "] Checked "));
    let mut f = String::from_str(func);
    f.append(" \n");
    r.push((Color::Blue, f));
    assert(seg_view(r@) =~= header(package@, func@));
    let mut all = true;
    let mut i: usize = 0;
    while i < results.len()
        invariant
            i <= results@.len(),
            all == (forall|j: int| 0 <= j < i ==> (#[trigger] results@[j]).0 is Verified),
        decreases results@.len() - i,
    {
        if !results[i].0.is_verified() {
            all = false;
        }
        i = i + 1;
    }
    if !verbose && all {
        r.push(seg(Color::Green, "All assertions verified\n"));
        push_footer(&mut r, package);
        assert(seg_view(r@) =~= verify_report_spec(package@, func@, results@, conds@, *sig, verbose));
        return r;
    }
    let mut k: usize = 0;
    while k < results.len()
        invariant
            k <= results@.len(),
            conds@.len() == results@.len(),
            seg_view(r@) == header(package@, func@) + items(results@, conds@, *sig, verbose, k as nat),
        decreases results@.len() - k,
    {
        push_item(&mut r, &results[k].0, &conds[k], sig, verbose);
        assert(seg_view(r@) =~= header(package@, func@) + items(results@, conds@, *sig, verbose, (k + 1) as nat));
        k = k + 1;
    }
    push_footer(&mut r, package);
    assert(seg_view(r@) =~= verify_report_spec(package@, func@, results@, conds@, *sig, verbose));
    r
}

} // verus!
