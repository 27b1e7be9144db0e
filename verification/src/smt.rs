//! Terms of the SMT encoding and their SMT-LIB text.

use vstd::prelude::*;
use vstd::string::StringExecFns;

verus! {

/// The text of an application `(op a1 a2 ... an)`: the operator, then each
/// argument preceded by a space, all in parentheses.
pub open spec fn app_text(op: Seq<char>, args: Seq<Seq<char>>) -> Seq<char> {
    "("@ + op + spaced(args) + ")"@
}

/// Each item preceded by one space, concatenated.
pub open spec fn spaced(items: Seq<Seq<char>>) -> Seq<char>
    decreases items.len(),
{
    if items.len() == 0 {
        Seq::empty()
    } else {
        " "@ + items[0] + spaced(items.drop_first())
    }
}

/// The literal of a finite-field element in SMT-LIB: `(as ff<digits> FF)`.
pub open spec fn ff_literal(digits: Seq<char>) -> Seq<char> {
    "(as ff"@ + digits + " FF)"@
}

/// A value that an SMT model assigns to a constant.
#[derive(Debug, Clone)]
pub enum Value {
    Bool(bool),
    Int(String),
    FField(String),
}

impl Value {
    /// The SMT-LIB literal of the value.
    pub open spec fn smt_text(&self) -> Seq<char> {
        match self {
            Value::Bool(b) => if *b { "true"@ } else { "false"@ },
            Value::Int(i) => i@,
            Value::FField(f) => ff_literal(f@),
        }
    }

    /// The value as it is shown to a user.
    pub open spec fn shown_text(&self) -> Seq<char> {
        match self {
            Value::Bool(b) => if *b { "true"@ } else { "false"@ },
            Value::Int(i) => i@,
            Value::FField(f) => f@,
        }
    }

    /// Appends the SMT-LIB literal of the value to `out`.
    pub fn write_smt2(&self, out: &mut String)
        ensures
            final(out)@ == old(out)@ + self.smt_text(),
    {
        match self {
            Value::Bool(b) => {
                if *b {
                    out.append("true");
                } else {
                    out.append("false");
                }
            },
            Value::Int(i) => out.append(i.as_str()),
            Value::FField(f) => {
                out.append("(as ff");
                out.append(f.as_str());
                out.append(" FF)");
                assert(final(out)@ =~= old(out)@ + self.smt_text());
            },
        }
    }

    /// The value as it is shown to a user: `true`/`false`, or the digits of
    /// the number.
    pub fn to_display_string(&self) -> (s: String)
        ensures
            s@ == self.shown_text(),
    {
        match self {
            Value::Bool(b) => {
                if *b {
                    String::from_str("true")
                } else {
                    String::from_str("false")
                }
            },
            Value::Int(i) => i.clone(),
            Value::FField(f) => f.clone(),
        }
    }

    /// A copy of the value.
    pub fn duplicate(&self) -> (r: Value)
        ensures
            r.smt_text() == self.smt_text(),
            r.shown_text() == self.shown_text(),
            match (r, *self) {
                (Value::Bool(a), Value::Bool(b)) => a == b,
                (Value::Int(a), Value::Int(b)) => a@ == b@,
                (Value::FField(a), Value::FField(b)) => a@ == b@,
                _ => false,
            },
    {
        match self {
            Value::Bool(b) => Value::Bool(*b),
            Value::Int(i) => Value::Int(i.clone()),
            Value::FField(f) => Value::FField(f.clone()),
        }
    }
}

/// The sorts of SMT constants.
#[derive(Debug, Clone, Copy, PartialEq, Eq, Structural)]
pub enum Type {
    Bool,
    Int,
    FField,
}

impl Type {
    /// The SMT-LIB name of the sort.
    pub open spec fn sort_text(self) -> Seq<char> {
        match self {
            Type::Bool => "Bool"@,
            Type::Int => "Int"@,
            Type::FField => "FF"@,
        }
    }

    /// The SMT-LIB name of the sort.
    pub fn sort_name(&self) -> (s: &'static str)
        ensures
            s@ == self.sort_text(),
    {
        match self {
            Type::Bool => "Bool",
            Type::Int => "Int",
            Type::FField => "FF",
        }
    }
}

/// The answer of the solver to a satisfiability query.
#[derive(Debug, Clone, Copy, PartialEq, Eq, Structural)]
pub enum SolverOutput {
    Sat,
    Unsat,
    Unknown,
}

pub(crate) enum Expr {
    Value(Value),
    CValue(&'static str),
    Symb(String),
    CSymb(&'static str),
    App(&'static str, Vec<Expr>),
}

impl Expr {
    pub(crate) open spec fn width(self) -> nat {
        match self {
            Expr::App(_, args) => args.len() as nat,
            _ => 0,
        }
    }

    /// The SMT-LIB text of the term.
    pub(crate) open spec fn text(self) -> Seq<char>
        decreases self, self.width() + 1,
    {
        match self {
            Expr::Value(v) => v.smt_text(),
            Expr::CValue(s) => s@,
            Expr::Symb(s) => s@,
            Expr::CSymb(s) => s@,
            Expr::App(op, args) => "("@ + op@ + self.args_text(0) + ")"@,
        }
    }

    /// The arguments of an application from the `i`-th on, each preceded by a space.
    pub(crate) open spec fn args_text(self, i: nat) -> Seq<char>
        decreases self, self.width() - i,
    {
        match self {
            Expr::App(op, args) => {
                if i < args.len() {
                    proof {
                        assert(decreases_to!(self => args));
                    }
                    " "@ + args@[i as int].text() + self.args_text(i + 1)
                } else {
                    Seq::empty()
                }
            },
            _ => Seq::empty(),
        }
    }
}


impl Expr {
    /// The texts of the arguments of an application.
    pub(crate) open spec fn arg_texts(self) -> Seq<Seq<char>> {
        match self {
            Expr::App(_, args) => args@.map_values(|c: Expr| c.text()),
            _ => Seq::empty(),
        }
    }

    pub(crate) proof fn lemma_args_text(self, i: nat)
        requires
            self is App,
            i <= self.width(),
        ensures
            self.args_text(i) == spaced(self.arg_texts().subrange(i as int, self.width() as int)),
        decreases self.width() - i,
    {
        let w = self.width() as int;
        if i < self.width() {
            self.lemma_args_text(i + 1);
            let s = self.arg_texts().subrange(i as int, w);
            assert(s.drop_first() =~= self.arg_texts().subrange(i + 1 as int, w));
        } else {
            assert(self.arg_texts().subrange(i as int, w) =~= Seq::<Seq<char>>::empty());
        }
    }

    /// An application prints as its operator and its spaced arguments in parentheses.
    pub(crate) proof fn lemma_app_text(self)
        requires
            self is App,
        ensures
            self.text() == app_text(self->App_0@, self.arg_texts()),
    {
        self.lemma_args_text(0);
        assert(self.arg_texts().subrange(0, self.width() as int) =~= self.arg_texts());
    }

    /// Appends the SMT-LIB text of the term to `out`.
    pub(crate) fn write_smt2(&self, out: &mut String)
        ensures
            final(out)@ == old(out)@ + self.text(),
        decreases self,
    {
        match self {
            Expr::Value(v) => v.write_smt2(out),
            Expr::CValue(s) => out.append(s),
            Expr::Symb(s) => out.append(s.as_str()),
            Expr::CSymb(s) => out.append(s),
            Expr::App(op, args) => {
                let ghost start = out@;
                out.append("(");
                out.append(op);
                let mut i: usize = 0;
                while i < args.len()
                    invariant
                        i <= args.len(),
                        *self == Expr::App(*op, *args),
                        out@ + self.args_text(i as nat) == start + "("@ + op@ + self.args_text(0),
                    decreases args.len() - i,
                {
                    out.append(" ");
                    proof {
                        assert(decreases_to!(*self => *args));
                        assert(decreases_to!(*args => args@[i as int]));
                        assert(decreases_to!(*self => args@[i as int]));
                    }
                    args[i].write_smt2(out);
                    assert(self.args_text(i as nat) == " "@ + args@[i as int].text() + self.args_text(i as nat + 1));
                    assert(out@ + self.args_text(i as nat + 1) =~= start + "("@ + op@ + self.args_text(0));
                    i += 1;
                }
                out.append(")");
                assert(self.args_text(i as nat) =~= Seq::<char>::empty());
                assert(final(out)@ =~= start + self.text());
            },
        }
    }

    /// A copy of the term with the same text.
    pub(crate) fn duplicate(&self) -> (r: Expr)
        ensures
            r.text() == self.text(),
        decreases self,
    {
        match self {
            Expr::Value(v) => Expr::Value(v.duplicate()),
            Expr::CValue(s) => Expr::CValue(s),
            Expr::Symb(s) => Expr::Symb(s.clone()),
            Expr::CSymb(s) => Expr::CSymb(s),
            Expr::App(op, args) => {
                let mut copies: Vec<Expr> = Vec::new();
                let mut i: usize = 0;
                while i < args.len()
                    invariant
                        i <= args.len(),
                        *self == Expr::App(*op, *args),
                        copies.len() == i,
                        forall|j: int| 0 <= j < i ==> #[trigger] copies@[j].text() == args@[j].text(),
                    decreases args.len() - i,
                {
                    let ghost child = args@[i as int];
                    proof {
                        assert(*self == Expr::App(*op, *args));
                        assert((*self)->App_1 == *args);
                        assert(decreases_to!(*self => (*self)->App_1));
                        assert(decreases_to!(*self => child));
                    }
                    let c = args[i].duplicate();
                    copies.push(c);
                    i += 1;
                }
                let r = Expr::App(op, copies);
                proof {
                    self.lemma_app_text();
                    r.lemma_app_text();
                    assert(r.arg_texts() =~= self.arg_texts());
                }
                r
            },
        }
    }

    /// The SMT-LIB text of the term.
    pub(crate) fn to_string(&self) -> (s: String)
        ensures
            s@ == self.text(),
    {
        let mut s = String::new();
        self.write_smt2(&mut s);
        assert(s@ =~= self.text());
        s
    }

    fn app(op: &'static str, args: Vec<Expr>) -> (r: Expr)
        ensures
            r.text() == app_text(op@, args@.map_values(|c: Expr| c.text())),
    {
        let r = Expr::App(op, args);
        proof {
            r.lemma_app_text();
        }
        r
    }

    fn app1(op: &'static str, a: Expr) -> (r: Expr)
        ensures
            r.text() == app_text(op@, seq![a.text()]),
    {
        let ghost ta = a.text();
        let args = vec![a];
        assert(args@.map_values(|c: Expr| c.text()) =~= seq![ta]);
        Self::app(op, args)
    }

    fn app2(op: &'static str, a: Expr, b: Expr) -> (r: Expr)
        ensures
            r.text() == app_text(op@, seq![a.text(), b.text()]),
    {
        let ghost ta = a.text();
        let ghost tb = b.text();
        let args = vec![a, b];
        assert(args@.map_values(|c: Expr| c.text()) =~= seq![ta, tb]);
        Self::app(op, args)
    }

    /// `(op t1 ... tn)` over the given terms, in order.
    fn replicated(op: &'static str, terms: Vec<Expr>) -> (r: Expr)
        ensures
            r.text() == app_text(op@, terms@.map_values(|c: Expr| c.text())),
    {
        Self::app(op, terms)
    }
}

impl Clone for Expr {
    /// A copy of the term with the same text.
    fn clone(&self) -> (r: Self) {
        self.duplicate()
    }
}

/// A term of sort `FF`, the finite field of the circuit.
#[derive(Clone)]
pub struct FField {
    expr: Expr,
}

impl View for FField {
    type V = Seq<char>;

    closed spec fn view(&self) -> Seq<char> {
        self.expr.text()
    }
}

/// The texts of a sequence of field terms.
pub open spec fn ff_texts(ops: Seq<FField>) -> Seq<Seq<char>> {
    ops.map_values(|t: FField| t@)
}

pub proof fn lemma_ff_texts_push(s: Seq<FField>, x: FField)
    ensures
        ff_texts(s.push(x)) == ff_texts(s).push(x@),
{
    assert(ff_texts(s.push(x)) =~= ff_texts(s).push(x@));
}

impl FField {
    /// The literal `(as ff<value> FF)`.
    pub(crate) fn new_value(value: &str) -> (r: Self)
        ensures
            r@ == ff_literal(value@),
    {
        Self { expr: Expr::Value(Value::FField(String::from_str(value))) }
    }

    /// The constant of the given name.
    pub(crate) fn new_const(name: &str) -> (r: Self)
        ensures
            r@ == name@,
    {
        Self { expr: Expr::Symb(String::from_str(name)) }
    }

    /// The field element 0.
    pub(crate) fn zero() -> (r: Self)
        ensures
            r@ == "(as ff0 FF)"@,
    {
        Self { expr: Expr::CValue("(as ff0 FF)") }
    }

    /// The field element 1.
    pub(crate) fn one() -> (r: Self)
        ensures
            r@ == "(as ff1 FF)"@,
    {
        Self { expr: Expr::CValue("(as ff1 FF)") }
    }

    /// `(ff.add self other)`
    pub(crate) fn add(self, other: Self) -> (r: Self)
        ensures
            r@ == app_text("ff.add"@, seq![self@, other@]),
    {
        Self { expr: Expr::app2("ff.add", self.expr, other.expr) }
    }

    /// `(ff.add t1 ... tn)`
    pub(crate) fn radd(ops: Vec<Self>) -> (r: Self)
        requires
            ops.len() >= 2,
        ensures
            r@ == app_text("ff.add"@, ff_texts(ops@)),
    {
        Self::replicated_op(ops, "ff.add")
    }

    /// `(ff.mul self other)`
    pub(crate) fn mul(self, other: Self) -> (r: Self)
        ensures
            r@ == app_text("ff.mul"@, seq![self@, other@]),
    {
        Self { expr: Expr::app2("ff.mul", self.expr, other.expr) }
    }

    /// `(ff.mul t1 ... tn)`
    pub(crate) fn rmul(ops: Vec<Self>) -> (r: Self)
        requires
            ops.len() >= 2,
        ensures
            r@ == app_text("ff.mul"@, ff_texts(ops@)),
    {
        Self::replicated_op(ops, "ff.mul")
    }

    /// `(ff.bitsum t0 ... tn)`: the sum of the terms weighted by successive powers of two.
    pub(crate) fn rbitsum(ops: Vec<Self>) -> (r: Self)
        requires
            ops.len() >= 2,
        ensures
            r@ == app_text("ff.bitsum"@, ff_texts(ops@)),
    {
        Self::replicated_op(ops, "ff.bitsum")
    }

    fn replicated_op(ops: Vec<Self>, op: &'static str) -> (r: Self)
        requires
            ops.len() >= 2,
        ensures
            r@ == app_text(op@, ff_texts(ops@)),
    {
        let ghost texts = ff_texts(ops@);
        let mut ops = ops;
        let mut terms: Vec<Expr> = Vec::new();
        while ops.len() > 0
            invariant
                terms@.map_values(|c: Expr| c.text()) + ff_texts(ops@) == texts,
            decreases ops.len(),
        {
            let ghost before = ops@;
            let other = ops.remove(0);
            terms.push(other.expr);
            assert(ff_texts(before) =~= seq![other@] + ff_texts(ops@));
            assert(terms@.map_values(|c: Expr| c.text()) + ff_texts(ops@) =~= texts);
        }
        assert(terms@.map_values(|c: Expr| c.text()) =~= texts);
        Self { expr: Expr::replicated(op, terms) }
    }

    /// `(= self other)`
    pub(crate) fn eq(self, other: Self) -> (r: Bool)
        ensures
            r@ == app_text("="@, seq![self@, other@]),
    {
        Bool { expr: Expr::app2("=", self.expr, other.expr) }
    }

    /// A copy of the term.
    pub(crate) fn duplicate(&self) -> (r: Self)
        ensures
            r@ == self@,
    {
        Self { expr: self.expr.duplicate() }
    }

    /// The SMT-LIB text of the term.
    pub fn to_smt2(&self) -> (s: String)
        ensures
            s@ == self@,
    {
        self.expr.to_string()
    }
}

/// A term of sort `Bool`.
#[derive(Clone)]
pub struct Bool {
    expr: Expr,
}

impl View for Bool {
    type V = Seq<char>;

    closed spec fn view(&self) -> Seq<char> {
        self.expr.text()
    }
}

impl Bool {
    /// The literal `true` or `false`.
    pub fn new_value(value: bool) -> (r: Self)
        ensures
            r@ == (if value { "true"@ } else { "false"@ }),
    {
        Self { expr: Expr::Value(Value::Bool(value)) }
    }

    /// The constant of the given name.
    pub fn new_const(name: &str) -> (r: Self)
        ensures
            r@ == name@,
    {
        Self { expr: Expr::Symb(String::from_str(name)) }
    }

    /// `(and self other)`
    pub fn and(self, other: Self) -> (r: Self)
        ensures
            r@ == app_text("and"@, seq![self@, other@]),
    {
        Self { expr: Expr::app2("and", self.expr, other.expr) }
    }

    /// `(or self other)`
    pub fn or(self, other: Self) -> (r: Self)
        ensures
            r@ == app_text("or"@, seq![self@, other@]),
    {
        Self { expr: Expr::app2("or", self.expr, other.expr) }
    }

    /// `(=> self other)`
    pub fn imp(self, other: Self) -> (r: Self)
        ensures
            r@ == app_text("=>"@, seq![self@, other@]),
    {
        Self { expr: Expr::app2("=>", self.expr, other.expr) }
    }

    /// `(not self)`
    pub fn neg(self) -> (r: Self)
        ensures
            r@ == app_text("not"@, seq![self@]),
    {
        Self { expr: Expr::app1("not", self.expr) }
    }

    /// A copy of the term.
    pub fn duplicate(&self) -> (r: Self)
        ensures
            r@ == self@,
    {
        Self { expr: self.expr.duplicate() }
    }

    /// The SMT-LIB text of the term.
    pub fn to_smt2(&self) -> (s: String)
        ensures
            s@ == self@,
    {
        self.expr.to_string()
    }
}

/// A term of sort `Int`.
#[derive(Clone)]
pub struct Int {
    expr: Expr,
}

impl View for Int {
    type V = Seq<char>;

    closed spec fn view(&self) -> Seq<char> {
        self.expr.text()
    }
}

/// The texts of a sequence of integer terms.
pub open spec fn int_texts(ops: Seq<Int>) -> Seq<Seq<char>> {
    ops.map_values(|t: Int| t@)
}

pub proof fn lemma_int_texts_push(s: Seq<Int>, x: Int)
    ensures
        int_texts(s.push(x)) == int_texts(s).push(x@),
{
    assert(int_texts(s.push(x)) =~= int_texts(s).push(x@));
}

impl Int {
    /// The integer literal with the given digits.
    pub(crate) fn new_value(value: &str) -> (r: Self)
        ensures
            r@ == value@,
    {
        Self { expr: Expr::Value(Value::Int(String::from_str(value))) }
    }

    /// The constant of the given name.
    pub(crate) fn new_const(name: &str) -> (r: Self)
        ensures
            r@ == name@,
    {
        Self { expr: Expr::Symb(String::from_str(name)) }
    }

    /// The integer 0.
    pub(crate) fn zero() -> (r: Self)
        ensures
            r@ == "0"@,
    {
        Self { expr: Expr::Value(Value::Int(String::from_str("0"))) }
    }

    /// The integer 1.
    pub(crate) fn one() -> (r: Self)
        ensures
            r@ == "1"@,
    {
        Self { expr: Expr::Value(Value::Int(String::from_str("1"))) }
    }

    /// `(+ self other)`
    pub(crate) fn add(self, other: Self) -> (r: Self)
        ensures
            r@ == app_text("+"@, seq![self@, other@]),
    {
        Self { expr: Expr::app2("+", self.expr, other.expr) }
    }

    /// `(* self other)`
    pub(crate) fn mul(self, other: Self) -> (r: Self)
        ensures
            r@ == app_text("*"@, seq![self@, other@]),
    {
        Self { expr: Expr::app2("*", self.expr, other.expr) }
    }

    /// `(+ t1 ... tn)`
    pub(crate) fn radd(ops: Vec<Self>) -> (r: Self)
        requires
            ops.len() >= 2,
        ensures
            r@ == app_text("+"@, int_texts(ops@)),
    {
        Self::replicated_op(ops, "+")
    }

    /// `(* t1 ... tn)`
    pub(crate) fn rmul(ops: Vec<Self>) -> (r: Self)
        requires
            ops.len() >= 2,
        ensures
            r@ == app_text("*"@, int_texts(ops@)),
    {
        Self::replicated_op(ops, "*")
    }

    fn replicated_op(ops: Vec<Self>, op: &'static str) -> (r: Self)
        requires
            ops.len() >= 2,
        ensures
            r@ == app_text(op@, int_texts(ops@)),
    {
        let ghost texts = int_texts(ops@);
        let mut ops = ops;
        let mut terms: Vec<Expr> = Vec::new();
        while ops.len() > 0
            invariant
                terms@.map_values(|c: Expr| c.text()) + int_texts(ops@) == texts,
            decreases ops.len(),
        {
            let ghost before = ops@;
            let other = ops.remove(0);
            terms.push(other.expr);
            assert(int_texts(before) =~= seq![other@] + int_texts(ops@));
            assert(terms@.map_values(|c: Expr| c.text()) + int_texts(ops@) =~= texts);
        }
        assert(terms@.map_values(|c: Expr| c.text()) =~= texts);
        Self { expr: Expr::replicated(op, terms) }
    }

    /// `(mod self other)`
    pub(crate) fn modu(self, other: Self) -> (r: Self)
        ensures
            r@ == app_text("mod"@, seq![self@, other@]),
    {
        Self { expr: Expr::app2("mod", self.expr, other.expr) }
    }

    /// `(< self other)`
    pub(crate) fn lt(self, other: Self) -> (r: Bool)
        ensures
            r@ == app_text("<"@, seq![self@, other@]),
    {
        Bool { expr: Expr::app2("<", self.expr, other.expr) }
    }

    /// `(>= self other)`
    pub(crate) fn gte(self, other: Self) -> (r: Bool)
        ensures
            r@ == app_text(">="@, seq![self@, other@]),
    {
        Bool { expr: Expr::app2(">=", self.expr, other.expr) }
    }

    /// `(= self other)`
    pub(crate) fn eq(self, other: Self) -> (r: Bool)
        ensures
            r@ == app_text("="@, seq![self@, other@]),
    {
        Bool { expr: Expr::app2("=", self.expr, other.expr) }
    }

    /// A copy of the term.
    pub(crate) fn duplicate(&self) -> (r: Self)
        ensures
            r@ == self@,
    {
        Self { expr: self.expr.duplicate() }
    }

    /// The SMT-LIB text of the term.
    pub fn to_smt2(&self) -> (s: String)
        ensures
            s@ == self@,
    {
        self.expr.to_string()
    }
}

/// A command sent to the solver, as the SMT encoding sees it.
pub enum CommandSpec {
    /// `(declare-const name sort)`
    Declare(Seq<char>, Type),
    /// `(assert term)`
    Assert(Seq<char>),
}

/// A command sent to the solver.
pub enum Command {
    /// Declares a constant of the given name and sort.
    DeclareConst(String, Type),
    /// Asserts a Boolean term.
    Assert(Bool),
}

impl View for Command {
    type V = CommandSpec;

    open spec fn view(&self) -> CommandSpec {
        match self {
            Command::DeclareConst(name, ty) => CommandSpec::Declare(name@, *ty),
            Command::Assert(b) => CommandSpec::Assert(b@),
        }
    }
}

} // verus!
