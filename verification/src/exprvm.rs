//! A stack-machine bytecode compiler and evaluator for scalar expressions.
//!
//! The row-at-a-time evaluator walks an [`Expr`] tree per row, which re-pays the
//! tree-traversal cost for every row scanned. Compiling the expression once to a
//! flat bytecode program and then running that program per row removes the
//! pointer chasing: the program is a `Vec` of [`Op`]s executed against a small
//! value stack, reading inputs from a row slice by column index. This is the
//! same idea as a query JIT, minus the machine-code emission.
//!
//! [`lemma_compiled`] says that a compiled program computes what its expression
//! means.
use vstd::prelude::*;

use crate::expr::NameTable;
use crate::numeric;
use crate::numeric::{ArithOp, RealNeed, Reals};
use crate::sql;
use crate::sql::{BinOp, Expr, UnaryOp};
use crate::value;
use crate::value::{CmpOp, Side, Value};

verus! {

/// One bytecode instruction.
#[derive(Debug, Clone, Copy, PartialEq, Eq, Structural)]
pub enum Op {
    /// Push a constant.
    PushConst(Value),
    /// Push the value of input column `n`.
    PushColumn(usize),
    /// Pop two, push the binary result.
    Binary(BinOp),
    /// Pop one, push the unary result.
    Unary(UnaryOp),
    /// Pop one; push whether it is (not) null.
    IsNull(bool),
    /// Pop three (value, lo, hi); push whether value is in `[lo, hi]`.
    Between,
    /// Pop `n` values plus the probe; push membership.
    InList(usize),
}

/// A compiled expression program.
#[derive(Debug, Clone)]
pub struct Program {
    ops: Vec<Op>,
}

impl View for Program {
    type V = Seq<Op>;

    closed spec fn view(&self) -> Seq<Op> {
        self.ops@
    }
}

impl Default for Program {
    fn default() -> (r: Program)
        ensures
            r@ == Seq::<Op>::empty(),
    {
        Program { ops: Vec::new() }
    }
}

impl Program {
    /// The instruction stream.
    pub fn ops(&self) -> (r: &[Op])
        ensures
            r@ == self@,
    {
        self.ops.as_slice()
    }

    /// Number of instructions.
    pub fn len(&self) -> (r: usize)
        ensures
            r == self@.len(),
    {
        self.ops.len()
    }

    /// `true` if the program is empty.
    pub fn is_empty(&self) -> (r: bool)
        ensures
            r == (self@.len() == 0),
    {
        self.ops.len() == 0
    }
}

/// Error compiling an expression to bytecode.
#[derive(Debug, Clone, PartialEq, Eq)]
pub enum CompileError {
    /// A column name not present in the binding map.
    UnknownColumn(String),
    /// An expression form the VM does not support (e.g. aggregates).
    Unsupported(&'static str),
}

/// A [`CompileError`] with its texts as characters.
pub enum CompileFault {
    UnknownColumn(Seq<char>),
    Unsupported(Seq<char>),
}

impl View for CompileError {
    type V = CompileFault;

    open spec fn view(&self) -> CompileFault {
        match self {
            CompileError::UnknownColumn(c) => CompileFault::UnknownColumn(c@),
            CompileError::Unsupported(s) => CompileFault::Unsupported(s@),
        }
    }
}

/// Its message.
pub open spec fn message(e: CompileFault) -> Seq<char> {
    match e {
        CompileFault::UnknownColumn(c) => "unknown column '"@ + c + "'"@,
        CompileFault::Unsupported(s) => "unsupported expression: "@ + s,
    }
}

impl CompileError {
    /// The message for this error.
    pub fn to_string(&self) -> (r: String)
        ensures
            r@ == message(self@),
    {
        match self {
            CompileError::UnknownColumn(c) => {
                let mut s = String::from_str("unknown column '");
                s.append(c.as_str());
                s.append("'");
                s
            },
            CompileError::Unsupported(t) => {
                let mut s = String::from_str("unsupported expression: ");
                s.append(t);
                s
            },
        }
    }
}

/// The instructions for an expression.
pub open spec fn compiled<N: NameTable>(e: sql::Node, names: N) -> Result<Seq<Op>, CompileFault>
    decreases e,
{
    match e {
        sql::Node::LitInt(i) => Ok(seq![Op::PushConst(Value::Int(i))]),
        sql::Node::LitReal(b) => Ok(seq![Op::PushConst(Value::Real(b))]),
        sql::Node::LitBool(b) => Ok(seq![Op::PushConst(Value::Bool(b))]),
        sql::Node::LitStr(_) => Err(CompileFault::Unsupported("string literal without dictionary"@)),
        sql::Node::Null => Ok(seq![Op::PushConst(Value::Null)]),
        sql::Node::Column(c) => match names.place(c) {
            Some(i) => Ok(seq![Op::PushColumn(i)]),
            None => Err(CompileFault::UnknownColumn(c)),
        },
        sql::Node::Qualified(_, c) => match names.place(c) {
            Some(i) => Ok(seq![Op::PushColumn(i)]),
            None => Err(CompileFault::UnknownColumn(c)),
        },
        sql::Node::Unary(op, a) => match compiled(*a, names) {
            Err(x) => Err(x),
            Ok(p) => Ok(p.push(Op::Unary(op))),
        },
        sql::Node::Binary(op, a, b) => match compiled(*a, names) {
            Err(x) => Err(x),
            Ok(p) => match compiled(*b, names) {
                Err(x) => Err(x),
                Ok(q) => Ok((p + q).push(Op::Binary(op))),
            },
        },
        sql::Node::IsNull(a, neg) => match compiled(*a, names) {
            Err(x) => Err(x),
            Ok(p) => Ok(p.push(Op::IsNull(neg))),
        },
        sql::Node::Between(a, b, c) => match compiled(*a, names) {
            Err(x) => Err(x),
            Ok(p) => match compiled(*b, names) {
                Err(x) => Err(x),
                Ok(q) => match compiled(*c, names) {
                    Err(x) => Err(x),
                    Ok(r) => Ok((p + q + r).push(Op::Between)),
                },
            },
        },
        sql::Node::InList(a, l) => match compiled(*a, names) {
            Err(x) => Err(x),
            Ok(p) => match compiled_all(l, names) {
                Err(x) => Err(x),
                Ok(q) => Ok((p + q).push(Op::InList(l.len() as usize))),
            },
        },
        sql::Node::Like(_, _) => Err(CompileFault::Unsupported("LIKE"@)),
        sql::Node::Aggregate(_, _) => Err(CompileFault::Unsupported("aggregate"@)),
        sql::Node::Star => Err(CompileFault::Unsupported("*"@)),
    }
}

/// The instructions for expressions, one after the other.
pub open spec fn compiled_all<N: NameTable>(l: Seq<sql::Node>, names: N) -> Result<Seq<Op>, CompileFault>
    decreases l,
{
    if l.len() == 0 {
        Ok(Seq::empty())
    } else {
        match compiled_all(l.drop_last(), names) {
            Err(x) => Err(x),
            Ok(p) => match compiled(l.last(), names) {
                Err(x) => Err(x),
                Ok(q) => Ok(p + q),
            },
        }
    }
}

proof fn lemma_all_stops<N: NameTable>(l: Seq<sql::Node>, names: N, n: int)
    requires
        0 <= n <= l.len(),
        compiled_all(l.take(n), names) is Err,
    ensures
        compiled_all(l, names) == compiled_all(l.take(n), names),
    decreases l.len() - n,
{
    if n < l.len() {
        assert(l.take(n + 1).drop_last() =~= l.take(n));
        lemma_all_stops(l, names, n + 1);
    } else {
        assert(l.take(n) =~= l);
    }
}

/// Compiles an [`Expr`] into a [`Program`], resolving column names to indices.
pub struct Compiler<'a, N: NameTable> {
    columns: &'a N,
}

impl<'a, N: NameTable> Compiler<'a, N> {
    pub closed spec fn names(self) -> N {
        *self.columns
    }

    /// A compiler binding column names to input indices.
    pub fn new(columns: &'a N) -> (r: Compiler<'a, N>)
        ensures
            r.names() == *columns,
    {
        Compiler { columns }
    }

    /// Compile `expr`.
    pub fn compile(&self, expr: &Expr) -> (r: Result<Program, CompileError>)
        ensures
            match r {
                Ok(p) => compiled(sql::node(*expr), self.names()) == Ok::<Seq<Op>, CompileFault>(p@),
                Err(e) => compiled(sql::node(*expr), self.names()) == Err::<Seq<Op>, CompileFault>(e@),
            },
    {
        let mut ops: Vec<Op> = Vec::new();
        match self.emit(expr, &mut ops) {
            Err(e) => Err(e),
            Ok(_) => {
                let p = Program { ops };
                assert(Seq::<Op>::empty() + p@ =~= p@);
                Ok(p)
            },
        }
    }

    fn column_index(&self, name: &String) -> (r: Result<usize, CompileError>)
        ensures
            match r {
                Ok(i) => self.names().place(name@) == Some(i),
                Err(e) => self.names().place(name@) is None && e@ == CompileFault::UnknownColumn(name@),
            },
    {
        match self.columns.resolve(name.as_str()) {
            Some(i) => Ok(i),
            None => Err(CompileError::UnknownColumn(sql::copy_text(name))),
        }
    }

    fn emit(&self, expr: &Expr, ops: &mut Vec<Op>) -> (r: Result<(), CompileError>)
        ensures
            match r {
                Ok(_) => match compiled(sql::node(*expr), self.names()) {
                    Ok(p) => final(ops)@ == old(ops)@ + p,
                    Err(_) => false,
                },
                Err(e) => compiled(sql::node(*expr), self.names()) == Err::<Seq<Op>, CompileFault>(e@),
            },
        decreases expr,
    {
        let ghost was = ops@;
        match expr {
            Expr::LitInt(i) => ops.push(Op::PushConst(Value::Int(*i))),
            Expr::LitReal(b) => ops.push(Op::PushConst(Value::Real(*b))),
            Expr::LitBool(b) => ops.push(Op::PushConst(Value::Bool(*b))),
            Expr::LitStr(_) => return Err(CompileError::Unsupported("string literal without dictionary")),
            Expr::Null => ops.push(Op::PushConst(Value::Null)),
            Expr::Column(c) => match self.column_index(c) {
                Err(e) => return Err(e),
                Ok(i) => ops.push(Op::PushColumn(i)),
            },
            Expr::Qualified(_, c) => match self.column_index(c) {
                Err(e) => return Err(e),
                Ok(i) => ops.push(Op::PushColumn(i)),
            },
            Expr::Unary(op, a) => {
                if let Err(e) = self.emit(a, ops) {
                    return Err(e);
                }
                ops.push(Op::Unary(*op));
            },
            Expr::Binary(op, a, b) => {
                if let Err(e) = self.emit(a, ops) {
                    return Err(e);
                }
                if let Err(e) = self.emit(b, ops) {
                    return Err(e);
                }
                ops.push(Op::Binary(*op));
            },
            Expr::IsNull(a, neg) => {
                if let Err(e) = self.emit(a, ops) {
                    return Err(e);
                }
                ops.push(Op::IsNull(*neg));
            },
            Expr::Between(a, b, c) => {
                if let Err(e) = self.emit(a, ops) {
                    return Err(e);
                }
                if let Err(e) = self.emit(b, ops) {
                    return Err(e);
                }
                if let Err(e) = self.emit(c, ops) {
                    return Err(e);
                }
                ops.push(Op::Between);
            },
            Expr::InList(a, list) => {
                if let Err(e) = self.emit(a, ops) {
                    return Err(e);
                }
                let ghost mid = ops@;
                let ghost l = sql::nodes(list@);
                proof {
                    sql::lemma_nodes(list@);
                    assert(mid + Seq::<Op>::empty() =~= mid);
                }
                let mut i: usize = 0;
                while i < list.len()
                    invariant
                        i <= list.len(),
                        decreases_to!(expr => list@),
                        l == sql::nodes(list@),
                        l.len() == list@.len(),
                        forall|k: int| 0 <= k < list@.len() ==> #[trigger] l[k] == sql::node(list@[k]),
                        match compiled_all(l.take(i as int), self.names()) {
                            Ok(p) => ops@ == mid + p,
                            Err(_) => false,
                        },
                        sql::node(*expr) == sql::Node::InList(Box::new(sql::node(**a)), l),
                        compiled(sql::node(**a), self.names()) is Ok,
                    decreases list.len() - i,
                {
                    proof {
                        assert(l.take(i + 1).drop_last() =~= l.take(i as int));
                        assert(l.take(i + 1).last() == l[i as int]);
                    }
                    let ghost p = compiled_all(l.take(i as int), self.names())->Ok_0;
                    if let Err(e) = self.emit(&list[i], ops) {
                        proof {
                            lemma_all_stops(l, self.names(), i + 1);
                        }
                        return Err(e);
                    }
                    proof {
                        let q = compiled(l[i as int], self.names())->Ok_0;
                        assert(mid + p + q =~= mid + (p + q));
                    }
                    i += 1;
                }
                assert(l.take(l.len() as int) =~= l);
                ops.push(Op::InList(list.len()));
            },
            Expr::Like(_, _) => return Err(CompileError::Unsupported("LIKE")),
            Expr::Aggregate(_, _) => return Err(CompileError::Unsupported("aggregate")),
            Expr::Star => return Err(CompileError::Unsupported("*")),
        }
        assert(ops@ =~= was + compiled(sql::node(*expr), self.names())->Ok_0);
        Ok(())
    }
}

// Meaning

/// The arithmetic operator that a binary operator stands for.
pub open spec fn arith_op(op: BinOp) -> Option<ArithOp> {
    match op {
        BinOp::Add => Some(ArithOp::Add),
        BinOp::Sub => Some(ArithOp::Sub),
        BinOp::Mul => Some(ArithOp::Mul),
        BinOp::Div => Some(ArithOp::Div),
        BinOp::Mod => Some(ArithOp::Mod),
        _ => None,
    }
}

pub open spec fn unary_of(op: UnaryOp, v: Value) -> Value {
    match op {
        UnaryOp::Neg => match v {
            Value::Int(i) => Value::Int(numeric::int_negated(i)),
            Value::Real(b) => Value::Real(numeric::real_negated(b)),
            _ => Value::Null,
        },
        UnaryOp::Not => match v {
            Value::Bool(b) => Value::Bool(!b),
            Value::Int(i) => Value::Bool(i == 0),
            _ => Value::Null,
        },
    }
}

/// A value as a truth value, where it has one.
pub open spec fn bool_of(v: Value) -> Option<bool> {
    match v {
        Value::Bool(b) => Some(b),
        Value::Int(i) => Some(i != 0),
        _ => None,
    }
}

/// Arithmetic. What has no result, a division by zero among it, is null.
pub open spec fn arith_of(op: ArithOp, a: Value, b: Value, reals: numeric::RealFacts) -> Result<Value, numeric::Need> {
    let divides = op == ArithOp::Div || op == ArithOp::Mod;
    match (a, b) {
        (Value::Int(x), Value::Int(y)) => if divides && y == 0 {
            Ok(Value::Null)
        } else {
            Ok(Value::Int(numeric::int_result(op, x, y)))
        },
        _ => match (a.spec_as_real(), b.spec_as_real()) {
            (Some(x), Some(y)) => if divides && numeric::real_zero(y) {
                Ok(Value::Null)
            } else {
                match numeric::first(reals.results, (op, x, y)) {
                    Some(z) => Ok(Value::Real(z)),
                    None => Err(numeric::Need::Arith(op, x, y)),
                }
            },
            _ => Ok(Value::Null),
        },
    }
}

pub open spec fn binary_of(op: BinOp, a: Value, b: Value, reals: numeric::RealFacts) -> Result<Value, numeric::Need> {
    match op {
        BinOp::And => Ok(
            if bool_of(a) == Some(false) || bool_of(b) == Some(false) {
                Value::Bool(false)
            } else if bool_of(a) == Some(true) && bool_of(b) == Some(true) {
                Value::Bool(true)
            } else {
                Value::Null
            },
        ),
        BinOp::Or => Ok(
            if bool_of(a) == Some(true) || bool_of(b) == Some(true) {
                Value::Bool(true)
            } else if bool_of(a) == Some(false) && bool_of(b) == Some(false) {
                Value::Bool(false)
            } else {
                Value::Null
            },
        ),
        _ => if a is Null || b is Null {
            Ok(Value::Null)
        } else {
            match arith_op(op) {
                Some(f) => arith_of(f, a, b, reals),
                None => {
                    let s = value::value_side(a, b);
                    Ok(
                        Value::Bool(
                            match op {
                                BinOp::Eq => s == Side::Same,
                                BinOp::NotEq => s != Side::Same,
                                BinOp::Lt => s == Side::Below,
                                BinOp::LtEq => s != Side::Above,
                                BinOp::Gt => s == Side::Above,
                                _ => s != Side::Below,
                            },
                        ),
                    )
                },
            }
        },
    }
}

pub open spec fn between_of(v: Value, lo: Value, hi: Value) -> Value {
    if v is Null || lo is Null || hi is Null {
        Value::Null
    } else {
        Value::Bool(value::value_side(v, lo) != Side::Below && value::value_side(v, hi) != Side::Above)
    }
}

/// Whether a list has a value that the order does not tell from `v`.
pub open spec fn holds_level(s: Seq<Value>, v: Value) -> bool {
    exists|i: int| 0 <= i < s.len() && !(s[i] is Null) && value::value_side(v, #[trigger] s[i]) == Side::Same
}

/// Whether a list has a null.
pub open spec fn holds_null(s: Seq<Value>) -> bool {
    exists|i: int| 0 <= i < s.len() && #[trigger] s[i] is Null
}

/// Membership: a miss with a null in the list is unknown.
pub open spec fn member_of(s: Seq<Value>, probe: Value) -> Value {
    if probe is Null {
        Value::Null
    } else if holds_level(s, probe) {
        Value::Bool(true)
    } else if holds_null(s) {
        Value::Null
    } else {
        Value::Bool(false)
    }
}

/// A row's value in a column; a column that the row lacks is null.
pub open spec fn input(row: Seq<Value>, i: usize) -> Value {
    if i < row.len() {
        row[i as int]
    } else {
        Value::Null
    }
}

/// What an expression means for a row.
pub open spec fn meaning<N: NameTable>(e: sql::Node, names: N, row: Seq<Value>, reals: numeric::RealFacts) -> Result<
    Value,
    numeric::Need,
>
    decreases e,
{
    match e {
        sql::Node::LitInt(i) => Ok(Value::Int(i)),
        sql::Node::LitReal(b) => Ok(Value::Real(b)),
        sql::Node::LitBool(b) => Ok(Value::Bool(b)),
        sql::Node::Column(c) => Ok(input(row, names.place(c).unwrap())),
        sql::Node::Qualified(_, c) => Ok(input(row, names.place(c).unwrap())),
        sql::Node::Unary(op, a) => match meaning(*a, names, row, reals) {
            Err(x) => Err(x),
            Ok(v) => Ok(unary_of(op, v)),
        },
        sql::Node::Binary(op, a, b) => match meaning(*a, names, row, reals) {
            Err(x) => Err(x),
            Ok(v) => match meaning(*b, names, row, reals) {
                Err(x) => Err(x),
                Ok(w) => binary_of(op, v, w, reals),
            },
        },
        sql::Node::IsNull(a, neg) => match meaning(*a, names, row, reals) {
            Err(x) => Err(x),
            Ok(v) => Ok(Value::Bool((v is Null) != neg)),
        },
        sql::Node::Between(a, b, c) => match meaning(*a, names, row, reals) {
            Err(x) => Err(x),
            Ok(v) => match meaning(*b, names, row, reals) {
                Err(x) => Err(x),
                Ok(lo) => match meaning(*c, names, row, reals) {
                    Err(x) => Err(x),
                    Ok(hi) => Ok(between_of(v, lo, hi)),
                },
            },
        },
        sql::Node::InList(a, l) => match meaning(*a, names, row, reals) {
            Err(x) => Err(x),
            Ok(v) => match meanings(l, names, row, reals) {
                Err(x) => Err(x),
                Ok(s) => Ok(member_of(s, v)),
            },
        },
        _ => Ok(Value::Null),
    }
}

/// What expressions mean for a row.
pub open spec fn meanings<N: NameTable>(l: Seq<sql::Node>, names: N, row: Seq<Value>, reals: numeric::RealFacts) -> Result<
    Seq<Value>,
    numeric::Need,
>
    decreases l,
{
    if l.len() == 0 {
        Ok(Seq::empty())
    } else {
        match meanings(l.drop_last(), names, row, reals) {
            Err(x) => Err(x),
            Ok(s) => match meaning(l.last(), names, row, reals) {
                Err(x) => Err(x),
                Ok(v) => Ok(s.push(v)),
            },
        }
    }
}

// Machine

/// The top of a stack; of an empty one, null.
pub open spec fn top(s: Seq<Value>) -> Value {
    if s.len() == 0 {
        Value::Null
    } else {
        s.last()
    }
}

/// A stack without its top.
pub open spec fn below(s: Seq<Value>) -> Seq<Value> {
    if s.len() == 0 {
        s
    } else {
        s.drop_last()
    }
}

/// The `n` topmost values, in the order in which they come off.
pub open spec fn taken(s: Seq<Value>, n: nat) -> Seq<Value>
    decreases n,
{
    if n == 0 {
        Seq::empty()
    } else {
        seq![top(s)] + taken(below(s), (n - 1) as nat)
    }
}

/// A stack without its `n` topmost values.
pub open spec fn left(s: Seq<Value>, n: nat) -> Seq<Value>
    decreases n,
{
    if n == 0 {
        s
    } else {
        left(below(s), (n - 1) as nat)
    }
}

/// What an instruction makes of a stack.
pub open spec fn step(op: Op, s: Seq<Value>, row: Seq<Value>, reals: numeric::RealFacts) -> Result<
    Seq<Value>,
    numeric::Need,
> {
    match op {
        Op::PushConst(v) => Ok(s.push(v)),
        Op::PushColumn(i) => Ok(s.push(input(row, i))),
        Op::Unary(f) => Ok(below(s).push(unary_of(f, top(s)))),
        Op::Binary(f) => match binary_of(f, top(below(s)), top(s), reals) {
            Err(x) => Err(x),
            Ok(v) => Ok(below(below(s)).push(v)),
        },
        Op::IsNull(neg) => Ok(below(s).push(Value::Bool((top(s) is Null) != neg))),
        Op::Between => Ok(below(below(below(s))).push(between_of(top(below(below(s))), top(below(s)), top(s)))),
        Op::InList(n) => {
            let r = left(s, n as nat);
            Ok(below(r).push(member_of(taken(s, n as nat), top(r))))
        },
    }
}

/// What a program makes of a stack.
pub open spec fn run(p: Seq<Op>, s: Seq<Value>, row: Seq<Value>, reals: numeric::RealFacts) -> Result<
    Seq<Value>,
    numeric::Need,
>
    decreases p.len(),
{
    if p.len() == 0 {
        Ok(s)
    } else {
        match run(p.drop_last(), s, row, reals) {
            Err(x) => Err(x),
            Ok(t) => step(p.last(), t, row, reals),
        }
    }
}

/// What a program gives for a row.
pub open spec fn outcome(p: Seq<Op>, row: Seq<Value>, reals: numeric::RealFacts) -> Result<Value, numeric::Need> {
    match run(p, Seq::empty(), row, reals) {
        Err(x) => Err(x),
        Ok(s) => Ok(top(s)),
    }
}

fn as_bool(v: &Value) -> (r: Option<bool>)
    ensures
        r == bool_of(*v),
{
    match v {
        Value::Bool(b) => Some(*b),
        Value::Int(i) => Some(*i != 0),
        _ => None,
    }
}

fn apply_unary(op: UnaryOp, v: Value) -> (r: Value)
    ensures
        r == unary_of(op, v),
{
    match op {
        UnaryOp::Neg => match v {
            Value::Int(i) => Value::Int(numeric::int_neg(i)),
            Value::Real(b) => Value::Real(numeric::real_neg(b)),
            _ => Value::Null,
        },
        UnaryOp::Not => match v {
            Value::Bool(b) => Value::Bool(!b),
            Value::Int(i) => Value::Bool(i == 0),
            _ => Value::Null,
        },
    }
}

fn arith(op: ArithOp, a: Value, b: Value, reals: &Reals) -> (r: Result<Value, RealNeed>)
    ensures
        told(r) == arith_of(op, a, b, reals@),
{
    let divides = matches!(op, ArithOp::Div) || matches!(op, ArithOp::Mod);
    if let (Value::Int(x), Value::Int(y)) = (a, b) {
        return if divides && y == 0 {
            Ok(Value::Null)
        } else {
            Ok(Value::Int(numeric::int_arith(op, x, y)))
        };
    }
    match (a.as_real(), b.as_real()) {
        (Some(x), Some(y)) => {
            if divides && numeric::is_real_zero(y) {
                Ok(Value::Null)
            } else {
                match reals.result(op, x, y) {
                    Some(z) => Ok(Value::Real(z)),
                    None => Err(RealNeed::Arith(op, x, y)),
                }
            }
        },
        _ => Ok(Value::Null),
    }
}

/// What a result stands for.
pub open spec fn told(r: Result<Value, RealNeed>) -> Result<Value, numeric::Need> {
    match r {
        Ok(v) => Ok(v),
        Err(n) => Err(n@),
    }
}

fn apply_binary(op: BinOp, a: Value, b: Value, reals: &Reals) -> (r: Result<Value, RealNeed>)
    ensures
        told(r) == binary_of(op, a, b, reals@),
{
    let x = as_bool(&a);
    let y = as_bool(&b);
    if matches!(op, BinOp::And) {
        return Ok(
            match (x, y) {
                (Some(false), _) => Value::Bool(false),
                (_, Some(false)) => Value::Bool(false),
                (Some(true), Some(true)) => Value::Bool(true),
                _ => Value::Null,
            },
        );
    }
    if matches!(op, BinOp::Or) {
        return Ok(
            match (x, y) {
                (Some(true), _) => Value::Bool(true),
                (_, Some(true)) => Value::Bool(true),
                (Some(false), Some(false)) => Value::Bool(false),
                _ => Value::Null,
            },
        );
    }
    if a.is_null() || b.is_null() {
        return Ok(Value::Null);
    }
    let s = value::compare(&a, &b);
    match op {
        BinOp::Add => arith(ArithOp::Add, a, b, reals),
        BinOp::Sub => arith(ArithOp::Sub, a, b, reals),
        BinOp::Mul => arith(ArithOp::Mul, a, b, reals),
        BinOp::Div => arith(ArithOp::Div, a, b, reals),
        BinOp::Mod => arith(ArithOp::Mod, a, b, reals),
        BinOp::Eq => Ok(Value::Bool(matches!(s, Side::Same))),
        BinOp::NotEq => Ok(Value::Bool(!matches!(s, Side::Same))),
        BinOp::Lt => Ok(Value::Bool(matches!(s, Side::Below))),
        BinOp::LtEq => Ok(Value::Bool(!matches!(s, Side::Above))),
        BinOp::Gt => Ok(Value::Bool(matches!(s, Side::Above))),
        _ => Ok(Value::Bool(!matches!(s, Side::Below))),
    }
}

fn pop(s: &mut Vec<Value>) -> (v: Value)
    ensures
        v == top(old(s)@),
        final(s)@ == below(old(s)@),
{
    match s.pop() {
        Some(v) => v,
        None => Value::Null,
    }
}

fn apply_between(v: Value, lo: Value, hi: Value) -> (r: Value)
    ensures
        r == between_of(v, lo, hi),
{
    if v.is_null() || lo.is_null() || hi.is_null() {
        Value::Null
    } else {
        Value::Bool(
            !matches!(value::compare(&v, &lo), Side::Below) && !matches!(value::compare(&v, &hi), Side::Above),
        )
    }
}

/// Take `n` values and the probe off the stack and tell membership.
fn apply_in_list(s: &mut Vec<Value>, n: usize) -> (r: Value)
    ensures
        final(s)@ == below(left(old(s)@, n as nat)),
        r == member_of(taken(old(s)@, n as nat), top(left(old(s)@, n as nat))),
{
    let ghost was = s@;
    let mut items: Vec<Value> = Vec::new();
    let mut k: usize = 0;
    assert(Seq::<Value>::empty() + taken(was, n as nat) =~= taken(was, n as nat));
    while k < n
        invariant
            k <= n,
            taken(was, n as nat) == items@ + taken(s@, (n - k) as nat),
            left(was, n as nat) == left(s@, (n - k) as nat),
        decreases n - k,
    {
        let ghost t = s@;
        let v = pop(s);
        let ghost was_items = items@;
        items.push(v);
        assert(was_items + (seq![v] + taken(s@, (n - k - 1) as nat)) =~= items@ + taken(s@, (n - k - 1) as nat));
        k += 1;
    }
    assert(items@ + Seq::<Value>::empty() =~= items@);
    let probe = pop(s);
    if probe.is_null() {
        return Value::Null;
    }
    let mut saw_null = false;
    let mut i: usize = 0;
    while i < items.len()
        invariant
            i <= items.len(),
            forall|j: int| 0 <= j < i ==> (items@[j] is Null || value::value_side(probe, #[trigger] items@[j]) != Side::Same),
            saw_null ==> holds_null(items@),
            !saw_null ==> forall|j: int| 0 <= j < i ==> !(#[trigger] items@[j] is Null),
            was == old(s)@,
            s@ == below(left(was, n as nat)),
            probe == top(left(was, n as nat)),
            !(probe is Null),
            items@ == taken(was, n as nat),
        decreases items.len() - i,
    {
        let v = items[i];
        assert(v == items@[i as int]);
        if v.is_null() {
            saw_null = true;
        } else if matches!(value::compare(&probe, &v), Side::Same) {
            assert(holds_level(items@, probe));
            return Value::Bool(true);
        }
        i += 1;
    }
    assert(!holds_level(items@, probe));
    if saw_null {
        Value::Null
    } else {
        Value::Bool(false)
    }
}

/// Evaluate a compiled program against a row of input values, with what is known
/// about reals.
pub fn eval_reals(program: &Program, row: &[Value], reals: &Reals) -> (r: Result<Value, RealNeed>)
    ensures
        told(r) == outcome(program@, row@, reals@),
{
    let mut stack: Vec<Value> = Vec::new();
    let ghost p = program@;
    let mut i: usize = 0;
    assert(stack@ =~= Seq::empty());
    while i < program.ops.len()
        invariant
            i <= program.ops.len(),
            p == program.ops@,
            p == program@,
            run(p.take(i as int), Seq::empty(), row@, reals@) == Ok::<Seq<Value>, numeric::Need>(stack@),
        decreases program.ops.len() - i,
    {
        proof {
            assert(p.take(i + 1).drop_last() =~= p.take(i as int));
            assert(p.take(i + 1).last() == p[i as int]);
        }
        let op = program.ops[i];
        match op {
            Op::PushConst(v) => stack.push(v),
            Op::PushColumn(c) => {
                let v = if c < row.len() {
                    row[c]
                } else {
                    Value::Null
                };
                stack.push(v);
            },
            Op::Unary(f) => {
                let v = pop(&mut stack);
                stack.push(apply_unary(f, v));
            },
            Op::Binary(f) => {
                let b = pop(&mut stack);
                let a = pop(&mut stack);
                match apply_binary(f, a, b, reals) {
                    Ok(v) => stack.push(v),
                    Err(e) => {
                        proof {
                            lemma_run_stops(p, Seq::empty(), row@, reals@, i + 1);
                        }
                        return Err(e);
                    },
                }
            },
            Op::IsNull(neg) => {
                let v = pop(&mut stack);
                stack.push(Value::Bool(v.is_null() != neg));
            },
            Op::Between => {
                let hi = pop(&mut stack);
                let lo = pop(&mut stack);
                let v = pop(&mut stack);
                stack.push(apply_between(v, lo, hi));
            },
            Op::InList(n) => {
                let v = apply_in_list(&mut stack, n);
                stack.push(v);
            },
        }
        i += 1;
    }
    assert(p.take(p.len() as int) =~= p);
    Ok(pop(&mut stack))
}

proof fn lemma_run_stops(p: Seq<Op>, s: Seq<Value>, row: Seq<Value>, reals: numeric::RealFacts, n: int)
    requires
        0 <= n <= p.len(),
        run(p.take(n), s, row, reals) is Err,
    ensures
        run(p, s, row, reals) == run(p.take(n), s, row, reals),
    decreases p.len() - n,
{
    if n < p.len() {
        assert(p.take(n + 1).drop_last() =~= p.take(n));
        lemma_run_stops(p, s, row, reals, n + 1);
    } else {
        assert(p.take(n) =~= p);
    }
}

/// Evaluate a compiled program against a row of input values, where that takes no
/// arithmetic on reals.
pub fn eval(program: &Program, row: &[Value]) -> (r: Value)
    requires
        outcome(program@, row@, numeric::no_reals()) is Ok,
    ensures
        outcome(program@, row@, numeric::no_reals()) == Ok::<Value, numeric::Need>(r),
{
    let reals = Reals::new();
    match eval_reals(program, row, &reals) {
        Ok(v) => v,
        Err(_) => Value::Null,
    }
}

// Law

proof fn lemma_run_concat(p: Seq<Op>, q: Seq<Op>, s: Seq<Value>, row: Seq<Value>, reals: numeric::RealFacts)
    ensures
        run(p + q, s, row, reals) == (match run(p, s, row, reals) {
            Err(x) => Err(x),
            Ok(t) => run(q, t, row, reals),
        }),
    decreases q.len(),
{
    if q.len() == 0 {
        assert(p + q =~= p);
    } else {
        assert((p + q).drop_last() =~= p + q.drop_last());
        lemma_run_concat(p, q.drop_last(), s, row, reals);
    }
}

proof fn lemma_run_push(p: Seq<Op>, op: Op, s: Seq<Value>, row: Seq<Value>, reals: numeric::RealFacts)
    ensures
        run(p.push(op), s, row, reals) == (match run(p, s, row, reals) {
            Err(x) => Err(x),
            Ok(t) => step(op, t, row, reals),
        }),
{
    assert(p.push(op).drop_last() =~= p);
}

proof fn lemma_run_one(op: Op, s: Seq<Value>, row: Seq<Value>, reals: numeric::RealFacts)
    ensures
        run(seq![op], s, row, reals) == step(op, s, row, reals),
{
    lemma_run_push(Seq::empty(), op, s, row, reals);
    assert(Seq::<Op>::empty().push(op) =~= seq![op]);
}

/// What a stack holds after a list of values comes off it again.
proof fn lemma_taken(s: Seq<Value>, l: Seq<Value>)
    ensures
        left(s + l, l.len()) == s,
        taken(s + l, l.len()) == l.reverse(),
    decreases l.len(),
{
    if l.len() == 0 {
        assert(s + l =~= s);
        assert(l.reverse() =~= Seq::empty());
    } else {
        assert((s + l).drop_last() =~= s + l.drop_last());
        lemma_taken(s, l.drop_last());
        assert(seq![l.last()] + l.drop_last().reverse() =~= l.reverse());
    }
}

proof fn lemma_member_reverse(l: Seq<Value>, v: Value)
    ensures
        member_of(l.reverse(), v) == member_of(l, v),
{
    let r = l.reverse();
    if holds_level(l, v) {
        let i = choose|i: int| 0 <= i < l.len() && !(l[i] is Null) && value::value_side(v, #[trigger] l[i]) == Side::Same;
        assert(r[l.len() - 1 - i] == l[i]);
    }
    if holds_level(r, v) {
        let i = choose|i: int| 0 <= i < r.len() && !(r[i] is Null) && value::value_side(v, #[trigger] r[i]) == Side::Same;
        assert(l[l.len() - 1 - i] == r[i]);
    }
    if holds_null(l) {
        let i = choose|i: int| 0 <= i < l.len() && #[trigger] l[i] is Null;
        assert(r[l.len() - 1 - i] == l[i]);
    }
    if holds_null(r) {
        let i = choose|i: int| 0 <= i < r.len() && #[trigger] r[i] is Null;
        assert(l[l.len() - 1 - i] == r[i]);
    }
}

/// The values of a list, put on a stack.
pub open spec fn stacked(s: Seq<Value>, r: Result<Value, numeric::Need>) -> Result<Seq<Value>, numeric::Need> {
    match r {
        Err(x) => Err(x),
        Ok(v) => Ok(s.push(v)),
    }
}

/// A compiled program puts what its expression means on the stack, whatever is
/// there already. A list too long for the machine to count is left out.
#[verifier::spinoff_prover]
#[verifier::rlimit(100)]
pub proof fn lemma_compiled<N: NameTable>(
    e: sql::Node,
    names: N,
    s: Seq<Value>,
    row: Seq<Value>,
    reals: numeric::RealFacts,
)
    requires
        countable(e),
        compiled(e, names) is Ok,
    ensures
        run(compiled(e, names)->Ok_0, s, row, reals) == stacked(s, meaning(e, names, row, reals)),
    decreases e,
{
    let p = compiled(e, names)->Ok_0;
    match e {
        sql::Node::Unary(op, a) => {
            lemma_compiled(*a, names, s, row, reals);
            lemma_run_push(compiled(*a, names)->Ok_0, Op::Unary(op), s, row, reals);
            if meaning(*a, names, row, reals) is Ok {
                let v = meaning(*a, names, row, reals)->Ok_0;
                assert(s.push(v).drop_last() =~= s);
            }
        },
        sql::Node::Binary(op, a, b) => {
            let x = compiled(*a, names)->Ok_0;
            let y = compiled(*b, names)->Ok_0;
            lemma_compiled(*a, names, s, row, reals);
            lemma_run_push(x + y, Op::Binary(op), s, row, reals);
            lemma_run_concat(x, y, s, row, reals);
            if meaning(*a, names, row, reals) is Ok {
                let v = meaning(*a, names, row, reals)->Ok_0;
                lemma_compiled(*b, names, s.push(v), row, reals);
                if meaning(*b, names, row, reals) is Ok {
                    let w = meaning(*b, names, row, reals)->Ok_0;
                    assert(s.push(v).push(w).drop_last() =~= s.push(v));
                    assert(s.push(v).drop_last() =~= s);
                }
            }
        },
        sql::Node::IsNull(a, neg) => {
            lemma_compiled(*a, names, s, row, reals);
            lemma_run_push(compiled(*a, names)->Ok_0, Op::IsNull(neg), s, row, reals);
            if meaning(*a, names, row, reals) is Ok {
                let v = meaning(*a, names, row, reals)->Ok_0;
                assert(s.push(v).drop_last() =~= s);
            }
        },
        sql::Node::Between(a, b, c) => {
            let x = compiled(*a, names)->Ok_0;
            let y = compiled(*b, names)->Ok_0;
            let z = compiled(*c, names)->Ok_0;
            lemma_compiled(*a, names, s, row, reals);
            lemma_run_push(x + y + z, Op::Between, s, row, reals);
            lemma_run_concat(x + y, z, s, row, reals);
            lemma_run_concat(x, y, s, row, reals);
            if meaning(*a, names, row, reals) is Ok {
                let v = meaning(*a, names, row, reals)->Ok_0;
                lemma_compiled(*b, names, s.push(v), row, reals);
                if meaning(*b, names, row, reals) is Ok {
                    let lo = meaning(*b, names, row, reals)->Ok_0;
                    lemma_compiled(*c, names, s.push(v).push(lo), row, reals);
                    if meaning(*c, names, row, reals) is Ok {
                        let hi = meaning(*c, names, row, reals)->Ok_0;
                        assert(s.push(v).push(lo).push(hi).drop_last() =~= s.push(v).push(lo));
                        assert(s.push(v).push(lo).drop_last() =~= s.push(v));
                        assert(s.push(v).drop_last() =~= s);
                    }
                }
            }
        },
        sql::Node::InList(a, l) => {
            let x = compiled(*a, names)->Ok_0;
            let y = compiled_all(l, names)->Ok_0;
            lemma_compiled(*a, names, s, row, reals);
            lemma_run_push(x + y, Op::InList(l.len() as usize), s, row, reals);
            lemma_run_concat(x, y, s, row, reals);
            if meaning(*a, names, row, reals) is Ok {
                let v = meaning(*a, names, row, reals)->Ok_0;
                lemma_compiled_all(l, names, s.push(v), row, reals);
                if meanings(l, names, row, reals) is Ok {
                    let t = meanings(l, names, row, reals)->Ok_0;
                    lemma_taken(s.push(v), t);
                    lemma_member_reverse(t, v);
                    assert(s.push(v).drop_last() =~= s);
                }
            }
        },
        _ => {
            lemma_run_one(p[0], s, row, reals);
            assert(p =~= seq![p[0]]);
        },
    }
}

proof fn lemma_compiled_all<N: NameTable>(
    l: Seq<sql::Node>,
    names: N,
    s: Seq<Value>,
    row: Seq<Value>,
    reals: numeric::RealFacts,
)
    requires
        countable_all(l),
        compiled_all(l, names) is Ok,
    ensures
        run(compiled_all(l, names)->Ok_0, s, row, reals) == (match meanings(l, names, row, reals) {
            Err(x) => Err(x),
            Ok(t) => Ok(s + t),
        }),
        meanings(l, names, row, reals) is Ok ==> meanings(l, names, row, reals)->Ok_0.len() == l.len(),
    decreases l,
{
    if l.len() == 0 {
        assert(s + Seq::<Value>::empty() =~= s);
    } else {
        let d = l.drop_last();
        lemma_compiled_all(d, names, s, row, reals);
        let p = compiled_all(d, names)->Ok_0;
        let q = compiled(l.last(), names)->Ok_0;
        lemma_run_concat(p, q, s, row, reals);
        if meanings(d, names, row, reals) is Ok {
            let t = meanings(d, names, row, reals)->Ok_0;
            lemma_compiled(l.last(), names, s + t, row, reals);
            if meaning(l.last(), names, row, reals) is Ok {
                let v = meaning(l.last(), names, row, reals)->Ok_0;
                assert((s + t).push(v) =~= s + t.push(v));
            }
        }
    }
}

/// Whether a machine can count the lists of an expression.
pub open spec fn countable(e: sql::Node) -> bool
    decreases e,
{
    match e {
        sql::Node::Unary(_, a) => countable(*a),
        sql::Node::Binary(_, a, b) => countable(*a) && countable(*b),
        sql::Node::IsNull(a, _) => countable(*a),
        sql::Node::Between(a, b, c) => countable(*a) && countable(*b) && countable(*c),
        sql::Node::InList(a, l) => countable(*a) && countable_all(l) && l.len() <= usize::MAX,
        _ => true,
    }
}

pub open spec fn countable_all(l: Seq<sql::Node>) -> bool
    decreases l,
{
    l.len() == 0 || countable_all(l.drop_last()) && countable(l.last())
}

// What expressions mean, case by case

/// The truth tables. A condition is true where it is `true` or an integer other than
/// zero, and false where it is `false` or zero. A conjunction is false where a side
/// is, true where both are; a disjunction is true where a side is, false where both
/// are; and a negation turns the two round. Anything else is unknown.
pub proof fn lemma_connectives<N: NameTable>(
    a: sql::Node,
    b: sql::Node,
    names: N,
    row: Seq<Value>,
    reals: numeric::RealFacts,
)
    requires
        meaning(a, names, row, reals) is Ok,
        meaning(b, names, row, reals) is Ok,
    ensures
        ({
            let yes = |v: Value| v == Value::Bool(true) || v is Int && v != Value::Int(0);
            let no = |v: Value| v == Value::Bool(false) || v == Value::Int(0);
            let v = meaning(a, names, row, reals)->Ok_0;
            let w = meaning(b, names, row, reals)->Ok_0;
            let and = meaning(sql::Node::Binary(BinOp::And, Box::new(a), Box::new(b)), names, row, reals);
            let or = meaning(sql::Node::Binary(BinOp::Or, Box::new(a), Box::new(b)), names, row, reals);
            let not = meaning(sql::Node::Unary(UnaryOp::Not, Box::new(a)), names, row, reals);
            &&& and == Ok::<Value, numeric::Need>(Value::Bool(true)) <==> yes(v) && yes(w)
            &&& and == Ok::<Value, numeric::Need>(Value::Bool(false)) <==> no(v) || no(w)
            &&& !(yes(v) && yes(w)) && !no(v) && !no(w) ==> and == Ok::<Value, numeric::Need>(Value::Null)
            &&& or == Ok::<Value, numeric::Need>(Value::Bool(true)) <==> yes(v) || yes(w)
            &&& or == Ok::<Value, numeric::Need>(Value::Bool(false)) <==> no(v) && no(w)
            &&& !(no(v) && no(w)) && !yes(v) && !yes(w) ==> or == Ok::<Value, numeric::Need>(Value::Null)
            &&& not == Ok::<Value, numeric::Need>(Value::Bool(true)) <==> no(v)
            &&& not == Ok::<Value, numeric::Need>(Value::Bool(false)) <==> yes(v)
            &&& !no(v) && !yes(v) ==> not == Ok::<Value, numeric::Need>(Value::Null)
        }),
{
    let v = meaning(a, names, row, reals)->Ok_0;
    let w = meaning(b, names, row, reals)->Ok_0;
    assert(meaning(sql::Node::Binary(BinOp::And, Box::new(a), Box::new(b)), names, row, reals) == binary_of(
        BinOp::And,
        v,
        w,
        reals,
    ));
    assert(meaning(sql::Node::Binary(BinOp::Or, Box::new(a), Box::new(b)), names, row, reals) == binary_of(
        BinOp::Or,
        v,
        w,
        reals,
    ));
    assert(meaning(sql::Node::Unary(UnaryOp::Not, Box::new(a)), names, row, reals) == Ok::<Value, numeric::Need>(
        unary_of(UnaryOp::Not, v),
    ));
}

/// De Morgan: a negated disjunction means the conjunction of the negations, and a
/// negated conjunction the disjunction.
pub proof fn lemma_de_morgan<N: NameTable>(
    a: sql::Node,
    b: sql::Node,
    names: N,
    row: Seq<Value>,
    reals: numeric::RealFacts,
)
    ensures
        meaning(
            sql::Node::Unary(UnaryOp::Not, Box::new(sql::Node::Binary(BinOp::Or, Box::new(a), Box::new(b)))),
            names,
            row,
            reals,
        ) == meaning(
            sql::Node::Binary(
                BinOp::And,
                Box::new(sql::Node::Unary(UnaryOp::Not, Box::new(a))),
                Box::new(sql::Node::Unary(UnaryOp::Not, Box::new(b))),
            ),
            names,
            row,
            reals,
        ),
        meaning(
            sql::Node::Unary(UnaryOp::Not, Box::new(sql::Node::Binary(BinOp::And, Box::new(a), Box::new(b)))),
            names,
            row,
            reals,
        ) == meaning(
            sql::Node::Binary(
                BinOp::Or,
                Box::new(sql::Node::Unary(UnaryOp::Not, Box::new(a))),
                Box::new(sql::Node::Unary(UnaryOp::Not, Box::new(b))),
            ),
            names,
            row,
            reals,
        ),
{
    reveal_with_fuel(meaning, 3);
}

/// Comparisons: a null on either side makes them unknown. Otherwise each is what the
/// comparison of the two values says, and on integers that of integers.
pub proof fn lemma_compared<N: NameTable>(
    a: sql::Node,
    b: sql::Node,
    names: N,
    row: Seq<Value>,
    reals: numeric::RealFacts,
)
    requires
        meaning(a, names, row, reals) is Ok,
        meaning(b, names, row, reals) is Ok,
    ensures
        ({
            let v = meaning(a, names, row, reals)->Ok_0;
            let w = meaning(b, names, row, reals)->Ok_0;
            let told = |op: BinOp| meaning(sql::Node::Binary(op, Box::new(a), Box::new(b)), names, row, reals);
            let is = |t: bool| Ok::<Value, numeric::Need>(Value::Bool(t));
            &&& v is Null || w is Null ==> {
                &&& told(BinOp::Eq) == Ok::<Value, numeric::Need>(Value::Null)
                &&& told(BinOp::NotEq) == Ok::<Value, numeric::Need>(Value::Null)
                &&& told(BinOp::Lt) == Ok::<Value, numeric::Need>(Value::Null)
                &&& told(BinOp::LtEq) == Ok::<Value, numeric::Need>(Value::Null)
                &&& told(BinOp::Gt) == Ok::<Value, numeric::Need>(Value::Null)
                &&& told(BinOp::GtEq) == Ok::<Value, numeric::Need>(Value::Null)
            }
            &&& !(v is Null) && !(w is Null) ==> {
                &&& told(BinOp::Eq) == is(value::holds(CmpOp::Eq, v, w))
                &&& told(BinOp::NotEq) == is(!value::holds(CmpOp::Eq, v, w))
                &&& told(BinOp::Lt) == is(value::holds(CmpOp::Lt, v, w))
                &&& told(BinOp::LtEq) == is(!value::holds(CmpOp::Lt, w, v))
                &&& told(BinOp::Gt) == is(value::holds(CmpOp::Lt, w, v))
                &&& told(BinOp::GtEq) == is(!value::holds(CmpOp::Lt, v, w))
            }
            &&& v matches Value::Int(i) ==> w matches Value::Int(j) ==> {
                &&& told(BinOp::Eq) == is(i == j)
                &&& told(BinOp::NotEq) == is(i != j)
                &&& told(BinOp::Lt) == is(i < j)
                &&& told(BinOp::LtEq) == is(i <= j)
                &&& told(BinOp::Gt) == is(i > j)
                &&& told(BinOp::GtEq) == is(i >= j)
            }
        }),
{
    let v = meaning(a, names, row, reals)->Ok_0;
    let w = meaning(b, names, row, reals)->Ok_0;
    let told = |op: BinOp| meaning(sql::Node::Binary(op, Box::new(a), Box::new(b)), names, row, reals);
    assert forall|op: BinOp| #[trigger] told(op) == binary_of(op, v, w, reals) by {
        assert(meaning(sql::Node::Binary(op, Box::new(a), Box::new(b)), names, row, reals) == binary_of(op, v, w, reals));
    }
    value::lemma_value_order(v, w, v);
    if let (Value::Int(i), Value::Int(j)) = (v, w) {
        value::lemma_int_side(i, j);
    }
}

/// Arithmetic: what fits is the sum, difference or product of two integers; a
/// quotient and a remainder put their dividend together again, the remainder short
/// of the divisor and on the dividend's side of zero; by zero there is neither. A
/// null on either side makes a null.
pub proof fn lemma_computed<N: NameTable>(
    a: sql::Node,
    b: sql::Node,
    names: N,
    row: Seq<Value>,
    reals: numeric::RealFacts,
)
    requires
        meaning(a, names, row, reals) is Ok,
        meaning(b, names, row, reals) is Ok,
    ensures
        ({
            let v = meaning(a, names, row, reals)->Ok_0;
            let w = meaning(b, names, row, reals)->Ok_0;
            let told = |op: BinOp| meaning(sql::Node::Binary(op, Box::new(a), Box::new(b)), names, row, reals);
            let is = |x: i64| Ok::<Value, numeric::Need>(Value::Int(x));
            let null = Ok::<Value, numeric::Need>(Value::Null);
            &&& v is Null || w is Null ==> told(BinOp::Add) == null && told(BinOp::Sub) == null && told(BinOp::Mul) == null
                && told(BinOp::Div) == null && told(BinOp::Mod) == null
            &&& v matches Value::Int(i) ==> w matches Value::Int(j) ==> {
                &&& i64::MIN <= i + j <= i64::MAX ==> told(BinOp::Add) == is((i + j) as i64)
                &&& i64::MIN <= i - j <= i64::MAX ==> told(BinOp::Sub) == is((i - j) as i64)
                &&& i64::MIN <= i * j <= i64::MAX ==> told(BinOp::Mul) == is((i * j) as i64)
                &&& j == 0 ==> told(BinOp::Div) == null && told(BinOp::Mod) == null
                &&& j != 0 && !(i == i64::MIN && j == -1) ==> {
                    &&& told(BinOp::Div) matches Ok(Value::Int(q)) && told(BinOp::Mod) matches Ok(Value::Int(r)) && {
                        &&& i == q * j + r
                        &&& -(if j < 0 { -j } else { j as int }) < r < (if j < 0 { -j } else { j as int })
                        &&& (i >= 0 ==> r >= 0) && (i <= 0 ==> r <= 0)
                    }
                }
            }
        }),
{
    let v = meaning(a, names, row, reals)->Ok_0;
    let w = meaning(b, names, row, reals)->Ok_0;
    let told = |op: BinOp| meaning(sql::Node::Binary(op, Box::new(a), Box::new(b)), names, row, reals);
    assert forall|op: BinOp| #[trigger] told(op) == binary_of(op, v, w, reals) by {
        assert(meaning(sql::Node::Binary(op, Box::new(a), Box::new(b)), names, row, reals) == binary_of(op, v, w, reals));
    }
    if let (Value::Int(i), Value::Int(j)) = (v, w) {
        numeric::lemma_int_result(i, j);
    }
}

/// Ranges, null tests, lists and columns in terms of other expressions. A range test
/// means both comparisons with its ends; a list test is true where the probe equals
/// an item, unknown where it equals none and it or an item is null, and false
/// otherwise; a null test tells null from the rest; a column is the row's value at
/// the place that the names give it.
pub proof fn lemma_tests<N: NameTable>(
    a: sql::Node,
    lo: sql::Node,
    hi: sql::Node,
    items: Seq<sql::Node>,
    name: Seq<char>,
    names: N,
    row: Seq<Value>,
    reals: numeric::RealFacts,
)
    requires
        meaning(a, names, row, reals) is Ok,
        meaning(lo, names, row, reals) is Ok,
        meaning(hi, names, row, reals) is Ok,
        meanings(items, names, row, reals) is Ok,
    ensures
        ({
            let v = meaning(a, names, row, reals)->Ok_0;
            let l = meaning(lo, names, row, reals)->Ok_0;
            let h = meaning(hi, names, row, reals)->Ok_0;
            let s = meanings(items, names, row, reals)->Ok_0;
            let between = meaning(
                sql::Node::Between(Box::new(a), Box::new(lo), Box::new(hi)),
                names,
                row,
                reals,
            );
            let within = meaning(sql::Node::InList(Box::new(a), items), names, row, reals);
            let null = Ok::<Value, numeric::Need>(Value::Null);
            let yes = Ok::<Value, numeric::Need>(Value::Bool(true));
            let no = Ok::<Value, numeric::Need>(Value::Bool(false));
            &&& between == null <==> v is Null || l is Null || h is Null
            &&& between == yes <==> value::holds(CmpOp::Ge, v, l) && value::holds(CmpOp::Le, v, h)
            &&& between == yes || between == no || between == null
            &&& s.len() == items.len()
            &&& within == yes <==> exists|k: int| 0 <= k < s.len() && value::holds(CmpOp::Eq, v, #[trigger] s[k])
            &&& within == null <==> within != yes && (v is Null || exists|k: int| 0 <= k < s.len() && #[trigger] s[k] is Null)
            &&& within == yes || within == no || within == null
            &&& meaning(sql::Node::IsNull(Box::new(a), false), names, row, reals) == if v is Null { yes } else { no }
            &&& meaning(sql::Node::IsNull(Box::new(a), true), names, row, reals) == if v is Null { no } else { yes }
            &&& names.place(name) matches Some(k) ==> k < row.len() ==> meaning(
                sql::Node::Column(name),
                names,
                row,
                reals,
            ) == Ok::<Value, numeric::Need>(row[k as int])
        }),
{
    let v = meaning(a, names, row, reals)->Ok_0;
    let s = meanings(items, names, row, reals)->Ok_0;
    lemma_meanings_len(items, names, row, reals);
    assert(meaning(sql::Node::InList(Box::new(a), items), names, row, reals) == Ok::<Value, numeric::Need>(member_of(s, v)));
    if holds_level(s, v) && !(v is Null) {
        let k = choose|i: int| 0 <= i < s.len() && !(s[i] is Null) && value::value_side(v, #[trigger] s[i]) == Side::Same;
        assert(value::holds(CmpOp::Eq, v, s[k]));
    }
    if exists|k: int| 0 <= k < s.len() && value::holds(CmpOp::Eq, v, #[trigger] s[k]) {
        let k = choose|k: int| 0 <= k < s.len() && value::holds(CmpOp::Eq, v, #[trigger] s[k]);
        assert(value::value_side(v, s[k]) == Side::Same);
    }
}

proof fn lemma_meanings_len<N: NameTable>(l: Seq<sql::Node>, names: N, row: Seq<Value>, reals: numeric::RealFacts)
    requires
        meanings(l, names, row, reals) is Ok,
    ensures
        meanings(l, names, row, reals)->Ok_0.len() == l.len(),
    decreases l.len(),
{
    if l.len() > 0 {
        lemma_meanings_len(l.drop_last(), names, row, reals);
    }
}

/// Negation: of an integer that has one, its negative, and twice of a real the real.
pub proof fn lemma_negated<N: NameTable>(a: sql::Node, names: N, row: Seq<Value>, reals: numeric::RealFacts)
    requires
        meaning(a, names, row, reals) is Ok,
    ensures
        ({
            let v = meaning(a, names, row, reals)->Ok_0;
            let n = sql::Node::Unary(UnaryOp::Neg, Box::new(a));
            let neg = meaning(n, names, row, reals);
            let twice = meaning(sql::Node::Unary(UnaryOp::Neg, Box::new(n)), names, row, reals);
            &&& v matches Value::Int(i) ==> i != i64::MIN ==> neg == Ok::<Value, numeric::Need>(Value::Int((-i) as i64))
            &&& v is Int || v is Real ==> twice == Ok::<Value, numeric::Need>(v)
            &&& v matches Value::Real(x) ==> neg matches Ok(Value::Real(y)) && (x < 0x8000_0000_0000_0000) != (y
                < 0x8000_0000_0000_0000)
            &&& !(v is Int) && !(v is Real) ==> neg == Ok::<Value, numeric::Need>(Value::Null)
        }),
{
    reveal_with_fuel(meaning, 3);
}

} // verus!
