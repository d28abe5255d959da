//! Expression evaluation.
//!
//! The query and script layers share a small expression language for
//! predicates and computed projections. An expression is parsed from tokens
//! into an [`Expr`] tree and evaluated against a row of [`Value`]s bound to
//! column positions. The evaluator supports arithmetic, comparisons, logical
//! operators, `CASE`-style conditionals, and a handful of scalar functions.
//!
//! ## Grammar
//!
//! ```text
//!   expr   := or
//!   or     := and ( "OR" and )*
//!   and    := not ( "AND" not )*
//!   not    := "NOT" not | cmp
//!   cmp    := add ( (=|!=|<|<=|>|>=) add )?
//!   add    := mul ( (+|-) mul )*
//!   mul    := unary ( (*|/|%) unary )*
//!   unary  := (-|+) unary | atom
//!   atom   := number | "true" | "false" | "null"
//!           | ident ( "(" arglist ")" )?          // function call or column
//!           | "(" expr ")"
//! ```
//!
//! Arithmetic on reals, and the value of a real literal, come from a
//! [`Reals`] table; an evaluation that lacks an entry says which one it needs.
use vstd::prelude::*;

use crate::numeric;
use crate::numeric::{RealNeed, Reals};
use crate::text;
use crate::value;
use crate::value::{CmpOp, Side, Value};

pub use crate::numeric::ArithOp;

verus! {

/// An expression node.
#[derive(Debug, PartialEq)]
pub enum Expr {
    /// A literal value.
    Lit(Value),
    /// A real literal, as it is written.
    RealLit(String),
    /// A column reference by index.
    Col(usize),
    /// A column reference by name (resolved at evaluation time against a name
    /// table supplied by the caller).
    ColName(String),
    /// Arithmetic: `op(lhs, rhs)`.
    BinArith { op: ArithOp, lhs: Box<Expr>, rhs: Box<Expr> },
    /// Comparison: `op(lhs, rhs) -> bool`.
    BinCmp { op: CmpOp, lhs: Box<Expr>, rhs: Box<Expr> },
    /// Logical AND / OR.
    BinLogic { op: LogicOp, lhs: Box<Expr>, rhs: Box<Expr> },
    /// Logical NOT.
    Not(Box<Expr>),
    /// Unary minus.
    Neg(Box<Expr>),
    /// `CASE WHEN cond THEN yes ELSE els END`.
    Case { cond: Box<Expr>, yes: Box<Expr>, els: Box<Expr> },
    /// `COALESCE(a, b, ...)`.
    Coalesce(Vec<Expr>),
    /// A scalar function call.
    Func { name: String, args: Vec<Expr> },
}

#[derive(Debug, Clone, Copy, PartialEq, Eq, Structural)]
pub enum LogicOp {
    And,
    Or,
}

/// A scalar function.
#[derive(Debug, Clone, Copy, PartialEq, Eq, Structural)]
pub enum Func {
    Abs,
    Min,
    Max,
    Length,
    Upper,
    Lower,
    IsNull,
    IsNotNull,
    IfNull,
    Cast,
    Coalesce,
}

/// An expression with its names as characters.
pub enum Tree {
    Lit(Value),
    RealLit(Seq<char>),
    Col(usize),
    ColName(Seq<char>),
    BinArith(ArithOp, Box<Tree>, Box<Tree>),
    BinCmp(CmpOp, Box<Tree>, Box<Tree>),
    BinLogic(LogicOp, Box<Tree>, Box<Tree>),
    Not(Box<Tree>),
    Neg(Box<Tree>),
    Case(Box<Tree>, Box<Tree>, Box<Tree>),
    Coalesce(Seq<Tree>),
    Func(Seq<char>, Seq<Tree>),
}

pub open spec fn tree(e: Expr) -> Tree
    decreases e,
{
    match e {
        Expr::Lit(v) => Tree::Lit(v),
        Expr::RealLit(t) => Tree::RealLit(t@),
        Expr::Col(i) => Tree::Col(i),
        Expr::ColName(n) => Tree::ColName(n@),
        Expr::BinArith { op, lhs, rhs } => Tree::BinArith(op, Box::new(tree(*lhs)), Box::new(tree(*rhs))),
        Expr::BinCmp { op, lhs, rhs } => Tree::BinCmp(op, Box::new(tree(*lhs)), Box::new(tree(*rhs))),
        Expr::BinLogic { op, lhs, rhs } => Tree::BinLogic(op, Box::new(tree(*lhs)), Box::new(tree(*rhs))),
        Expr::Not(e) => Tree::Not(Box::new(tree(*e))),
        Expr::Neg(e) => Tree::Neg(Box::new(tree(*e))),
        Expr::Case { cond, yes, els } => Tree::Case(
            Box::new(tree(*cond)),
            Box::new(tree(*yes)),
            Box::new(tree(*els)),
        ),
        Expr::Coalesce(v) => Tree::Coalesce(trees(v@)),
        Expr::Func { name, args } => Tree::Func(name@, trees(args@)),
    }
}

pub open spec fn trees(v: Seq<Expr>) -> Seq<Tree>
    decreases v,
{
    if v.len() == 0 {
        Seq::empty()
    } else {
        trees(v.drop_last()).push(tree(v.last()))
    }
}

proof fn lemma_trees(v: Seq<Expr>)
    ensures
        trees(v).len() == v.len(),
        forall|i: int| 0 <= i < v.len() ==> #[trigger] trees(v)[i] == tree(v[i]),
    decreases v,
{
    if v.len() > 0 {
        lemma_trees(v.drop_last());
    }
}

/// The function that a name, in any case, stands for.
pub open spec fn func_named(s: Seq<char>) -> Option<Func> {
    let l = text::lowered(s);
    if l == "abs"@ {
        Some(Func::Abs)
    } else if l == "min"@ {
        Some(Func::Min)
    } else if l == "max"@ {
        Some(Func::Max)
    } else if l == "length"@ {
        Some(Func::Length)
    } else if l == "upper"@ {
        Some(Func::Upper)
    } else if l == "lower"@ {
        Some(Func::Lower)
    } else if l == "isnull"@ {
        Some(Func::IsNull)
    } else if l == "isnotnull"@ {
        Some(Func::IsNotNull)
    } else if l == "ifnull"@ {
        Some(Func::IfNull)
    } else if l == "cast"@ {
        Some(Func::Cast)
    } else if l == "coalesce"@ {
        Some(Func::Coalesce)
    } else {
        None
    }
}

/// A function's name.
pub open spec fn func_name(f: Func) -> Seq<char> {
    match f {
        Func::Abs => "abs"@,
        Func::Min => "min"@,
        Func::Max => "max"@,
        Func::Length => "length"@,
        Func::Upper => "upper"@,
        Func::Lower => "lower"@,
        Func::IsNull => "isnull"@,
        Func::IsNotNull => "isnotnull"@,
        Func::IfNull => "ifnull"@,
        Func::Cast => "cast"@,
        Func::Coalesce => "coalesce"@,
    }
}

impl Func {
    pub fn from_name(name: &str) -> (r: Option<Func>)
        ensures
            r == func_named(name@),
    {
        if text::is_lowered(name, "abs") {
            Some(Func::Abs)
        } else if text::is_lowered(name, "min") {
            Some(Func::Min)
        } else if text::is_lowered(name, "max") {
            Some(Func::Max)
        } else if text::is_lowered(name, "length") {
            Some(Func::Length)
        } else if text::is_lowered(name, "upper") {
            Some(Func::Upper)
        } else if text::is_lowered(name, "lower") {
            Some(Func::Lower)
        } else if text::is_lowered(name, "isnull") {
            Some(Func::IsNull)
        } else if text::is_lowered(name, "isnotnull") {
            Some(Func::IsNotNull)
        } else if text::is_lowered(name, "ifnull") {
            Some(Func::IfNull)
        } else if text::is_lowered(name, "cast") {
            Some(Func::Cast)
        } else if text::is_lowered(name, "coalesce") {
            Some(Func::Coalesce)
        } else {
            None
        }
    }

    fn name(self) -> (r: &'static str)
        ensures
            r@ == func_name(self),
    {
        match self {
            Func::Abs => "abs",
            Func::Min => "min",
            Func::Max => "max",
            Func::Length => "length",
            Func::Upper => "upper",
            Func::Lower => "lower",
            Func::IsNull => "isnull",
            Func::IsNotNull => "isnotnull",
            Func::IfNull => "ifnull",
            Func::Cast => "cast",
            Func::Coalesce => "coalesce",
        }
    }
}

/// The result of evaluating an expression.
#[derive(Debug, Clone, PartialEq)]
pub enum EvalError {
    /// A column name could not be resolved.
    UnknownColumn(String),
    /// A function was called with the wrong arity.
    Arity { func: String, got: usize },
    /// An unknown function.
    UnknownFunction(String),
    /// A type error.
    Type(String),
    /// Division by zero.
    DivByZero,
    /// A fact about reals that the table does not hold.
    Pending(RealNeed),
}

/// An [`EvalError`] with its texts as characters.
pub enum EvalFault {
    UnknownColumn(Seq<char>),
    Arity(Seq<char>, usize),
    UnknownFunction(Seq<char>),
    Type(Seq<char>),
    DivByZero,
    Pending(numeric::Need),
}

impl View for EvalError {
    type V = EvalFault;

    open spec fn view(&self) -> EvalFault {
        match self {
            EvalError::UnknownColumn(n) => EvalFault::UnknownColumn(n@),
            EvalError::Arity { func, got } => EvalFault::Arity(func@, *got),
            EvalError::UnknownFunction(n) => EvalFault::UnknownFunction(n@),
            EvalError::Type(t) => EvalFault::Type(t@),
            EvalError::DivByZero => EvalFault::DivByZero,
            EvalError::Pending(n) => EvalFault::Pending(n@),
        }
    }
}

/// A name table mapping column names to positions, used to resolve `ColName`.
pub trait NameTable {
    /// The position of a name.
    spec fn place(&self, name: Seq<char>) -> Option<usize>;

    fn resolve(&self, name: &str) -> (r: Option<usize>)
        ensures
            r == self.place(name@),
    ;
}

/// An empty name table (for expressions that use only positional columns).
pub struct NoNames;

impl NameTable for NoNames {
    open spec fn place(&self, name: Seq<char>) -> Option<usize> {
        None
    }

    fn resolve(&self, _name: &str) -> (r: Option<usize>) {
        None
    }
}

/// A name table that is filled name by name; a later position stands before an
/// earlier one.
#[derive(Debug, Clone)]
pub struct NameMap {
    entries: Vec<(String, usize)>,
}

/// The positions of a list of names; a later one stands before an earlier one.
pub open spec fn positions(v: Seq<(String, usize)>) -> Map<Seq<char>, usize>
    decreases v.len(),
{
    if v.len() == 0 {
        Map::empty()
    } else {
        positions(v.drop_last()).insert(v.last().0@, v.last().1)
    }
}

impl View for NameMap {
    type V = Map<Seq<char>, usize>;

    closed spec fn view(&self) -> Map<Seq<char>, usize> {
        positions(self.entries@)
    }
}

impl NameMap {
    /// An empty table.
    pub fn new() -> (r: NameMap)
        ensures
            r@ == Map::<Seq<char>, usize>::empty(),
    {
        NameMap { entries: Vec::new() }
    }

    /// Give a name its position.
    pub fn insert(&mut self, name: &str, place: usize)
        ensures
            final(self)@ == old(self)@.insert(name@, place),
    {
        let c = text::chars_of(name);
        let ghost was = self.entries@;
        self.entries.push((text::string_of(&c), place));
        assert(self.entries@.drop_last() =~= was);
    }
}

impl NameTable for NameMap {
    open spec fn place(&self, name: Seq<char>) -> Option<usize> {
        if self@.contains_key(name) {
            Some(self@[name])
        } else {
            None
        }
    }

    fn resolve(&self, name: &str) -> (r: Option<usize>) {
        let mut i: usize = self.entries.len();
        assert(self.entries@.take(i as int) =~= self.entries@);
        while i > 0
            invariant
                i <= self.entries@.len(),
                positions(self.entries@).contains_key(name@) == positions(self.entries@.take(i as int)).contains_key(
                    name@,
                ),
                positions(self.entries@).contains_key(name@) ==> positions(self.entries@)[name@] == positions(
                    self.entries@.take(i as int),
                )[name@],
            decreases i,
        {
            i -= 1;
            assert(self.entries@.take(i + 1).drop_last() =~= self.entries@.take(i as int));
            if text::same_text(self.entries[i].0.as_str(), name) {
                return Some(self.entries[i].1);
            }
        }
        None
    }
}

/// What a result stands for.
pub open spec fn told(r: Result<Value, EvalError>) -> Result<Value, EvalFault> {
    match r {
        Ok(v) => Ok(v),
        Err(e) => Err(e@),
    }
}

/// Whether a value counts as true.
pub open spec fn is_truthy(v: Value) -> bool {
    match v {
        Value::Null => false,
        Value::Bool(b) => b,
        Value::Int(i) => i != 0,
        Value::Real(b) => !numeric::real_zero(b),
        Value::Text(id) => id != 0,
    }
}

/// The result of an operation on two values. A null makes it null; a real makes
/// it real.
pub open spec fn arith_of(op: ArithOp, l: Value, r: Value, reals: numeric::RealFacts) -> Result<Value, EvalFault> {
    let divides = op == ArithOp::Div || op == ArithOp::Mod;
    if l is Null || r is Null {
        Ok(Value::Null)
    } else if l is Real || r is Real {
        match (l.spec_as_real(), r.spec_as_real()) {
            (Some(a), Some(b)) => if divides && numeric::real_zero(b) {
                Err(EvalFault::DivByZero)
            } else {
                match numeric::first(reals.results, (op, a, b)) {
                    Some(x) => Ok(Value::Real(x)),
                    None => Err(EvalFault::Pending(numeric::Need::Arith(op, a, b))),
                }
            },
            _ => Err(EvalFault::Type("arith on non-number"@)),
        }
    } else {
        match (l.spec_as_int(), r.spec_as_int()) {
            (Some(a), Some(b)) => if divides && b == 0 {
                Err(EvalFault::DivByZero)
            } else {
                Ok(Value::Int(numeric::int_result(op, a, b)))
            },
            _ => Err(EvalFault::Type("arith on non-number"@)),
        }
    }
}

/// The first of the smallest values, or of the greatest.
pub open spec fn best(s: Seq<Value>, least: bool) -> Value
    decreases s.len(),
{
    if s.len() <= 1 {
        s[0]
    } else {
        let b = best(s.drop_last(), least);
        if value::value_side(s.last(), b) == (if least {
            Side::Below
        } else {
            Side::Above
        }) {
            s.last()
        } else {
            b
        }
    }
}

/// The first value that is not null.
pub open spec fn first_set(s: Seq<Value>) -> Value
    decreases s.len(),
{
    if s.len() == 0 {
        Value::Null
    } else if s[0] is Null {
        first_set(s.skip(1))
    } else {
        s[0]
    }
}

/// Whether a function takes that many arguments.
pub open spec fn takes(f: Func, n: nat) -> bool {
    match f {
        Func::Min | Func::Max => n >= 2,
        Func::IfNull | Func::Cast => n == 2,
        Func::Coalesce => n >= 1,
        _ => n == 1,
    }
}

/// The result of a function. Without a dictionary, the case functions give a text
/// back as it is and its length is its id; a cast gives its first argument.
pub open spec fn call_of(f: Func, a: Seq<Value>) -> Result<Value, EvalFault> {
    if !takes(f, a.len()) {
        Err(EvalFault::Arity(func_name(f), a.len() as usize))
    } else {
        match f {
            Func::Abs => match a[0] {
                Value::Int(i) => Ok(
                    Value::Int(
                        if i < 0 {
                            numeric::int_negated(i)
                        } else {
                            i
                        },
                    ),
                ),
                Value::Real(b) => Ok(
                    Value::Real(
                        if b >= 0x8000_0000_0000_0000 {
                            numeric::real_negated(b)
                        } else {
                            b
                        },
                    ),
                ),
                Value::Null => Ok(Value::Null),
                _ => Err(EvalFault::Type("abs of non-number"@)),
            },
            Func::Min => Ok(best(a, true)),
            Func::Max => Ok(best(a, false)),
            Func::Length => match a[0] {
                Value::Text(id) => Ok(Value::Int(id as i64)),
                Value::Null => Ok(Value::Null),
                _ => Err(EvalFault::Type("length of non-text"@)),
            },
            Func::Upper | Func::Lower | Func::Cast => Ok(a[0]),
            Func::IsNull => Ok(Value::Bool(a[0] is Null)),
            Func::IsNotNull => Ok(Value::Bool(!(a[0] is Null))),
            Func::IfNull => Ok(
                if a[0] is Null {
                    a[1]
                } else {
                    a[0]
                },
            ),
            Func::Coalesce => Ok(first_set(a)),
        }
    }
}

/// The text of a column's place.
pub open spec fn place_text(i: usize) -> Seq<char> {
    seq!['#'] + text::digits(i as nat)
}

/// What an expression gives for a row.
pub open spec fn eval_of<N: NameTable>(e: Tree, row: Seq<Value>, names: N, reals: numeric::RealFacts) -> Result<
    Value,
    EvalFault,
>
    decreases e,
{
    match e {
        Tree::Lit(v) => Ok(v),
        Tree::RealLit(t) => match numeric::first(reals.texts, t) {
            Some(b) => Ok(Value::Real(b)),
            None => Err(EvalFault::Pending(numeric::Need::Text(t))),
        },
        Tree::Col(i) => if i < row.len() {
            Ok(row[i as int])
        } else {
            Err(EvalFault::UnknownColumn(place_text(i)))
        },
        Tree::ColName(n) => match names.place(n) {
            Some(i) => if i < row.len() {
                Ok(row[i as int])
            } else {
                Err(EvalFault::UnknownColumn(n))
            },
            None => Err(EvalFault::UnknownColumn(n)),
        },
        Tree::BinArith(op, l, r) => match eval_of(*l, row, names, reals) {
            Err(x) => Err(x),
            Ok(a) => match eval_of(*r, row, names, reals) {
                Err(x) => Err(x),
                Ok(b) => arith_of(op, a, b, reals),
            },
        },
        Tree::BinCmp(op, l, r) => match eval_of(*l, row, names, reals) {
            Err(x) => Err(x),
            Ok(a) => match eval_of(*r, row, names, reals) {
                Err(x) => Err(x),
                Ok(b) => Ok(Value::Bool(value::holds(op, a, b))),
            },
        },
        Tree::BinLogic(op, l, r) => match eval_of(*l, row, names, reals) {
            Err(x) => Err(x),
            Ok(a) => if op == LogicOp::And && !is_truthy(a) {
                Ok(Value::Bool(false))
            } else if op == LogicOp::Or && is_truthy(a) {
                Ok(Value::Bool(true))
            } else {
                match eval_of(*r, row, names, reals) {
                    Err(x) => Err(x),
                    Ok(b) => Ok(Value::Bool(is_truthy(b))),
                }
            },
        },
        Tree::Not(x) => match eval_of(*x, row, names, reals) {
            Err(x) => Err(x),
            Ok(a) => Ok(Value::Bool(!is_truthy(a))),
        },
        Tree::Neg(x) => match eval_of(*x, row, names, reals) {
            Err(x) => Err(x),
            Ok(Value::Int(i)) => Ok(Value::Int(numeric::int_negated(i))),
            Ok(Value::Real(b)) => Ok(Value::Real(numeric::real_negated(b))),
            Ok(_) => Err(EvalFault::Type("neg of non-number"@)),
        },
        Tree::Case(c, y, n) => match eval_of(*c, row, names, reals) {
            Err(x) => Err(x),
            Ok(a) => if is_truthy(a) {
                eval_of(*y, row, names, reals)
            } else {
                eval_of(*n, row, names, reals)
            },
        },
        Tree::Coalesce(s) => coalesce_of(s, row, names, reals),
        Tree::Func(n, s) => match func_named(n) {
            None => Err(EvalFault::UnknownFunction(n)),
            Some(f) => match all_of(s, row, names, reals) {
                Err(x) => Err(x),
                Ok(a) => call_of(f, a),
            },
        },
    }
}

/// The first value that is not null, of expressions evaluated in order up to it.
pub open spec fn coalesce_of<N: NameTable>(s: Seq<Tree>, row: Seq<Value>, names: N, reals: numeric::RealFacts) -> Result<
    Value,
    EvalFault,
>
    decreases s,
{
    if s.len() == 0 {
        Ok(Value::Null)
    } else {
        match eval_of(s[0], row, names, reals) {
            Err(x) => Err(x),
            Ok(v) => if v is Null {
                coalesce_of(s.subrange(1, s.len() as int), row, names, reals)
            } else {
                Ok(v)
            },
        }
    }
}

/// The values of expressions, evaluated in order.
pub open spec fn all_of<N: NameTable>(s: Seq<Tree>, row: Seq<Value>, names: N, reals: numeric::RealFacts) -> Result<
    Seq<Value>,
    EvalFault,
>
    decreases s,
{
    if s.len() == 0 {
        Ok(Seq::empty())
    } else {
        match all_of(s.drop_last(), row, names, reals) {
            Err(x) => Err(x),
            Ok(a) => match eval_of(s.last(), row, names, reals) {
                Err(x) => Err(x),
                Ok(v) => Ok(a.push(v)),
            },
        }
    }
}

fn owned(s: &str) -> (r: String)
    ensures
        r@ == s@,
{
    let v = text::chars_of(s);
    text::string_of(&v)
}

fn truthy(v: &Value) -> (r: bool)
    ensures
        r == is_truthy(*v),
{
    match v {
        Value::Null => false,
        Value::Bool(b) => *b,
        Value::Int(i) => *i != 0,
        Value::Real(b) => !numeric::is_real_zero(*b),
        Value::Text(id) => *id != 0,
    }
}

fn arith(op: ArithOp, l: &Value, r: &Value, reals: &Reals) -> (res: Result<Value, EvalError>)
    ensures
        told(res) == arith_of(op, *l, *r, reals@),
{
    if l.is_null() || r.is_null() {
        return Ok(Value::Null);
    }
    let divides = matches!(op, ArithOp::Div) || matches!(op, ArithOp::Mod);
    if matches!(l, Value::Real(_)) || matches!(r, Value::Real(_)) {
        return match (l.as_real(), r.as_real()) {
            (Some(a), Some(b)) => {
                if divides && numeric::is_real_zero(b) {
                    Err(EvalError::DivByZero)
                } else {
                    match reals.result(op, a, b) {
                        Some(x) => Ok(Value::Real(x)),
                        None => Err(EvalError::Pending(RealNeed::Arith(op, a, b))),
                    }
                }
            },
            _ => Err(EvalError::Type(owned("arith on non-number"))),
        };
    }
    match (l.as_int(), r.as_int()) {
        (Some(a), Some(b)) => {
            if divides && b == 0 {
                Err(EvalError::DivByZero)
            } else {
                Ok(Value::Int(numeric::int_arith(op, a, b)))
            }
        },
        _ => Err(EvalError::Type(owned("arith on non-number"))),
    }
}

fn best_value(args: &Vec<Value>, least: bool) -> (r: Value)
    requires
        args.len() >= 1,
    ensures
        r == best(args@, least),
{
    let mut b: Value = args[0];
    let mut i: usize = 1;
    while i < args.len()
        invariant
            1 <= i <= args.len(),
            b == best(args@.take(i as int), least),
        decreases args.len() - i,
    {
        assert(args@.take(i + 1).drop_last() =~= args@.take(i as int));
        let s = value::compare(&args[i], &b);
        if least && matches!(s, Side::Below) || !least && matches!(s, Side::Above) {
            b = args[i];
        }
        i += 1;
    }
    assert(args@.take(args@.len() as int) =~= args@);
    b
}

fn first_value(args: &Vec<Value>) -> (r: Value)
    ensures
        r == first_set(args@),
{
    let mut i: usize = 0;
    assert(args@.skip(0) =~= args@);
    while i < args.len()
        invariant
            i <= args.len(),
            first_set(args@) == first_set(args@.skip(i as int)),
        decreases args.len() - i,
    {
        assert(args@.skip(i as int).skip(1) =~= args@.skip(i + 1));
        assert(args@.skip(i as int)[0] == args@[i as int]);
        if !args[i].is_null() {
            return args[i];
        }
        i += 1;
    }
    Value::Null
}

fn call(func: Func, args: &Vec<Value>) -> (res: Result<Value, EvalError>)
    ensures
        told(res) == call_of(func, args@),
{
    let n: usize = args.len();
    let fits = match func {
        Func::Min => n >= 2,
        Func::Max => n >= 2,
        Func::IfNull => n == 2,
        Func::Cast => n == 2,
        Func::Coalesce => n >= 1,
        _ => n == 1,
    };
    if !fits {
        return Err(EvalError::Arity { func: owned(func.name()), got: n });
    }
    match func {
        Func::Abs => match args[0] {
            Value::Int(i) => Ok(
                Value::Int(
                    if i < 0 {
                        numeric::int_neg(i)
                    } else {
                        i
                    },
                ),
            ),
            Value::Real(b) => Ok(
                Value::Real(
                    if b >= 0x8000_0000_0000_0000 {
                        numeric::real_neg(b)
                    } else {
                        b
                    },
                ),
            ),
            Value::Null => Ok(Value::Null),
            _ => Err(EvalError::Type(owned("abs of non-number"))),
        },
        Func::Min => Ok(best_value(args, true)),
        Func::Max => Ok(best_value(args, false)),
        Func::Length => match args[0] {
            Value::Text(id) => Ok(Value::Int(id as i64)),
            Value::Null => Ok(Value::Null),
            _ => Err(EvalError::Type(owned("length of non-text"))),
        },
        Func::Upper => Ok(args[0]),
        Func::Lower => Ok(args[0]),
        Func::Cast => Ok(args[0]),
        Func::IsNull => Ok(Value::Bool(args[0].is_null())),
        Func::IsNotNull => Ok(Value::Bool(!args[0].is_null())),
        Func::IfNull => Ok(
            if args[0].is_null() {
                args[1]
            } else {
                args[0]
            },
        ),
        Func::Coalesce => Ok(first_value(args)),
    }
}

fn number_place(i: usize) -> (r: String)
    ensures
        r@ == place_text(i),
{
    let mut v: Vec<char> = Vec::new();
    v.push('#');
    text::push_number(&mut v, i as u128);
    assert(v@ =~= place_text(i));
    text::string_of(&v)
}

/// Evaluate an expression against a row of values, using positional columns.
pub fn eval(expr: &Expr, row: &[Value]) -> (r: Result<Value, EvalError>)
    ensures
        told(r) == eval_of(tree(*expr), row@, NoNames, numeric::no_reals()),
{
    let reals = Reals::new();
    eval_reals(expr, row, &NoNames, &reals)
}

/// Evaluate with a name table for resolving `ColName` references.
pub fn eval_with<N: NameTable>(expr: &Expr, row: &[Value], names: &N) -> (r: Result<Value, EvalError>)
    ensures
        told(r) == eval_of(tree(*expr), row@, *names, numeric::no_reals()),
{
    let reals = Reals::new();
    eval_reals(expr, row, names, &reals)
}

/// Evaluate with a name table and what is known about reals.
pub fn eval_reals<N: NameTable>(expr: &Expr, row: &[Value], names: &N, reals: &Reals) -> (r: Result<Value, EvalError>)
    ensures
        told(r) == eval_of(tree(*expr), row@, *names, reals@),
    decreases expr,
{
    match expr {
        Expr::Lit(v) => Ok(*v),
        Expr::RealLit(t) => match reals.text(t.as_str()) {
            Some(b) => Ok(Value::Real(b)),
            None => Err(EvalError::Pending(RealNeed::Text(owned(t.as_str())))),
        },
        Expr::Col(i) => {
            if *i < row.len() {
                Ok(row[*i])
            } else {
                Err(EvalError::UnknownColumn(number_place(*i)))
            }
        },
        Expr::ColName(n) => match names.resolve(n.as_str()) {
            Some(i) => {
                if i < row.len() {
                    Ok(row[i])
                } else {
                    Err(EvalError::UnknownColumn(owned(n.as_str())))
                }
            },
            None => Err(EvalError::UnknownColumn(owned(n.as_str()))),
        },
        Expr::BinArith { op, lhs, rhs } => match eval_reals(lhs, row, names, reals) {
            Err(e) => Err(e),
            Ok(l) => match eval_reals(rhs, row, names, reals) {
                Err(e) => Err(e),
                Ok(r) => arith(*op, &l, &r, reals),
            },
        },
        Expr::BinCmp { op, lhs, rhs } => match eval_reals(lhs, row, names, reals) {
            Err(e) => Err(e),
            Ok(l) => match eval_reals(rhs, row, names, reals) {
                Err(e) => Err(e),
                Ok(r) => Ok(Value::Bool(op.apply(&l, &r))),
            },
        },
        Expr::BinLogic { op, lhs, rhs } => match eval_reals(lhs, row, names, reals) {
            Err(e) => Err(e),
            Ok(l) => {
                if matches!(op, LogicOp::And) && !truthy(&l) {
                    return Ok(Value::Bool(false));
                }
                if matches!(op, LogicOp::Or) && truthy(&l) {
                    return Ok(Value::Bool(true));
                }
                match eval_reals(rhs, row, names, reals) {
                    Err(e) => Err(e),
                    Ok(r) => Ok(Value::Bool(truthy(&r))),
                }
            },
        },
        Expr::Not(e) => match eval_reals(e, row, names, reals) {
            Err(e) => Err(e),
            Ok(v) => Ok(Value::Bool(!truthy(&v))),
        },
        Expr::Neg(e) => match eval_reals(e, row, names, reals) {
            Err(e) => Err(e),
            Ok(Value::Int(i)) => Ok(Value::Int(numeric::int_neg(i))),
            Ok(Value::Real(b)) => Ok(Value::Real(numeric::real_neg(b))),
            Ok(_) => Err(EvalError::Type(owned("neg of non-number"))),
        },
        Expr::Case { cond, yes, els } => match eval_reals(cond, row, names, reals) {
            Err(e) => Err(e),
            Ok(v) => if truthy(&v) {
                eval_reals(yes, row, names, reals)
            } else {
                eval_reals(els, row, names, reals)
            },
        },
        Expr::Coalesce(exprs) => {
            let ghost s = trees(exprs@);
            proof {
                lemma_trees(exprs@);
                assert(s.subrange(0, s.len() as int) =~= s);
            }
            let mut i: usize = 0;
            while i < exprs.len()
                invariant
                    i <= exprs.len(),
                    s == trees(exprs@),
                    s.len() == exprs@.len(),
                    forall|k: int| 0 <= k < exprs@.len() ==> #[trigger] s[k] == tree(exprs@[k]),
                    decreases_to!(expr => exprs@),
                    coalesce_of(s, row@, *names, reals@) == coalesce_of(
                        s.subrange(i as int, s.len() as int),
                        row@,
                        *names,
                        reals@,
                    ),
                    eval_of(tree(*expr), row@, *names, reals@) == coalesce_of(s, row@, *names, reals@),
                decreases exprs.len() - i,
            {
                let ghost u = s.subrange(i as int, s.len() as int);
                assert(u[0] == s[i as int]);
                assert(u.subrange(1, u.len() as int) =~= s.subrange(i + 1, s.len() as int));
                match eval_reals(&exprs[i], row, names, reals) {
                    Err(e) => {
                        return Err(e);
                    },
                    Ok(v) => {
                        if !v.is_null() {
                            return Ok(v);
                        }
                    },
                }
                i += 1;
            }
            Ok(Value::Null)
        },
        Expr::Func { name, args } => match Func::from_name(name.as_str()) {
            None => Err(EvalError::UnknownFunction(owned(name.as_str()))),
            Some(func) => {
                let ghost s = trees(args@);
                proof {
                    lemma_trees(args@);
                }
                let mut vals: Vec<Value> = Vec::new();
                let mut i: usize = 0;
                while i < args.len()
                    invariant
                        i <= args.len(),
                        s == trees(args@),
                        s.len() == args@.len(),
                        forall|k: int| 0 <= k < args@.len() ==> #[trigger] s[k] == tree(args@[k]),
                        decreases_to!(expr => args@),
                        all_of(s.take(i as int), row@, *names, reals@) == Ok::<Seq<Value>, EvalFault>(vals@),
                        tree(*expr) == Tree::Func(name@, s),
                        func_named(name@) == Some(func),
                    decreases args.len() - i,
                {
                    proof {
                        assert(s.take(i + 1).drop_last() =~= s.take(i as int));
                        assert(s.take(i + 1).last() == s[i as int]);
                    }
                    match eval_reals(&args[i], row, names, reals) {
                        Err(e) => {
                            proof {
                                lemma_all_stops(s, row@, *names, reals@, i + 1);
                            }
                            return Err(e);
                        },
                        Ok(v) => {
                            vals.push(v);
                        },
                    }
                    i += 1;
                }
                assert(s.take(s.len() as int) =~= s);
                call(func, &vals)
            },
        },
    }
}

/// A failure stops the evaluation of a list.
proof fn lemma_all_stops<N: NameTable>(s: Seq<Tree>, row: Seq<Value>, names: N, reals: numeric::RealFacts, n: int)
    requires
        0 <= n <= s.len(),
        all_of(s.take(n), row, names, reals) is Err,
    ensures
        all_of(s, row, names, reals) == all_of(s.take(n), row, names, reals),
    decreases s.len() - n,
{
    if n < s.len() {
        assert(s.take(n + 1).drop_last() =~= s.take(n));
        lemma_all_stops(s, row, names, reals, n + 1);
    } else {
        assert(s.take(n) =~= s);
    }
}

// Tokens

/// White space between tokens.
pub open spec fn is_gap(c: char) -> bool {
    c == ' ' || c == '\t' || c == '\n' || c == '\r' || c == '\u{c}'
}

/// A sign that is a token by itself.
pub open spec fn is_sign(c: char) -> bool {
    c == '=' || c == '<' || c == '>' || c == '+' || c == '-' || c == '*' || c == '/' || c == '%' || c == '(' || c
        == ')' || c == ','
}

/// Two signs that are one token.
pub open spec fn is_double(a: char, b: char) -> bool {
    ||| b == '=' && (a == '=' || a == '!' || a == '<' || a == '>')
    ||| a == '<' && b == '>'
}

/// The length of the word that a text starts with.
pub open spec fn word_len(s: Seq<char>) -> nat
    decreases s.len(),
{
    if s.len() == 0 || is_gap(s[0]) || is_sign(s[0]) {
        0
    } else {
        1 + word_len(s.skip(1))
    }
}

/// Where the next quotation mark stands.
pub open spec fn quote_at(s: Seq<char>) -> Option<nat>
    decreases s.len(),
{
    if s.len() == 0 {
        None
    } else if s[0] == '"' {
        Some(0)
    } else {
        match quote_at(s.skip(1)) {
            Some(n) => Some(n + 1),
            None => None,
        }
    }
}

/// The length of the token that a text starts with; none where it is a string
/// without an end.
pub open spec fn token_len(s: Seq<char>) -> Option<nat> {
    if s[0] == '"' {
        match quote_at(s.skip(1)) {
            Some(n) => Some(n + 2),
            None => None,
        }
    } else if s.len() > 1 && is_double(s[0], s[1]) {
        Some(2)
    } else if is_sign(s[0]) {
        Some(1)
    } else {
        Some(word_len(s))
    }
}

/// The tokens of a text; none where a string has no end.
pub open spec fn tokens(s: Seq<char>) -> Option<Seq<Seq<char>>>
    decreases s.len(),
{
    if s.len() == 0 {
        Some(Seq::empty())
    } else if is_gap(s[0]) {
        tokens(s.skip(1))
    } else {
        match token_len(s) {
            None => None,
            Some(n) => if 0 < n <= s.len() {
                match tokens(s.skip(n as int)) {
                    None => None,
                    Some(t) => Some(seq![s.take(n as int)] + t),
                }
            } else {
                None
            },
        }
    }
}

/// The texts of a list of tokens.
pub open spec fn words(v: Seq<Vec<char>>) -> Seq<Seq<char>> {
    Seq::new(v.len(), |i: int| v[i]@)
}

fn gap(c: char) -> (r: bool)
    ensures
        r == is_gap(c),
{
    c == ' ' || c == '\t' || c == '\n' || c == '\r' || c == '\u{c}'
}

fn sign(c: char) -> (r: bool)
    ensures
        r == is_sign(c),
{
    c == '=' || c == '<' || c == '>' || c == '+' || c == '-' || c == '*' || c == '/' || c == '%' || c == '(' || c
        == ')' || c == ','
}

/// The length of the token at `i`.
fn measure(v: &Vec<char>, i: usize) -> (n: Option<usize>)
    requires
        i < v.len(),
        !is_gap(v@[i as int]),
    ensures
        match n {
            Some(n) => token_len(v@.skip(i as int)) == Some(n as nat) && 0 < n && i + n <= v.len(),
            None => token_len(v@.skip(i as int)) is None,
        },
{
    let ghost s = v@.skip(i as int);
    assert(s[0] == v@[i as int]);
    if v[i] == '"' {
        assert(s.skip(1) =~= v@.skip(i + 1));
        let mut j: usize = i + 1;
        while j < v.len()
            invariant
                i < j <= v.len(),
                s == v@.skip(i as int),
                s[0] == '"',
                s.skip(1) == v@.skip(i + 1),
                quote_at(v@.skip(i + 1)) == (match quote_at(v@.skip(j as int)) {
                    Some(n) => Some((n + (j - i - 1)) as nat),
                    None => None,
                }),
            decreases v.len() - j,
        {
            assert(v@.skip(j as int)[0] == v@[j as int]);
            assert(v@.skip(j as int).skip(1) =~= v@.skip(j + 1));
            if v[j] == '"' {
                return Some(j - i + 1);
            }
            j += 1;
        }
        return None;
    }
    if i + 1 < v.len() {
        assert(s[1] == v@[i + 1]);
        let a = v[i];
        let b = v[i + 1];
        if b == '=' && (a == '=' || a == '!' || a == '<' || a == '>') || a == '<' && b == '>' {
            return Some(2);
        }
    }
    if sign(v[i]) {
        return Some(1);
    }
    let mut j: usize = i;
    while j < v.len()
        invariant
            i <= j <= v.len(),
            i < v.len(),
            word_len(v@.skip(i as int)) == j - i + word_len(v@.skip(j as int)),
            !is_gap(v@[i as int]) && !is_sign(v@[i as int]),
            s == v@.skip(i as int),
            token_len(s) == Some(word_len(s)),
        decreases v.len() - j,
    {
        assert(v@.skip(j as int)[0] == v@[j as int]);
        assert(v@.skip(j as int).skip(1) =~= v@.skip(j + 1));
        if gap(v[j]) || sign(v[j]) {
            return Some(j - i);
        }
        j += 1;
    }
    Some(j - i)
}

fn lex(src: &str) -> (toks: Vec<Vec<char>>)
    requires
        tokens(src@) is Some,
    ensures
        tokens(src@) == Some(words(toks@)),
{
    let v = text::chars_of(src);
    let mut toks: Vec<Vec<char>> = Vec::new();
    let mut i: usize = 0;
    proof {
        assert(v@.skip(0) =~= v@);
        assert(words(toks@) =~= Seq::empty());
        assert(Seq::<Seq<char>>::empty() + tokens(v@).unwrap() =~= tokens(v@).unwrap());
    }
    while i < v.len()
        invariant
            i <= v.len(),
            v@ == src@,
            tokens(src@) is Some,
            tokens(v@.skip(i as int)) is Some,
            tokens(src@) == Some(words(toks@) + tokens(v@.skip(i as int)).unwrap()),
        decreases v.len() - i,
    {
        let ghost s = v@.skip(i as int);
        assert(s[0] == v@[i as int]);
        if gap(v[i]) {
            assert(s.skip(1) =~= v@.skip(i + 1));
            i += 1;
        } else {
            match measure(&v, i) {
                None => {
                    assert(false);
                    i = v.len();
                },
                Some(n) => {
                    let t = text::slice_chars(&v, i, i + n);
                    let ghost was = words(toks@);
                    toks.push(t);
                    proof {
                        assert(t@ =~= s.take(n as int));
                        assert(s.skip(n as int) =~= v@.skip(i + n));
                        assert(words(toks@) =~= was.push(t@));
                        let rest = tokens(v@.skip(i + n)).unwrap();
                        assert(was + (seq![t@] + rest) =~= was.push(t@) + rest);
                    }
                    i += n;
                },
            }
        }
    }
    proof {
        assert(v@.skip(v@.len() as int) =~= Seq::<char>::empty());
        assert(words(toks@) + Seq::<Seq<char>>::empty() =~= words(toks@));
    }
    toks
}

// Parser

/// What parsing gives: an expression and where it ends, or a complaint.
pub type Parsed = Result<(Tree, int), Seq<char>>;

/// Whether the token at `pos` is a keyword, in any case.
pub open spec fn keyword(t: Seq<Seq<char>>, pos: int, w: Seq<char>) -> bool {
    pos < t.len() && text::lowered(t[pos]) == w
}

/// Whether the token at `pos` is a sign.
pub open spec fn sign_at(t: Seq<Seq<char>>, pos: int, c: char) -> bool {
    pos < t.len() && t[pos] == seq![c]
}

pub open spec fn or_of(t: Seq<Seq<char>>, pos: int) -> Parsed
    decreases t.len() - pos, 9int,
{
    match and_of(t, pos) {
        Err(e) => Err(e),
        Ok((l, p)) => if pos < p <= t.len() {
            or_rest(t, p, l)
        } else {
            Err(Seq::empty())
        },
    }
}

pub open spec fn or_rest(t: Seq<Seq<char>>, pos: int, l: Tree) -> Parsed
    decreases t.len() - pos, 10int,
{
    if keyword(t, pos, "or"@) {
        match and_of(t, pos + 1) {
            Err(e) => Err(e),
            Ok((r, p)) => if pos < p <= t.len() {
                or_rest(t, p, Tree::BinLogic(LogicOp::Or, Box::new(l), Box::new(r)))
            } else {
                Err(Seq::empty())
            },
        }
    } else {
        Ok((l, pos))
    }
}

pub open spec fn and_of(t: Seq<Seq<char>>, pos: int) -> Parsed
    decreases t.len() - pos, 7int,
{
    match not_of(t, pos) {
        Err(e) => Err(e),
        Ok((l, p)) => if pos < p <= t.len() {
            and_rest(t, p, l)
        } else {
            Err(Seq::empty())
        },
    }
}

pub open spec fn and_rest(t: Seq<Seq<char>>, pos: int, l: Tree) -> Parsed
    decreases t.len() - pos, 8int,
{
    if keyword(t, pos, "and"@) {
        match not_of(t, pos + 1) {
            Err(e) => Err(e),
            Ok((r, p)) => if pos < p <= t.len() {
                and_rest(t, p, Tree::BinLogic(LogicOp::And, Box::new(l), Box::new(r)))
            } else {
                Err(Seq::empty())
            },
        }
    } else {
        Ok((l, pos))
    }
}

pub open spec fn not_of(t: Seq<Seq<char>>, pos: int) -> Parsed
    decreases t.len() - pos, 6int,
{
    if keyword(t, pos, "not"@) {
        match not_of(t, pos + 1) {
            Err(e) => Err(e),
            Ok((x, p)) => Ok((Tree::Not(Box::new(x)), p)),
        }
    } else {
        comparison_of(t, pos)
    }
}

pub open spec fn comparison_of(t: Seq<Seq<char>>, pos: int) -> Parsed
    decreases t.len() - pos, 5int,
{
    match add_of(t, pos) {
        Err(e) => Err(e),
        Ok((l, p)) => if pos < p < t.len() && value::op_named(t[p]) is Some {
            match add_of(t, p + 1) {
                Err(e) => Err(e),
                Ok((r, q)) => Ok((Tree::BinCmp(value::op_named(t[p]).unwrap(), Box::new(l), Box::new(r)), q)),
            }
        } else {
            Ok((l, p))
        },
    }
}

/// The operator that adds or takes away.
pub open spec fn sum_sign(t: Seq<Seq<char>>, pos: int) -> Option<ArithOp> {
    if sign_at(t, pos, '+') {
        Some(ArithOp::Add)
    } else if sign_at(t, pos, '-') {
        Some(ArithOp::Sub)
    } else {
        None
    }
}

/// The operator that multiplies or divides.
pub open spec fn factor_sign(t: Seq<Seq<char>>, pos: int) -> Option<ArithOp> {
    if sign_at(t, pos, '*') {
        Some(ArithOp::Mul)
    } else if sign_at(t, pos, '/') {
        Some(ArithOp::Div)
    } else if sign_at(t, pos, '%') {
        Some(ArithOp::Mod)
    } else {
        None
    }
}

pub open spec fn add_of(t: Seq<Seq<char>>, pos: int) -> Parsed
    decreases t.len() - pos, 3int,
{
    match mul_of(t, pos) {
        Err(e) => Err(e),
        Ok((l, p)) => if pos < p <= t.len() {
            add_rest(t, p, l)
        } else {
            Err(Seq::empty())
        },
    }
}

pub open spec fn add_rest(t: Seq<Seq<char>>, pos: int, l: Tree) -> Parsed
    decreases t.len() - pos, 4int,
{
    match sum_sign(t, pos) {
        None => Ok((l, pos)),
        Some(op) => match mul_of(t, pos + 1) {
            Err(e) => Err(e),
            Ok((r, p)) => if pos < p <= t.len() {
                add_rest(t, p, Tree::BinArith(op, Box::new(l), Box::new(r)))
            } else {
                Err(Seq::empty())
            },
        },
    }
}

pub open spec fn mul_of(t: Seq<Seq<char>>, pos: int) -> Parsed
    decreases t.len() - pos, 2int,
{
    match unary_of(t, pos) {
        Err(e) => Err(e),
        Ok((l, p)) => if pos < p <= t.len() {
            mul_rest(t, p, l)
        } else {
            Err(Seq::empty())
        },
    }
}

pub open spec fn mul_rest(t: Seq<Seq<char>>, pos: int, l: Tree) -> Parsed
    decreases t.len() - pos, 2int,
{
    match factor_sign(t, pos) {
        None => Ok((l, pos)),
        Some(op) => match unary_of(t, pos + 1) {
            Err(e) => Err(e),
            Ok((r, p)) => if pos < p <= t.len() {
                mul_rest(t, p, Tree::BinArith(op, Box::new(l), Box::new(r)))
            } else {
                Err(Seq::empty())
            },
        },
    }
}

pub open spec fn unary_of(t: Seq<Seq<char>>, pos: int) -> Parsed
    decreases t.len() - pos, 1int,
{
    if sign_at(t, pos, '-') {
        match unary_of(t, pos + 1) {
            Err(e) => Err(e),
            Ok((x, p)) => Ok((Tree::Neg(Box::new(x)), p)),
        }
    } else if sign_at(t, pos, '+') {
        unary_of(t, pos + 1)
    } else {
        atom_of(t, pos)
    }
}

/// The value that a token denotes by itself. A string stands for text 0, which
/// the caller resolves.
pub open spec fn literal(w: Seq<char>) -> Option<Tree> {
    let l = text::lowered(w);
    if l == "true"@ {
        Some(Tree::Lit(Value::Bool(true)))
    } else if l == "false"@ {
        Some(Tree::Lit(Value::Bool(false)))
    } else if l == "null"@ {
        Some(Tree::Lit(Value::Null))
    } else if w.len() > 0 && w[0] == '"' {
        Some(Tree::Lit(Value::Text(0)))
    } else {
        match numeric::int_value(w) {
            Some(i) => Some(Tree::Lit(Value::Int(i))),
            None => if numeric::is_real_text(w) {
                Some(Tree::RealLit(w))
            } else {
                None
            },
        }
    }
}

pub open spec fn atom_of(t: Seq<Seq<char>>, pos: int) -> Parsed
    decreases t.len() - pos, 0int,
{
    if pos >= t.len() || pos < 0 {
        Err("unexpected end of expression"@)
    } else if sign_at(t, pos, '(') {
        match or_of(t, pos + 1) {
            Err(e) => Err(e),
            Ok((x, p)) => if sign_at(t, p, ')') {
                Ok((x, p + 1))
            } else {
                Err("expected )"@)
            },
        }
    } else if literal(t[pos]) is Some {
        Ok((literal(t[pos]).unwrap(), pos + 1))
    } else if sign_at(t, pos + 1, '(') {
        if sign_at(t, pos + 2, ')') {
            Ok((Tree::Func(t[pos], Seq::empty()), pos + 3))
        } else {
            match or_of(t, pos + 2) {
                Err(e) => Err(e),
                Ok((x, p)) => if pos < p <= t.len() {
                    args_rest(t, p, t[pos], seq![x])
                } else {
                    Err(Seq::empty())
                },
            }
        }
    } else {
        Ok((Tree::ColName(t[pos]), pos + 1))
    }
}

pub open spec fn args_rest(t: Seq<Seq<char>>, pos: int, name: Seq<char>, a: Seq<Tree>) -> Parsed
    decreases t.len() - pos, 0int,
{
    if sign_at(t, pos, ',') {
        match or_of(t, pos + 1) {
            Err(e) => Err(e),
            Ok((x, p)) => if pos < p <= t.len() {
                args_rest(t, p, name, a.push(x))
            } else {
                Err(Seq::empty())
            },
        }
    } else if sign_at(t, pos, ')') {
        Ok((Tree::Func(name, a), pos + 1))
    } else {
        Err("expected )"@)
    }
}

/// The expression that tokens spell, to the last of them.
pub open spec fn parse_of(t: Seq<Seq<char>>) -> Result<Tree, Seq<char>> {
    match or_of(t, 0) {
        Err(e) => Err(e),
        Ok((x, p)) => if 0 <= p < t.len() {
            Err("trailing tokens at "@ + t[p])
        } else {
            Ok(x)
        },
    }
}

struct TokParser {
    toks: Vec<Vec<char>>,
    pos: usize,
}

/// A step of the parser does what the grammar says of the tokens at `from`.
spec fn follows(p: TokParser, q: TokParser, r: Result<Expr, String>, g: Parsed) -> bool {
    &&& q.toks == p.toks
    &&& q.pos <= q.toks@.len()
    &&& match r {
        Ok(e) => p.pos < q.pos && g == Ok::<(Tree, int), Seq<char>>((tree(e), q.pos as int)),
        Err(m) => g == Err::<(Tree, int), Seq<char>>(m@),
    }
}

impl TokParser {
    spec fn t(self) -> Seq<Seq<char>> {
        words(self.toks@)
    }

    fn at_sign(&self, c: char) -> (r: bool)
        ensures
            r == sign_at(self.t(), self.pos as int, c),
            r ==> self.pos < usize::MAX,
    {
        if self.pos < self.toks.len() {
            let w = &self.toks[self.pos];
            let r = w.len() == 1 && w[0] == c;
            proof {
                if r {
                    assert(w@ =~= seq![c]);
                } else if w@ == seq![c] {
                    assert(w@.len() == 1 && w@[0] == c);
                }
            }
            r
        } else {
            false
        }
    }

    fn at_keyword(&self, w: &str) -> (r: bool)
        ensures
            r == keyword(self.t(), self.pos as int, w@),
            r ==> self.pos < usize::MAX,
    {
        if self.pos < self.toks.len() {
            let s = text::string_of(&self.toks[self.pos]);
            text::is_lowered(s.as_str(), w)
        } else {
            false
        }
    }

    fn parse_or(&mut self) -> (r: Result<Expr, String>)
        requires
            old(self).pos <= old(self).toks@.len(),
        ensures
            follows(*old(self), *final(self), r, or_of(old(self).t(), old(self).pos as int)),
        decreases old(self).toks@.len() - old(self).pos, 9int,
    {
        let ghost t = self.t();
        let ghost from = self.pos;
        let mut lhs = match self.parse_and() {
            Ok(e) => e,
            Err(m) => return Err(m),
        };
        while self.at_keyword("or")
            invariant
                self.toks == old(self).toks,
                t == self.t(),
                from == old(self).pos,
                from < self.pos <= self.toks@.len(),
                or_of(t, from as int) == or_rest(t, self.pos as int, tree(lhs)),
            decreases self.toks@.len() - self.pos,
        {
            self.pos += 1;
            let rhs = match self.parse_and() {
                Ok(e) => e,
                Err(m) => return Err(m),
            };
            lhs = Expr::BinLogic { op: LogicOp::Or, lhs: Box::new(lhs), rhs: Box::new(rhs) };
        }
        Ok(lhs)
    }

    fn parse_and(&mut self) -> (r: Result<Expr, String>)
        requires
            old(self).pos <= old(self).toks@.len(),
        ensures
            follows(*old(self), *final(self), r, and_of(old(self).t(), old(self).pos as int)),
        decreases old(self).toks@.len() - old(self).pos, 7int,
    {
        let ghost t = self.t();
        let ghost from = self.pos;
        let mut lhs = match self.parse_not() {
            Ok(e) => e,
            Err(m) => return Err(m),
        };
        while self.at_keyword("and")
            invariant
                self.toks == old(self).toks,
                t == self.t(),
                from == old(self).pos,
                from < self.pos <= self.toks@.len(),
                and_of(t, from as int) == and_rest(t, self.pos as int, tree(lhs)),
            decreases self.toks@.len() - self.pos,
        {
            self.pos += 1;
            let rhs = match self.parse_not() {
                Ok(e) => e,
                Err(m) => return Err(m),
            };
            lhs = Expr::BinLogic { op: LogicOp::And, lhs: Box::new(lhs), rhs: Box::new(rhs) };
        }
        Ok(lhs)
    }

    fn parse_not(&mut self) -> (r: Result<Expr, String>)
        requires
            old(self).pos <= old(self).toks@.len(),
        ensures
            follows(*old(self), *final(self), r, not_of(old(self).t(), old(self).pos as int)),
        decreases old(self).toks@.len() - old(self).pos, 6int,
    {
        if self.at_keyword("not") {
            self.pos += 1;
            return match self.parse_not() {
                Ok(e) => Ok(Expr::Not(Box::new(e))),
                Err(m) => Err(m),
            };
        }
        self.parse_comparison()
    }

    fn parse_comparison(&mut self) -> (r: Result<Expr, String>)
        requires
            old(self).pos <= old(self).toks@.len(),
        ensures
            follows(*old(self), *final(self), r, comparison_of(old(self).t(), old(self).pos as int)),
        decreases old(self).toks@.len() - old(self).pos, 5int,
    {
        let lhs = match self.parse_add() {
            Ok(e) => e,
            Err(m) => return Err(m),
        };
        if self.pos < self.toks.len() {
            let s = text::string_of(&self.toks[self.pos]);
            if let Some(op) = CmpOp::parse(s.as_str()) {
                self.pos += 1;
                return match self.parse_add() {
                    Ok(rhs) => Ok(Expr::BinCmp { op, lhs: Box::new(lhs), rhs: Box::new(rhs) }),
                    Err(m) => Err(m),
                };
            }
        }
        Ok(lhs)
    }

    fn sum_op(&self) -> (r: Option<ArithOp>)
        ensures
            r == sum_sign(self.t(), self.pos as int),
            r is Some ==> self.pos < usize::MAX,
    {
        if self.at_sign('+') {
            Some(ArithOp::Add)
        } else if self.at_sign('-') {
            Some(ArithOp::Sub)
        } else {
            None
        }
    }

    fn factor_op(&self) -> (r: Option<ArithOp>)
        ensures
            r == factor_sign(self.t(), self.pos as int),
            r is Some ==> self.pos < usize::MAX,
    {
        if self.at_sign('*') {
            Some(ArithOp::Mul)
        } else if self.at_sign('/') {
            Some(ArithOp::Div)
        } else if self.at_sign('%') {
            Some(ArithOp::Mod)
        } else {
            None
        }
    }

    #[verifier::rlimit(60)]
    fn parse_add(&mut self) -> (r: Result<Expr, String>)
        requires
            old(self).pos <= old(self).toks@.len(),
        ensures
            follows(*old(self), *final(self), r, add_of(old(self).t(), old(self).pos as int)),
        decreases old(self).toks@.len() - old(self).pos, 3int,
    {
        let ghost t = self.t();
        let ghost from = self.pos;
        let mut lhs = match self.parse_mul() {
            Ok(e) => e,
            Err(m) => return Err(m),
        };
        loop
            invariant
                self.toks == old(self).toks,
                t == self.t(),
                from == old(self).pos,
                from < self.pos <= self.toks@.len(),
                add_of(t, from as int) == add_rest(t, self.pos as int, tree(lhs)),
            decreases self.toks@.len() - self.pos,
        {
            let op = match self.sum_op() {
                Some(op) => op,
                None => return Ok(lhs),
            };
            self.pos += 1;
            let rhs = match self.parse_mul() {
                Ok(e) => e,
                Err(m) => return Err(m),
            };
            lhs = Expr::BinArith { op, lhs: Box::new(lhs), rhs: Box::new(rhs) };
        }
    }

    #[verifier::rlimit(60)]
    fn parse_mul(&mut self) -> (r: Result<Expr, String>)
        requires
            old(self).pos <= old(self).toks@.len(),
        ensures
            follows(*old(self), *final(self), r, mul_of(old(self).t(), old(self).pos as int)),
        decreases old(self).toks@.len() - old(self).pos, 2int,
    {
        let ghost t = self.t();
        let ghost from = self.pos;
        let mut lhs = match self.parse_unary() {
            Ok(e) => e,
            Err(m) => return Err(m),
        };
        loop
            invariant
                self.toks == old(self).toks,
                t == self.t(),
                from == old(self).pos,
                from < self.pos <= self.toks@.len(),
                mul_of(t, from as int) == mul_rest(t, self.pos as int, tree(lhs)),
            decreases self.toks@.len() - self.pos,
        {
            let op = match self.factor_op() {
                Some(op) => op,
                None => return Ok(lhs),
            };
            self.pos += 1;
            let rhs = match self.parse_unary() {
                Ok(e) => e,
                Err(m) => return Err(m),
            };
            lhs = Expr::BinArith { op, lhs: Box::new(lhs), rhs: Box::new(rhs) };
        }
    }

    fn parse_unary(&mut self) -> (r: Result<Expr, String>)
        requires
            old(self).pos <= old(self).toks@.len(),
        ensures
            follows(*old(self), *final(self), r, unary_of(old(self).t(), old(self).pos as int)),
        decreases old(self).toks@.len() - old(self).pos, 1int,
    {
        if self.at_sign('-') {
            self.pos += 1;
            match self.parse_unary() {
                Ok(e) => Ok(Expr::Neg(Box::new(e))),
                Err(m) => Err(m),
            }
        } else if self.at_sign('+') {
            self.pos += 1;
            self.parse_unary()
        } else {
            self.parse_atom()
        }
    }

    /// The value that the token here denotes by itself.
    fn literal_here(&self) -> (r: Option<Expr>)
        requires
            self.pos < self.toks@.len(),
        ensures
            match r {
                Some(e) => literal(self.t()[self.pos as int]) == Some(tree(e)),
                None => literal(self.t()[self.pos as int]) is None,
            },
    {
        let w = &self.toks[self.pos];
        if self.at_keyword("true") {
            Some(Expr::Lit(Value::Bool(true)))
        } else if self.at_keyword("false") {
            Some(Expr::Lit(Value::Bool(false)))
        } else if self.at_keyword("null") {
            Some(Expr::Lit(Value::Null))
        } else if w.len() > 0 && w[0] == '"' {
            Some(Expr::Lit(Value::Text(0)))
        } else {
            match numeric::read_int(w) {
                Some(i) => Some(Expr::Lit(Value::Int(i))),
                None => {
                    if numeric::reads_as_real(w) {
                        Some(Expr::RealLit(text::string_of(w)))
                    } else {
                        None
                    }
                },
            }
        }
    }

    fn parse_atom(&mut self) -> (r: Result<Expr, String>)
        requires
            old(self).pos <= old(self).toks@.len(),
        ensures
            follows(*old(self), *final(self), r, atom_of(old(self).t(), old(self).pos as int)),
        decreases old(self).toks@.len() - old(self).pos, 0int,
    {
        if self.pos >= self.toks.len() {
            return Err(owned("unexpected end of expression"));
        }
        if self.at_sign('(') {
            self.pos += 1;
            let e = match self.parse_or() {
                Ok(e) => e,
                Err(m) => return Err(m),
            };
            if self.at_sign(')') {
                self.pos += 1;
                return Ok(e);
            }
            return Err(owned("expected )"));
        }
        if let Some(e) = self.literal_here() {
            self.pos += 1;
            return Ok(e);
        }
        let name = text::string_of(&self.toks[self.pos]);
        self.pos += 1;
        if self.at_sign('(') {
            self.pos += 1;
            self.parse_args(name)
        } else {
            Ok(Expr::ColName(name))
        }
    }

    /// The arguments of a call, up to the closing bracket.
    #[verifier::rlimit(60)]
    fn parse_args(&mut self, name: String) -> (r: Result<Expr, String>)
        requires
            2 <= old(self).pos <= old(self).toks@.len(),
            !sign_at(old(self).t(), old(self).pos - 2, '('),
            literal(old(self).t()[old(self).pos - 2]) is None,
            sign_at(old(self).t(), old(self).pos - 1, '('),
            name@ == old(self).t()[old(self).pos - 2],
        ensures
            final(self).toks == old(self).toks,
            final(self).pos <= final(self).toks@.len(),
            match r {
                Ok(e) => old(self).pos < final(self).pos && atom_of(old(self).t(), old(self).pos - 2) == Ok::<
                    (Tree, int),
                    Seq<char>,
                >((tree(e), final(self).pos as int)),
                Err(m) => atom_of(old(self).t(), old(self).pos - 2) == Err::<(Tree, int), Seq<char>>(m@),
            },
        decreases old(self).toks@.len() - old(self).pos, 10int,
    {
        let ghost t = self.t();
        let ghost from = self.pos - 2;
        let mut args: Vec<Expr> = Vec::new();
        assert(trees(args@) =~= Seq::<Tree>::empty());
        if self.at_sign(')') {
            self.pos += 1;
            return Ok(Expr::Func { name, args });
        }
        let e = match self.parse_or() {
            Ok(e) => e,
            Err(m) => return Err(m),
        };
        args.push(e);
        proof {
            assert(args@.drop_last() =~= Seq::<Expr>::empty());
            assert(trees(args@) =~= seq![tree(e)]);
        }
        while self.at_sign(',')
            invariant
                self.toks == old(self).toks,
                t == self.t(),
                from == old(self).pos - 2,
                old(self).pos < self.pos <= self.toks@.len(),
                atom_of(t, from) == args_rest(t, self.pos as int, name@, trees(args@)),
            decreases self.toks@.len() - self.pos,
        {
            self.pos += 1;
            let e = match self.parse_or() {
                Ok(e) => e,
                Err(m) => return Err(m),
            };
            let ghost was = args@;
            args.push(e);
            proof {
                assert(args@.drop_last() =~= was);
            }
        }
        if self.at_sign(')') {
            self.pos += 1;
            Ok(Expr::Func { name, args })
        } else {
            Err(owned("expected )"))
        }
    }
}

/// Parse an expression from a source string, in which every string has an end.
pub fn parse(src: &str) -> (r: Result<Expr, String>)
    requires
        tokens(src@) is Some,
    ensures
        match r {
            Ok(e) => parse_of(tokens(src@).unwrap()) == Ok::<Tree, Seq<char>>(tree(e)),
            Err(m) => parse_of(tokens(src@).unwrap()) == Err::<Tree, Seq<char>>(m@),
        },
{
    let toks = lex(src);
    let mut p = TokParser { toks, pos: 0 };
    let e = match p.parse_or() {
        Ok(e) => e,
        Err(m) => return Err(m),
    };
    if p.pos < p.toks.len() {
        let mut m = text::chars_of("trailing tokens at ");
        let ghost head = m@;
        let w = &p.toks[p.pos];
        let mut i: usize = 0;
        assert(w@.take(0) =~= Seq::empty());
        assert(head + Seq::<char>::empty() =~= head);
        while i < w.len()
            invariant
                i <= w.len(),
                m@ == head + w@.take(i as int),
            decreases w.len() - i,
        {
            m.push(w[i]);
            assert(w@.take(i + 1) =~= w@.take(i as int).push(w@[i as int]));
            i += 1;
        }
        assert(w@.take(w@.len() as int) =~= w@);
        return Err(text::string_of(&m));
    }
    Ok(e)
}

// What expressions give, case by case

/// The connectives. A value counts as true unless it is null, false, or zero, as a
/// number or an id. A conjunction is true where both sides count as true, a
/// disjunction where one does, and a negation turns truth round; a side that the other
/// one has decided is not looked at.
pub proof fn lemma_logic<N: NameTable>(l: Tree, r: Tree, row: Seq<Value>, names: N, reals: numeric::RealFacts)
    requires
        eval_of(l, row, names, reals) is Ok,
    ensures
        ({
            let yes = |v: Value|
                match v {
                    Value::Null => false,
                    Value::Bool(b) => b,
                    Value::Int(i) => i != 0,
                    Value::Real(x) => x != 0 && x != 0x8000_0000_0000_0000,
                    Value::Text(id) => id != 0,
                };
            let a = eval_of(l, row, names, reals)->Ok_0;
            let b = eval_of(r, row, names, reals);
            let and = eval_of(Tree::BinLogic(LogicOp::And, Box::new(l), Box::new(r)), row, names, reals);
            let or = eval_of(Tree::BinLogic(LogicOp::Or, Box::new(l), Box::new(r)), row, names, reals);
            let not = eval_of(Tree::Not(Box::new(l)), row, names, reals);
            &&& b matches Ok(w) ==> and == Ok::<Value, EvalFault>(Value::Bool(yes(a) && yes(w)))
            &&& b matches Ok(w) ==> or == Ok::<Value, EvalFault>(Value::Bool(yes(a) || yes(w)))
            &&& !yes(a) ==> and == Ok::<Value, EvalFault>(Value::Bool(false))
            &&& yes(a) ==> or == Ok::<Value, EvalFault>(Value::Bool(true))
            &&& yes(a) && b is Err ==> and == b
            &&& !yes(a) && b is Err ==> or == b
            &&& not == Ok::<Value, EvalFault>(Value::Bool(!yes(a)))
        }),
{
    reveal_with_fuel(eval_of, 2);
}

/// Choices: a condition picks one branch and leaves the other alone; the first of a
/// list of expressions that is not null is taken, and those behind it are left alone.
pub proof fn lemma_choices<N: NameTable>(
    c: Tree,
    y: Tree,
    n: Tree,
    s: Seq<Tree>,
    row: Seq<Value>,
    names: N,
    reals: numeric::RealFacts,
)
    ensures
        ({
            let pick = eval_of(Tree::Case(Box::new(c), Box::new(y), Box::new(n)), row, names, reals);
            let first = eval_of(Tree::Coalesce(seq![y] + s), row, names, reals);
            let v = eval_of(y, row, names, reals);
            &&& eval_of(c, row, names, reals) == Ok::<Value, EvalFault>(Value::Bool(true)) ==> pick == v
            &&& eval_of(c, row, names, reals) == Ok::<Value, EvalFault>(Value::Bool(false)) ==> pick == eval_of(n, row, names, reals)
            &&& eval_of(c, row, names, reals) == Ok::<Value, EvalFault>(Value::Null) ==> pick == eval_of(n, row, names, reals)
            &&& v is Err ==> first == v
            &&& v is Ok && !(v->Ok_0 is Null) ==> first == v
            &&& v == Ok::<Value, EvalFault>(Value::Null) ==> first == eval_of(Tree::Coalesce(s), row, names, reals)
            &&& eval_of(Tree::Coalesce(Seq::empty()), row, names, reals) == Ok::<Value, EvalFault>(Value::Null)
        }),
{
    let t = seq![y] + s;
    assert(t[0] == y);
    assert(t.subrange(1, t.len() as int) =~= s);
    reveal_with_fuel(eval_of, 2);
    reveal_with_fuel(coalesce_of, 2);
}

/// Values: a column is the row's value at its place; a comparison is that of the two
/// values; on integers whose result fits arithmetic is that of integers, a quotient
/// and a remainder put the dividend together again, and dividing by zero is an error;
/// with a null the result is null. A negation is the negative.
pub proof fn lemma_values<N: NameTable>(
    l: Tree,
    r: Tree,
    k: usize,
    op: CmpOp,
    row: Seq<Value>,
    names: N,
    reals: numeric::RealFacts,
)
    requires
        eval_of(l, row, names, reals) is Ok,
        eval_of(r, row, names, reals) is Ok,
    ensures
        ({
            let a = eval_of(l, row, names, reals)->Ok_0;
            let b = eval_of(r, row, names, reals)->Ok_0;
            let told = |op: ArithOp| eval_of(Tree::BinArith(op, Box::new(l), Box::new(r)), row, names, reals);
            let is = |x: int| Ok::<Value, EvalFault>(Value::Int(x as i64));
            let null = Ok::<Value, EvalFault>(Value::Null);
            let zero = Err::<Value, EvalFault>(EvalFault::DivByZero);
            &&& k < row.len() ==> eval_of(Tree::Col(k), row, names, reals) == Ok::<Value, EvalFault>(row[k as int])
            &&& k >= row.len() ==> eval_of(Tree::Col(k), row, names, reals) is Err
            &&& eval_of(Tree::BinCmp(op, Box::new(l), Box::new(r)), row, names, reals) == Ok::<Value, EvalFault>(
                Value::Bool(value::holds(op, a, b)),
            )
            &&& a is Null || b is Null ==> told(ArithOp::Add) == null && told(ArithOp::Sub) == null && told(ArithOp::Mul) == null
                && told(ArithOp::Div) == null && told(ArithOp::Mod) == null
            &&& a matches Value::Int(i) ==> {
                &&& i != i64::MIN ==> eval_of(Tree::Neg(Box::new(l)), row, names, reals) == is(-i)
                &&& b matches Value::Int(j) ==> {
                    &&& i64::MIN <= i + j <= i64::MAX ==> told(ArithOp::Add) == is(i + j)
                    &&& i64::MIN <= i - j <= i64::MAX ==> told(ArithOp::Sub) == is(i - j)
                    &&& i64::MIN <= i * j <= i64::MAX ==> told(ArithOp::Mul) == is(i * j)
                    &&& j == 0 ==> told(ArithOp::Div) == zero && told(ArithOp::Mod) == zero
                    &&& j != 0 && !(i == i64::MIN && j == -1) ==> {
                        &&& told(ArithOp::Div) matches Ok(Value::Int(q)) && told(ArithOp::Mod) matches Ok(Value::Int(m)) && {
                            &&& i == q * j + m
                            &&& -(if j < 0 { -j } else { j as int }) < m < (if j < 0 { -j } else { j as int })
                            &&& (i >= 0 ==> m >= 0) && (i <= 0 ==> m <= 0)
                        }
                    }
                }
            }
        }),
{
    let a = eval_of(l, row, names, reals)->Ok_0;
    let b = eval_of(r, row, names, reals)->Ok_0;
    let told = |op: ArithOp| eval_of(Tree::BinArith(op, Box::new(l), Box::new(r)), row, names, reals);
    assert forall|op: ArithOp| #[trigger] told(op) == arith_of(op, a, b, reals) by {
        assert(eval_of(Tree::BinArith(op, Box::new(l), Box::new(r)), row, names, reals) == arith_of(op, a, b, reals));
    }
    if let (Value::Int(i), Value::Int(j)) = (a, b) {
        numeric::lemma_int_result(i, j);
    }
}

/// The smallest and the greatest of a list: one of its values, and none is below or
/// above it.
pub proof fn lemma_best(s: Seq<Value>)
    requires
        s.len() > 0,
    ensures
        s.contains(best(s, true)),
        s.contains(best(s, false)),
        forall|i: int| 0 <= i < s.len() ==> value::value_side(#[trigger] s[i], best(s, true)) != Side::Below,
        forall|i: int| 0 <= i < s.len() ==> value::value_side(#[trigger] s[i], best(s, false)) != Side::Above,
    decreases s.len(),
{
    if s.len() == 1 {
        assert(s[0] == best(s, true) && s[0] == best(s, false));
        value::lemma_value_order(s[0], s[0], s[0]);
    } else {
        let d = s.drop_last();
        lemma_best(d);
        let n = s.len() - 1;
        let x = best(d, true);
        let y = best(d, false);
        assert(s[d.index_of(x)] == x);
        assert(s[d.index_of(y)] == y);
        assert(s[n] == s.last());
        assert forall|i: int| 0 <= i < s.len() implies value::value_side(#[trigger] s[i], best(s, true)) != Side::Below
            && value::value_side(s[i], best(s, false)) != Side::Above by {
            value::lemma_value_order(s[n], s[n], s[n]);
            if i < n {
                assert(d[i] == s[i]);
                value::lemma_value_order(s[n], x, s[i]);
                value::lemma_value_order(s[i], x, s[n]);
                value::lemma_value_order(s[n], y, s[i]);
                value::lemma_value_order(s[i], y, s[n]);
            }
        }
    }
}

/// The scalar functions. `min` and `max` give one of their arguments that no other is
/// below or above; `abs` gives the distance from zero; `ifnull` its first argument, or
/// the second for a null; `coalesce` its first argument that is not null; the null tests
/// tell null from the rest. A wrong number of arguments is an error.
pub proof fn lemma_calls(a: Seq<Value>, v: Value, w: Value)
    ensures
        a.len() >= 2 ==> {
            &&& call_of(Func::Min, a) matches Ok(m) && a.contains(m) && forall|i: int|
                0 <= i < a.len() ==> value::value_side(#[trigger] a[i], m) != Side::Below
            &&& call_of(Func::Max, a) matches Ok(m) && a.contains(m) && forall|i: int|
                0 <= i < a.len() ==> value::value_side(#[trigger] a[i], m) != Side::Above
        },
        a.len() < 2 ==> call_of(Func::Min, a) is Err && call_of(Func::Max, a) is Err,
        a.len() != 1 ==> call_of(Func::Abs, a) is Err && call_of(Func::Length, a) is Err && call_of(Func::IsNull, a) is Err
            && call_of(Func::IsNotNull, a) is Err,
        a.len() != 2 ==> call_of(Func::IfNull, a) is Err,
        a.len() == 0 ==> call_of(Func::Coalesce, a) is Err,
        v matches Value::Int(i) ==> i != i64::MIN ==> call_of(Func::Abs, seq![v]) == Ok::<Value, EvalFault>(
            Value::Int((if i < 0 { -i } else { i as int }) as i64),
        ),
        v matches Value::Real(x) ==> call_of(Func::Abs, seq![v]) matches Ok(Value::Real(y)) && y < 0x8000_0000_0000_0000 && (y
            == x || y + 0x8000_0000_0000_0000 == x),
        call_of(Func::IfNull, seq![v, w]) == Ok::<Value, EvalFault>(
            if v is Null {
                w
            } else {
                v
            },
        ),
        call_of(Func::IsNull, seq![v]) == Ok::<Value, EvalFault>(Value::Bool(v is Null)),
        call_of(Func::IsNotNull, seq![v]) == Ok::<Value, EvalFault>(Value::Bool(!(v is Null))),
        !(v is Null) ==> call_of(Func::Coalesce, seq![v] + a) == Ok::<Value, EvalFault>(v),
        a.len() > 0 ==> call_of(Func::Coalesce, seq![Value::Null] + a) == call_of(Func::Coalesce, a),
{
    if a.len() >= 2 {
        lemma_best(a);
    }
    let x = seq![v] + a;
    assert(x[0] == v);
    let y = seq![Value::Null] + a;
    assert(y[0] is Null);
    assert(y.skip(1) =~= a);
    reveal_with_fuel(first_set, 2);
}

// How operators bind

/// How tightly the operator of a token binds: disjunction the least, then conjunction,
/// comparison, sums and products; 0 where it is none.
#[verifier::opaque]
pub open spec fn strength(w: Seq<char>) -> int {
    if text::lowered(w) == seq!['o', 'r'] {
        1
    } else if text::lowered(w) == seq!['a', 'n', 'd'] {
        2
    } else if w == seq!['+'] || w == seq!['-'] {
        4
    } else if w == seq!['*'] || w == seq!['/'] || w == seq!['%'] {
        5
    } else if w == seq!['='] || w == seq!['=', '='] || w == seq!['!', '='] || w == seq!['<', '>'] || w == seq!['<'] || w
        == seq!['<', '='] || w == seq!['>'] || w == seq!['>', '='] {
        3
    } else {
        0
    }
}

#[verifier::opaque]
spec fn strength_at(t: Seq<Seq<char>>, p: int) -> int {
    if 0 <= p < t.len() {
        strength(t[p])
    } else {
        0
    }
}

/// The expression that an operator makes of two others.
#[verifier::opaque]
pub open spec fn linked(w: Seq<char>, x: Tree, y: Tree) -> Tree {
    let (l, r) = (Box::new(x), Box::new(y));
    if strength(w) == 1 {
        Tree::BinLogic(LogicOp::Or, l, r)
    } else if strength(w) == 2 {
        Tree::BinLogic(LogicOp::And, l, r)
    } else if w == seq!['+'] {
        Tree::BinArith(ArithOp::Add, l, r)
    } else if w == seq!['-'] {
        Tree::BinArith(ArithOp::Sub, l, r)
    } else if w == seq!['*'] {
        Tree::BinArith(ArithOp::Mul, l, r)
    } else if w == seq!['/'] {
        Tree::BinArith(ArithOp::Div, l, r)
    } else if w == seq!['%'] {
        Tree::BinArith(ArithOp::Mod, l, r)
    } else if w == seq!['='] || w == seq!['=', '='] {
        Tree::BinCmp(CmpOp::Eq, l, r)
    } else if w == seq!['!', '='] || w == seq!['<', '>'] {
        Tree::BinCmp(CmpOp::Ne, l, r)
    } else if w == seq!['<'] {
        Tree::BinCmp(CmpOp::Lt, l, r)
    } else if w == seq!['<', '='] {
        Tree::BinCmp(CmpOp::Le, l, r)
    } else if w == seq!['>'] {
        Tree::BinCmp(CmpOp::Gt, l, r)
    } else {
        Tree::BinCmp(CmpOp::Ge, l, r)
    }
}

/// A token that stands for itself: a literal or a name.
pub open spec fn operand(w: Seq<char>) -> bool {
    w != seq!['('] && w != seq!['+'] && w != seq!['-'] && text::lowered(w) != "not"@
}

/// What such a token stands for.
pub open spec fn leaf(w: Seq<char>) -> Tree {
    match literal(w) {
        Some(x) => x,
        None => Tree::ColName(w),
    }
}

/// What is read at a place by the operators that bind so tightly, and tighter.
#[verifier::opaque]
spec fn level(n: int, t: Seq<Seq<char>>, pos: int) -> Parsed {
    if n <= 1 {
        or_of(t, pos)
    } else if n == 2 {
        and_of(t, pos)
    } else if n == 3 {
        not_of(t, pos)
    } else if n == 4 {
        add_of(t, pos)
    } else if n == 5 {
        mul_of(t, pos)
    } else {
        unary_of(t, pos)
    }
}

/// What is read behind an expression by operators that bind so tightly.
#[verifier::opaque]
spec fn level_rest(n: int, t: Seq<Seq<char>>, pos: int, l: Tree) -> Parsed {
    if n <= 1 {
        or_rest(t, pos, l)
    } else if n == 2 {
        and_rest(t, pos, l)
    } else if n == 3 {
        Ok((l, pos))
    } else if n == 4 {
        add_rest(t, pos, l)
    } else {
        mul_rest(t, pos, l)
    }
}

proof fn lemma_strength(t: Seq<Seq<char>>, p: int)
    requires
        0 <= p,
    ensures
        strength_at(t, p) == 1 <==> keyword(t, p, "or"@),
        strength_at(t, p) == 2 <==> keyword(t, p, "and"@),
        strength_at(t, p) == 3 <==> p < t.len() && value::op_named(t[p]) is Some,
        strength_at(t, p) == 4 <==> sum_sign(t, p) is Some,
        strength_at(t, p) == 5 <==> factor_sign(t, p) is Some,
{
    reveal(strength);
    reveal(strength_at);
    reveal_strlit("or");
    reveal_strlit("and");
    assert("or"@ =~= seq!['o', 'r']);
    assert("and"@ =~= seq!['a', 'n', 'd']);
    if p < t.len() {
        let w = t[p];
        let l = text::lowered(w);
        assert(l.len() == w.len());
        if w.len() > 0 {
            assert(l[0] == text::lower_char(w[0]));
        }
        assert(seq!['+'].len() == 1 && seq!['o', 'r'].len() == 2 && seq!['a', 'n', 'd'].len() == 3);
        assert(seq!['o', 'r'][0] == 'o');
        assert(seq!['a', 'n', 'd'][0] == 'a');
        assert(seq!['+'][0] == '+' && seq!['-'][0] == '-' && seq!['*'][0] == '*' && seq!['/'][0] == '/' && seq!['%'][0] == '%');
        assert(seq!['='][0] == '=' && seq!['<'][0] == '<' && seq!['>'][0] == '>');
        assert(seq!['=', '='][0] == '=' && seq!['!', '='][0] == '!' && seq!['<', '>'][0] == '<' && seq!['<', '='][0] == '<'
            && seq!['>', '='][0] == '>');
        assert(seq!['=', '='].len() == 2 && seq!['!', '='].len() == 2 && seq!['<', '>'].len() == 2 && seq!['<', '='].len() == 2
            && seq!['>', '='].len() == 2);
    }
}

/// A step of a level: it goes on where the next operator is its own.
proof fn lemma_level_rest(n: int, t: Seq<Seq<char>>, q: int, x: Tree, y: Tree, p: int)
    requires
        1 <= n <= 5,
        0 <= q <= t.len(),
    ensures
        strength_at(t, q) != n ==> level_rest(n, t, q, x) == Ok::<(Tree, int), Seq<char>>((x, q)),
        n != 3 && strength_at(t, q) == n && level(n + 1, t, q + 1) == Ok::<(Tree, int), Seq<char>>((y, p)) && q < p
            <= t.len() ==> level_rest(n, t, q, x) == level_rest(n, t, p, linked(t[q], x, y)),
{
    reveal(strength);
    reveal(strength_at);
    reveal(linked);
    reveal(level);
    reveal(level_rest);
    lemma_strength(t, q);
}

/// An expression that a level reads is what the looser levels read, as long as no
/// operator of theirs follows; and the level of the operator that follows reads on.
proof fn lemma_level_up(n: int, t: Seq<Seq<char>>, pos: int, x: Tree, q: int, y: Tree, p: int)
    requires
        1 <= n <= 6,
        0 <= pos < q <= t.len(),
        n <= 3 || !keyword(t, pos, "not"@),
        level(n, t, pos) == Ok::<(Tree, int), Seq<char>>((x, q)),
        strength_at(t, q) < n,
    ensures
        forall|m: int|
            strength_at(t, q) < m <= n && 1 <= m ==> #[trigger] level(m, t, pos) == Ok::<(Tree, int), Seq<char>>((x, q)),
        ({
            let j = strength_at(t, q);
            1 <= j && level(j + 1, t, q + 1) == Ok::<(Tree, int), Seq<char>>((y, p)) && q < p <= t.len() ==> level(
                j,
                t,
                pos,
            ) == level_rest(j, t, p, linked(t[q], x, y))
        }),
    decreases n,
{
    reveal(strength);
    reveal(strength_at);
    reveal(linked);
    reveal(level);
    reveal(level_rest);
    let j = strength_at(t, q);
    lemma_strength(t, q);
    if n > 1 {
        lemma_level_rest(n - 1, t, q, x, y, p);
        if n == 4 {
            assert(not_of(t, pos) == comparison_of(t, pos));
            if j != 3 {
                assert(comparison_of(t, pos) == Ok::<(Tree, int), Seq<char>>((x, q)));
            } else if level(4, t, q + 1) == Ok::<(Tree, int), Seq<char>>((y, p)) {
                assert(comparison_of(t, pos) == Ok::<(Tree, int), Seq<char>>((linked(t[q], x, y), p)));
            }
        } else {
            assert(level(n - 1, t, pos) == level_rest(n - 1, t, q, x));
        }
        if j < n - 1 {
            lemma_level_up(n - 1, t, pos, x, q, y, p);
        }
    }
}

proof fn lemma_operand(t: Seq<Seq<char>>, pos: int)
    requires
        0 <= pos < t.len(),
        operand(t[pos]),
        !sign_at(t, pos + 1, '('),
    ensures
        unary_of(t, pos) == Ok::<(Tree, int), Seq<char>>((leaf(t[pos]), pos + 1)),
        !keyword(t, pos, "not"@),
{
    assert(atom_of(t, pos) == Ok::<(Tree, int), Seq<char>>((leaf(t[pos]), pos + 1)));
}

/// An operator is no bracket.
proof fn lemma_operator(w: Seq<char>)
    requires
        strength(w) > 0,
    ensures
        w != seq!['('],
        strength(w) <= 5,
{
    reveal(strength);
    assert(text::lowered(seq!['(']).len() == 1);
    assert(seq!['('][0] == '(');
    assert(seq!['+'][0] == '+' && seq!['-'][0] == '-' && seq!['*'][0] == '*' && seq!['/'][0] == '/' && seq!['%'][0] == '%');
    assert(seq!['='][0] == '=' && seq!['<'][0] == '<' && seq!['>'][0] == '>');
    assert(seq!['=', '='].len() == 2 && seq!['!', '='].len() == 2 && seq!['<', '>'].len() == 2 && seq!['<', '='].len() == 2
        && seq!['>', '='].len() == 2);
}

/// Of two operators between three operands the one that binds tighter takes its
/// operands first, and of two that bind alike the left one. Two comparisons do not stand
/// beside each other.
#[verifier::spinoff_prover]
#[verifier::rlimit(60)]
pub proof fn lemma_precedence(a: Seq<char>, s: Seq<char>, b: Seq<char>, r: Seq<char>, c: Seq<char>)
    requires
        operand(a) && operand(b) && operand(c),
        strength(s) > 0 && strength(r) > 0,
        strength(s) != 3 || strength(r) != 3,
    ensures
        parse_of(seq![a, s, b, r, c]) == Ok::<Tree, Seq<char>>(
            if strength(s) < strength(r) {
                linked(s, leaf(a), linked(r, leaf(b), leaf(c)))
            } else {
                linked(r, linked(s, leaf(a), leaf(b)), leaf(c))
            },
        ),
{
    let t = seq![a, s, b, r, c];
    lemma_operator(s);
    lemma_operator(r);
    assert(t.len() == 5 && t[0] == a && t[1] == s && t[2] == b && t[3] == r && t[4] == c);
    assert(strength_at(t, 5) == 0 && strength_at(t, 3) == strength(r) && strength_at(t, 1) == strength(s)) by {
        reveal(strength_at);
    }
    lemma_operand(t, 0);
    lemma_operand(t, 2);
    lemma_operand(t, 4);
    assert(level(6, t, 0) == unary_of(t, 0) && level(6, t, 2) == unary_of(t, 2) && level(6, t, 4) == unary_of(t, 4)) by {
        reveal(level);
    }
    lemma_three(t, leaf(a), leaf(b), leaf(c));
    lemma_parsed(t);
}

proof fn lemma_parsed(t: Seq<Seq<char>>)
    requires
        level(1, t, 0) is Ok,
        level(1, t, 0)->Ok_0.1 == t.len(),
    ensures
        parse_of(t) == Ok::<Tree, Seq<char>>(level(1, t, 0)->Ok_0.0),
{
    reveal(level);
}

/// What three operands and two operators between them are read as.
proof fn lemma_three(t: Seq<Seq<char>>, x: Tree, y: Tree, z: Tree)
    requires
        t.len() == 5,
        1 <= strength_at(t, 1) <= 5 && 1 <= strength_at(t, 3) <= 5 && strength_at(t, 5) == 0,
        strength_at(t, 1) != 3 || strength_at(t, 3) != 3,
        !keyword(t, 0, "not"@) && !keyword(t, 2, "not"@) && !keyword(t, 4, "not"@),
        level(6, t, 0) == Ok::<(Tree, int), Seq<char>>((x, 1)),
        level(6, t, 2) == Ok::<(Tree, int), Seq<char>>((y, 3)),
        level(6, t, 4) == Ok::<(Tree, int), Seq<char>>((z, 5)),
    ensures
        level(1, t, 0) == Ok::<(Tree, int), Seq<char>>(
            (
                if strength_at(t, 1) < strength_at(t, 3) {
                    linked(t[1], x, linked(t[3], y, z))
                } else {
                    linked(t[3], linked(t[1], x, y), z)
                },
                5,
            ),
        ),
{
    let k: int = strength_at(t, 1);
    let j: int = strength_at(t, 3);
    lemma_level_up(6, t, 4, z, 5, z, 5);
    assert(level(j + 1, t, 4) == Ok::<(Tree, int), Seq<char>>((z, 5)));
    lemma_level_up(6, t, 2, y, 3, z, 5);
    let yz = linked(t[3], y, z);
    lemma_level_rest(j, t, 5, yz, z, 5);
    lemma_level_up(j, t, 2, yz, 5, z, 5);
    if k < j {
        assert(level(k + 1, t, 2) == Ok::<(Tree, int), Seq<char>>((yz, 5)));
        lemma_level_up(6, t, 0, x, 1, yz, 5);
        let all = linked(t[1], x, yz);
        lemma_level_rest(k, t, 5, all, z, 5);
        lemma_level_up(k, t, 0, all, 5, z, 5);
        assert(level(1, t, 0) == Ok::<(Tree, int), Seq<char>>((all, 5)));
    } else {
        assert(level(k + 1, t, 2) == Ok::<(Tree, int), Seq<char>>((y, 3)));
        lemma_level_up(6, t, 0, x, 1, y, 3);
        let xy = linked(t[1], x, y);
        let all = linked(t[3], xy, z);
        lemma_level_rest(k, t, 3, xy, z, 5);
        if j < k {
            lemma_level_up(k, t, 0, xy, 3, z, 5);
        }
        assert(level(j, t, 0) == level_rest(j, t, 5, all));
        lemma_level_rest(j, t, 5, all, z, 5);
        lemma_level_up(j, t, 0, all, 5, z, 5);
        assert(level(1, t, 0) == Ok::<(Tree, int), Seq<char>>((all, 5)));
    }
}

/// What two operands and an operator between them are read as.
proof fn lemma_two(t: Seq<Seq<char>>, pos: int, x: Tree, y: Tree)
    requires
        0 <= pos && pos + 3 <= t.len(),
        1 <= strength_at(t, pos + 1) <= 5 && strength_at(t, pos + 3) == 0,
        !keyword(t, pos, "not"@) && !keyword(t, pos + 2, "not"@),
        level(6, t, pos) == Ok::<(Tree, int), Seq<char>>((x, pos + 1)),
        level(6, t, pos + 2) == Ok::<(Tree, int), Seq<char>>((y, pos + 3)),
    ensures
        forall|m: int|
            1 <= m <= strength_at(t, pos + 1) ==> #[trigger] level(m, t, pos) == Ok::<(Tree, int), Seq<char>>(
                (linked(t[pos + 1], x, y), pos + 3),
            ),
        forall|m: int|
            strength_at(t, pos + 1) < m <= 6 ==> #[trigger] level(m, t, pos) == Ok::<(Tree, int), Seq<char>>((x, pos + 1)),
{
    let k: int = strength_at(t, pos + 1);
    lemma_level_up(6, t, pos + 2, y, pos + 3, y, pos + 3);
    assert(level(k + 1, t, pos + 2) == Ok::<(Tree, int), Seq<char>>((y, pos + 3)));
    lemma_level_up(6, t, pos, x, pos + 1, y, pos + 3);
    let xy = linked(t[pos + 1], x, y);
    lemma_level_rest(k, t, pos + 3, xy, y, pos + 3);
    lemma_level_up(k, t, pos, xy, pos + 3, y, pos + 3);
}

/// Brackets come before any operator, whichever binds tighter.
#[verifier::spinoff_prover]
#[verifier::rlimit(60)]
pub proof fn lemma_brackets(a: Seq<char>, s: Seq<char>, b: Seq<char>, r: Seq<char>, c: Seq<char>)
    requires
        operand(a) && operand(b) && operand(c),
        strength(s) > 0 && strength(r) > 0,
    ensures
        parse_of(seq![seq!['('], a, s, b, seq![')'], r, c]) == Ok::<Tree, Seq<char>>(
            linked(r, linked(s, leaf(a), leaf(b)), leaf(c)),
        ),
{
    let t = seq![seq!['('], a, s, b, seq![')'], r, c];
    let ab = linked(s, leaf(a), leaf(b));
    lemma_operator(s);
    lemma_operator(r);
    lemma_closing();
    assert(t.len() == 7 && t[0] == seq!['('] && t[1] == a && t[2] == s && t[3] == b && t[4] == seq![')'] && t[5] == r && t[6]
        == c);
    assert(strength_at(t, 7) == 0 && strength_at(t, 5) == strength(r) && strength_at(t, 2) == strength(s) && strength_at(
        t,
        4,
    ) == 0) by {
        reveal(strength_at);
    }
    lemma_operand(t, 1);
    lemma_operand(t, 3);
    lemma_operand(t, 6);
    assert(level(6, t, 1) == unary_of(t, 1) && level(6, t, 3) == unary_of(t, 3) && level(6, t, 6) == unary_of(t, 6)) by {
        reveal(level);
    }
    lemma_two(t, 1, leaf(a), leaf(b));
    assert(level(1, t, 1) == Ok::<(Tree, int), Seq<char>>((ab, 4)));
    lemma_bracket(t, ab, 4);
    lemma_two_apart(t, ab, leaf(c));
    lemma_parsed(t);
}

proof fn lemma_closing()
    ensures
        strength(seq![')']) == 0,
        seq![')'] != seq!['('],
{
    reveal(strength);
    assert(text::lowered(seq![')']).len() == 1);
    assert(seq![')'][0] == ')' && seq!['('][0] == '(');
    assert(seq!['+'][0] == '+' && seq!['-'][0] == '-' && seq!['*'][0] == '*' && seq!['/'][0] == '/' && seq!['%'][0] == '%');
    assert(seq!['='][0] == '=' && seq!['<'][0] == '<' && seq!['>'][0] == '>');
    assert(seq!['=', '='].len() == 2 && seq!['!', '='].len() == 2 && seq!['<', '>'].len() == 2 && seq!['<', '='].len() == 2
        && seq!['>', '='].len() == 2);
}

/// What stands in brackets is read as one.
proof fn lemma_bracket(t: Seq<Seq<char>>, x: Tree, q: int)
    requires
        0 < q < t.len(),
        t[0] == seq!['('],
        t[q] == seq![')'],
        level(1, t, 1) == Ok::<(Tree, int), Seq<char>>((x, q)),
    ensures
        level(6, t, 0) == Ok::<(Tree, int), Seq<char>>((x, q + 1)),
        !keyword(t, 0, "not"@),
{
    reveal(level);
    reveal_strlit("not");
    assert(text::lowered(t[0]).len() == 1);
    assert(seq!['('][0] == '(' && seq!['+'][0] == '+' && seq!['-'][0] == '-');
    assert(atom_of(t, 0) == Ok::<(Tree, int), Seq<char>>((x, q + 1)));
}

/// What brackets, an operator behind them and an operand are read as.
proof fn lemma_two_apart(t: Seq<Seq<char>>, x: Tree, y: Tree)
    requires
        t.len() == 7,
        1 <= strength_at(t, 5) <= 5 && strength_at(t, 7) == 0,
        !keyword(t, 0, "not"@) && !keyword(t, 6, "not"@),
        level(6, t, 0) == Ok::<(Tree, int), Seq<char>>((x, 5)),
        level(6, t, 6) == Ok::<(Tree, int), Seq<char>>((y, 7)),
    ensures
        level(1, t, 0) == Ok::<(Tree, int), Seq<char>>((linked(t[5], x, y), 7)),
{
    let k: int = strength_at(t, 5);
    lemma_level_up(6, t, 6, y, 7, y, 7);
    assert(level(k + 1, t, 6) == Ok::<(Tree, int), Seq<char>>((y, 7)));
    lemma_level_up(6, t, 0, x, 5, y, 7);
    let xy = linked(t[5], x, y);
    lemma_level_rest(k, t, 7, xy, y, 7);
    lemma_level_up(k, t, 0, xy, 7, y, 7);
    assert(level(1, t, 0) == Ok::<(Tree, int), Seq<char>>((xy, 7)));
}

/// A minus sign in front takes the operand behind it before any operator. `not` takes
/// comparisons, sums and products before it, and comes before conjunction and
/// disjunction.
#[verifier::spinoff_prover]
#[verifier::rlimit(60)]
pub proof fn lemma_prefixes(n: Seq<char>, a: Seq<char>, s: Seq<char>, b: Seq<char>)
    requires
        operand(a) && operand(b),
        strength(s) > 0,
        text::lowered(n) == "not"@,
    ensures
        parse_of(seq![seq!['-'], a, s, b]) == Ok::<Tree, Seq<char>>(linked(s, Tree::Neg(Box::new(leaf(a))), leaf(b))),
        parse_of(seq![n, a, s, b]) == Ok::<Tree, Seq<char>>(
            if strength(s) < 3 {
                linked(s, Tree::Not(Box::new(leaf(a))), leaf(b))
            } else {
                Tree::Not(Box::new(linked(s, leaf(a), leaf(b))))
            },
        ),
{
    lemma_operator(s);
    lemma_signed(seq![seq!['-'], a, s, b]);
    lemma_denied(seq![n, a, s, b]);
}

proof fn lemma_signed(t: Seq<Seq<char>>)
    requires
        t.len() == 4,
        t[0] == seq!['-'],
        operand(t[1]) && operand(t[3]),
        1 <= strength(t[2]) <= 5,
        t[2] != seq!['('],
    ensures
        parse_of(t) == Ok::<Tree, Seq<char>>(linked(t[2], Tree::Neg(Box::new(leaf(t[1]))), leaf(t[3]))),
{
    let x = Tree::Neg(Box::new(leaf(t[1])));
    let y = leaf(t[3]);
    let k: int = strength(t[2]);
    lemma_operand(t, 1);
    lemma_operand(t, 3);
    assert(strength_at(t, 4) == 0 && strength_at(t, 2) == k) by {
        reveal(strength_at);
    }
    assert(!keyword(t, 0, "not"@)) by {
        reveal_strlit("not");
        assert(text::lowered(t[0]).len() == 1);
    }
    assert(unary_of(t, 0) == Ok::<(Tree, int), Seq<char>>((x, 2)));
    assert(level(6, t, 0) == unary_of(t, 0) && level(6, t, 3) == unary_of(t, 3)) by {
        reveal(level);
    }
    lemma_level_up(6, t, 3, y, 4, y, 4);
    assert(level(k + 1, t, 3) == Ok::<(Tree, int), Seq<char>>((y, 4)));
    lemma_level_up(6, t, 0, x, 2, y, 4);
    let xy = linked(t[2], x, y);
    lemma_level_rest(k, t, 4, xy, y, 4);
    lemma_level_up(k, t, 0, xy, 4, y, 4);
    assert(level(1, t, 0) == Ok::<(Tree, int), Seq<char>>((xy, 4)));
    lemma_parsed(t);
}

proof fn lemma_denied(t: Seq<Seq<char>>)
    requires
        t.len() == 4,
        text::lowered(t[0]) == "not"@,
        operand(t[1]) && operand(t[3]),
        1 <= strength(t[2]) <= 5,
        t[2] != seq!['('],
    ensures
        parse_of(t) == Ok::<Tree, Seq<char>>(
            if strength(t[2]) < 3 {
                linked(t[2], Tree::Not(Box::new(leaf(t[1]))), leaf(t[3]))
            } else {
                Tree::Not(Box::new(linked(t[2], leaf(t[1]), leaf(t[3]))))
            },
        ),
{
    let y = leaf(t[3]);
    let k: int = strength(t[2]);
    lemma_operand(t, 1);
    lemma_operand(t, 3);
    assert(strength_at(t, 4) == 0 && strength_at(t, 2) == k) by {
        reveal(strength_at);
    }
    assert(level(6, t, 1) == unary_of(t, 1) && level(6, t, 3) == unary_of(t, 3)) by {
        reveal(level);
    }
    lemma_two(t, 1, leaf(t[1]), y);
    let inner = level(3, t, 1)->Ok_0.0;
    let x = Tree::Not(Box::new(inner));
    assert(level(3, t, 1) is Ok);
    assert(level(3, t, 0) == Ok::<(Tree, int), Seq<char>>((x, level(3, t, 1)->Ok_0.1))) by {
        reveal(level);
    }
    if k < 3 {
        lemma_level_up(6, t, 3, y, 4, y, 4);
        assert(level(k + 1, t, 3) == Ok::<(Tree, int), Seq<char>>((y, 4)));
        lemma_level_up(3, t, 0, x, 2, y, 4);
        let xy = linked(t[2], x, y);
        lemma_level_rest(k, t, 4, xy, y, 4);
        lemma_level_up(k, t, 0, xy, 4, y, 4);
        assert(level(1, t, 0) == Ok::<(Tree, int), Seq<char>>((xy, 4)));
    } else {
        lemma_level_up(3, t, 0, x, 4, y, 4);
        assert(level(1, t, 0) == Ok::<(Tree, int), Seq<char>>((x, 4)));
    }
    lemma_parsed(t);
}

// What tokens are

proof fn lemma_word_len(w: Seq<char>, rest: Seq<char>)
    requires
        forall|i: int| 0 <= i < w.len() ==> !is_gap(#[trigger] w[i]) && !is_sign(w[i]),
        rest.len() == 0 || is_gap(rest[0]) || is_sign(rest[0]),
    ensures
        word_len(w + rest) == w.len(),
    decreases w.len(),
{
    if w.len() == 0 {
        assert(w + rest =~= rest);
    } else {
        assert((w + rest).skip(1) =~= w.skip(1) + rest);
        assert(!is_gap(w[0]) && !is_sign(w[0]));
        assert forall|i: int| 0 <= i < w.skip(1).len() implies !is_gap(#[trigger] w.skip(1)[i]) && !is_sign(w.skip(1)[i]) by {
            assert(w.skip(1)[i] == w[i + 1]);
        }
        lemma_word_len(w.skip(1), rest);
    }
}

/// Tokens from the front of a text: a space is none; a bracket, a comma or an arithmetic
/// sign is one by itself; so is a word of letters, digits, dots and underscores that a
/// space or a bracket ends.
pub proof fn lemma_tokens(c: char, w: Seq<char>, g: char, rest: Seq<char>)
    requires
        w.len() > 0,
        forall|i: int|
            0 <= i < w.len() ==> ('a' <= #[trigger] w[i] <= 'z' || 'A' <= w[i] <= 'Z' || '0' <= w[i] <= '9' || w[i] == '_'
                || w[i] == '.'),
        g == ' ' || g == ')',
        tokens(rest) is Some,
    ensures
        tokens(Seq::empty()) == Some(Seq::<Seq<char>>::empty()),
        tokens(seq![' '] + rest) == tokens(rest),
        c == '(' || c == ')' || c == ',' || c == '+' || c == '-' || c == '*' || c == '/' || c == '%' ==> tokens(
            seq![c] + rest,
        ) == Some(seq![seq![c]] + tokens(rest)->0),
        tokens(w) == Some(seq![w]),
        g == ' ' ==> tokens(w + (seq![g] + rest)) == Some(seq![w] + tokens(rest)->0),
        g == ')' ==> tokens(w + (seq![g] + rest)) == Some(seq![w] + (seq![seq![g]] + tokens(rest)->0)),
{
    let none = Seq::<char>::empty();
    assert((seq![' '] + rest).skip(1) =~= rest);
    assert((seq![c] + rest).skip(1) =~= rest);
    assert((seq![c] + rest).take(1) =~= seq![c]);
    assert(!is_gap(w[0]) && !is_sign(w[0]));
    assert forall|i: int| 0 <= i < w.len() implies !is_gap(#[trigger] w[i]) && !is_sign(w[i]) by {}
    let b = seq![g] + rest;
    assert(b.skip(1) =~= rest);
    assert(b.take(1) =~= seq![g]);
    assert(b[0] == g);
    lemma_word_len(w, none);
    lemma_word_len(w, b);
    assert(w + none =~= w);
    assert(w.skip(w.len() as int) =~= none);
    assert(w.take(w.len() as int) =~= w);
    assert(seq![w] + Seq::<Seq<char>>::empty() =~= seq![w]);
    let t = w + b;
    assert(t[0] == w[0]);
    assert(w[0] != '"' && w[0] != '=' && w[0] != '!' && w[0] != '<' && w[0] != '>');
    assert(t.skip(w.len() as int) =~= b);
    assert(t.take(w.len() as int) =~= w);
    assert(token_len(t) == Some(w.len()));
    assert(token_len(w) == Some(w.len()));
    assert(tokens(w.skip(w.len() as int)) == Some(Seq::<Seq<char>>::empty()));
    assert(g == ' ' ==> tokens(b) == tokens(rest));
    assert(g == ')' ==> tokens(b) == Some(seq![seq![g]] + tokens(rest)->0));
}

} // verus!
