//! The parts of a parsed `SELECT` that planning works on.

use vstd::prelude::*;

use crate::text;

verus! {

/// A unary operator.
#[derive(Debug, Clone, Copy, PartialEq, Eq, Structural)]
pub enum UnaryOp {
    Neg,
    Not,
}

/// A binary operator.
#[derive(Debug, Clone, Copy, PartialEq, Eq, Structural)]
pub enum BinOp {
    Add,
    Sub,
    Mul,
    Div,
    Mod,
    Eq,
    NotEq,
    Lt,
    LtEq,
    Gt,
    GtEq,
    And,
    Or,
}

/// An aggregate function.
#[derive(Debug, Clone, Copy, PartialEq, Eq, Structural)]
pub enum AggFunc {
    Count,
    Sum,
    Avg,
    Min,
    Max,
}

/// The kind of a join.
#[derive(Debug, Clone, Copy, PartialEq, Eq, Structural)]
pub enum JoinKind {
    Inner,
    Left,
    Right,
    Full,
    Cross,
}

/// An expression. A real literal holds its bits.
#[derive(Debug, PartialEq)]
pub enum Expr {
    LitInt(i64),
    LitReal(u64),
    LitBool(bool),
    LitStr(String),
    Null,
    Column(String),
    Qualified(String, String),
    Unary(UnaryOp, Box<Expr>),
    Binary(BinOp, Box<Expr>, Box<Expr>),
    /// Whether an expression is null; the flag turns the answer round.
    IsNull(Box<Expr>, bool),
    Between(Box<Expr>, Box<Expr>, Box<Expr>),
    InList(Box<Expr>, Vec<Expr>),
    Like(Box<Expr>, Box<Expr>),
    Aggregate(AggFunc, Box<Expr>),
    Star,
}

/// An expression with its names as characters.
pub enum Node {
    LitInt(i64),
    LitReal(u64),
    LitBool(bool),
    LitStr(Seq<char>),
    Null,
    Column(Seq<char>),
    Qualified(Seq<char>, Seq<char>),
    Unary(UnaryOp, Box<Node>),
    Binary(BinOp, Box<Node>, Box<Node>),
    IsNull(Box<Node>, bool),
    Between(Box<Node>, Box<Node>, Box<Node>),
    InList(Box<Node>, Seq<Node>),
    Like(Box<Node>, Box<Node>),
    Aggregate(AggFunc, Box<Node>),
    Star,
}

pub open spec fn node(e: Expr) -> Node
    decreases e,
{
    match e {
        Expr::LitInt(i) => Node::LitInt(i),
        Expr::LitReal(b) => Node::LitReal(b),
        Expr::LitBool(b) => Node::LitBool(b),
        Expr::LitStr(s) => Node::LitStr(s@),
        Expr::Null => Node::Null,
        Expr::Column(c) => Node::Column(c@),
        Expr::Qualified(q, c) => Node::Qualified(q@, c@),
        Expr::Unary(op, a) => Node::Unary(op, Box::new(node(*a))),
        Expr::Binary(op, a, b) => Node::Binary(op, Box::new(node(*a)), Box::new(node(*b))),
        Expr::IsNull(a, neg) => Node::IsNull(Box::new(node(*a)), neg),
        Expr::Between(a, b, c) => Node::Between(Box::new(node(*a)), Box::new(node(*b)), Box::new(node(*c))),
        Expr::InList(a, l) => Node::InList(Box::new(node(*a)), nodes(l@)),
        Expr::Like(a, b) => Node::Like(Box::new(node(*a)), Box::new(node(*b))),
        Expr::Aggregate(f, a) => Node::Aggregate(f, Box::new(node(*a))),
        Expr::Star => Node::Star,
    }
}

pub open spec fn nodes(v: Seq<Expr>) -> Seq<Node>
    decreases v,
{
    if v.len() == 0 {
        Seq::empty()
    } else {
        nodes(v.drop_last()).push(node(v.last()))
    }
}

pub proof fn lemma_nodes(v: Seq<Expr>)
    ensures
        nodes(v).len() == v.len(),
        forall|i: int| 0 <= i < v.len() ==> #[trigger] nodes(v)[i] == node(v[i]),
    decreases v,
{
    if v.len() > 0 {
        lemma_nodes(v.drop_last());
    }
}

/// A copy of a text.
pub fn copy_text(s: &String) -> (r: String)
    ensures
        r@ == s@,
{
    let v = text::chars_of(s.as_str());
    text::string_of(&v)
}

/// A copy of a text that may be missing.
pub fn copy_name(s: &Option<String>) -> (r: Option<String>)
    ensures
        name_view(r) == name_view(*s),
{
    match s {
        Some(t) => Some(copy_text(t)),
        None => None,
    }
}

/// The characters of a text that may be missing.
pub open spec fn name_view(s: Option<String>) -> Option<Seq<char>> {
    match s {
        Some(t) => Some(t@),
        None => None,
    }
}

/// A copy of an expression.
pub fn copy(e: &Expr) -> (r: Expr)
    ensures
        node(r) == node(*e),
    decreases e,
{
    match e {
        Expr::LitInt(i) => Expr::LitInt(*i),
        Expr::LitReal(b) => Expr::LitReal(*b),
        Expr::LitBool(b) => Expr::LitBool(*b),
        Expr::LitStr(s) => Expr::LitStr(copy_text(s)),
        Expr::Null => Expr::Null,
        Expr::Column(c) => Expr::Column(copy_text(c)),
        Expr::Qualified(q, c) => Expr::Qualified(copy_text(q), copy_text(c)),
        Expr::Unary(op, a) => Expr::Unary(*op, Box::new(copy(a))),
        Expr::Binary(op, a, b) => Expr::Binary(*op, Box::new(copy(a)), Box::new(copy(b))),
        Expr::IsNull(a, neg) => Expr::IsNull(Box::new(copy(a)), *neg),
        Expr::Between(a, b, c) => Expr::Between(Box::new(copy(a)), Box::new(copy(b)), Box::new(copy(c))),
        Expr::InList(a, l) => {
            let p = copy(a);
            let mut v: Vec<Expr> = Vec::new();
            let mut i: usize = 0;
            proof {
                lemma_nodes(l@);
            }
            while i < l.len()
                invariant
                    i <= l.len(),
                    decreases_to!(e => l@),
                    nodes(l@).len() == l@.len(),
                    forall|k: int| 0 <= k < l@.len() ==> #[trigger] nodes(l@)[k] == node(l@[k]),
                    nodes(v@) == nodes(l@).take(i as int),
                decreases l.len() - i,
            {
                let x = copy(&l[i]);
                let ghost was = v@;
                v.push(x);
                proof {
                    assert(v@.drop_last() =~= was);
                    assert(nodes(l@).take(i + 1) =~= nodes(l@).take(i as int).push(nodes(l@)[i as int]));
                }
                i += 1;
            }
            assert(nodes(v@) =~= nodes(l@));
            Expr::InList(Box::new(p), v)
        },
        Expr::Like(a, b) => Expr::Like(Box::new(copy(a)), Box::new(copy(b))),
        Expr::Aggregate(f, a) => Expr::Aggregate(*f, Box::new(copy(a))),
        Expr::Star => Expr::Star,
    }
}

/// Copies of expressions.
pub fn copy_all(l: &Vec<Expr>) -> (v: Vec<Expr>)
    ensures
        nodes(v@) == nodes(l@),
{
    let mut v: Vec<Expr> = Vec::new();
    let mut i: usize = 0;
    proof {
        lemma_nodes(l@);
    }
    while i < l.len()
        invariant
            i <= l.len(),
            nodes(l@).len() == l@.len(),
            forall|k: int| 0 <= k < l@.len() ==> #[trigger] nodes(l@)[k] == node(l@[k]),
            nodes(v@) == nodes(l@).take(i as int),
        decreases l.len() - i,
    {
        let x = copy(&l[i]);
        let ghost was = v@;
        v.push(x);
        proof {
            assert(v@.drop_last() =~= was);
            assert(nodes(l@).take(i + 1) =~= nodes(l@).take(i as int).push(nodes(l@)[i as int]));
        }
        i += 1;
    }
    assert(nodes(v@) =~= nodes(l@));
    v
}

/// Whether two expressions are the same.
pub fn same(a: &Expr, b: &Expr) -> (r: bool)
    ensures
        r == (node(*a) == node(*b)),
    decreases a,
{
    match (a, b) {
        (Expr::LitInt(x), Expr::LitInt(y)) => *x == *y,
        (Expr::LitReal(x), Expr::LitReal(y)) => *x == *y,
        (Expr::LitBool(x), Expr::LitBool(y)) => *x == *y,
        (Expr::LitStr(x), Expr::LitStr(y)) => text::same_text(x.as_str(), y.as_str()),
        (Expr::Null, Expr::Null) => true,
        (Expr::Column(x), Expr::Column(y)) => text::same_text(x.as_str(), y.as_str()),
        (Expr::Qualified(p, x), Expr::Qualified(q, y)) => text::same_text(p.as_str(), q.as_str()) && text::same_text(
            x.as_str(),
            y.as_str(),
        ),
        (Expr::Unary(f, x), Expr::Unary(g, y)) => *f == *g && same(x, y),
        (Expr::Binary(f, x, u), Expr::Binary(g, y, v)) => *f == *g && same(x, y) && same(u, v),
        (Expr::IsNull(x, f), Expr::IsNull(y, g)) => *f == *g && same(x, y),
        (Expr::Between(x, u, p), Expr::Between(y, v, q)) => same(x, y) && same(u, v) && same(p, q),
        (Expr::InList(x, l), Expr::InList(y, m)) => {
            proof {
                lemma_nodes(l@);
                lemma_nodes(m@);
            }
            if !same(x, y) || l.len() != m.len() {
                return false;
            }
            let mut i: usize = 0;
            while i < l.len()
                invariant
                    i <= l.len(),
                    l@.len() == m@.len(),
                    decreases_to!(a => l@),
                    a matches Expr::InList(_, _),
                    nodes(l@).len() == l@.len(),
                    nodes(m@).len() == m@.len(),
                    forall|k: int| 0 <= k < l@.len() ==> #[trigger] nodes(l@)[k] == node(l@[k]),
                    forall|k: int| 0 <= k < m@.len() ==> #[trigger] nodes(m@)[k] == node(m@[k]),
                    forall|k: int| 0 <= k < i ==> nodes(l@)[k] == nodes(m@)[k],
                    node(*a) == Node::InList(Box::new(node(**x)), nodes(l@)),
                    node(*b) == Node::InList(Box::new(node(**y)), nodes(m@)),
                decreases l.len() - i,
            {
                if !same(&l[i], &m[i]) {
                    assert(nodes(l@)[i as int] != nodes(m@)[i as int]);
                    return false;
                }
                i += 1;
            }
            assert(nodes(l@) =~= nodes(m@));
            true
        },
        (Expr::Like(x, u), Expr::Like(y, v)) => same(x, y) && same(u, v),
        (Expr::Aggregate(f, x), Expr::Aggregate(g, y)) => *f == *g && same(x, y),
        (Expr::Star, Expr::Star) => true,
        _ => false,
    }
}

/// One item of the select list.
#[derive(Debug, PartialEq)]
pub struct SelectItem {
    pub expr: Expr,
    pub alias: Option<String>,
}

/// One joined table.
#[derive(Debug, PartialEq)]
pub struct JoinClause {
    pub kind: JoinKind,
    pub table: String,
    pub alias: Option<String>,
    pub on: Expr,
}

/// One sort key.
#[derive(Debug, PartialEq)]
pub struct OrderItem {
    pub expr: Expr,
    pub ascending: bool,
}

/// A parsed `SELECT`.
#[derive(Debug, PartialEq)]
pub struct SelectStmt {
    pub distinct: bool,
    pub items: Vec<SelectItem>,
    pub from: Option<String>,
    pub from_alias: Option<String>,
    pub joins: Vec<JoinClause>,
    pub filter: Option<Expr>,
    pub group_by: Vec<Expr>,
    pub having: Option<Expr>,
    pub order_by: Vec<OrderItem>,
    pub limit: Option<i64>,
    pub offset: Option<i64>,
}

} // verus!
