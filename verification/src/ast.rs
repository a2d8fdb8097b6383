//! The syntax tree of Monkey programs, and its mathematical model.
use vstd::prelude::*;

verus! {

/// The name of a binding or of a parameter.
#[derive(Debug)]
pub struct Ident(pub String);

/// A literal constant as it stands in the source.
#[derive(Debug)]
pub enum Literal {
    IntLiteral(i64),
    BoolLiteral(bool),
    StringLiteral(String),
}

/// The prefix operators `+`, `-` and `!`.
#[derive(Clone, Copy, Debug, PartialEq, Eq, Structural)]
pub enum Prefix {
    PrefixPlus,
    PrefixMinus,
    Not,
}

/// The binary operators.
#[derive(Clone, Copy, Debug, PartialEq, Eq, Structural)]
pub enum Infix {
    Plus,
    Minus,
    Divide,
    Multiply,
    Equal,
    NotEqual,
    GreaterThanEqual,
    GreaterThan,
    LessThanEqual,
    LessThan,
}

/// An expression.
#[derive(Debug)]
pub enum Expr {
    IdentExpr(Ident),
    LitExpr(Literal),
    PrefixExpr(Prefix, Box<Expr>),
    InfixExpr(Infix, Box<Expr>, Box<Expr>),
    IfExpr { cond: Box<Expr>, consequence: BlockStmt, alternative: Option<BlockStmt> },
    FnExpr { params: Vec<Ident>, body: BlockStmt },
    CallExpr { function: Box<Expr>, arguments: Vec<Expr> },
    ArrayExpr(Vec<Expr>),
    HashExpr(Vec<(Literal, Expr)>),
    IndexExpr { array: Box<Expr>, index: Box<Expr> },
}

/// A statement.
#[derive(Debug)]
pub enum Stmt {
    LetStmt(Ident, Expr),
    ReturnStmt(Expr),
    ExprStmt(Expr),
}

/// A sequence of statements in braces.
pub type BlockStmt = Vec<Stmt>;

/// A whole program: its statements in order.
pub type Program = Vec<Stmt>;

// ---------------------------------------------------------------------------
// The mathematical model: strings become `Seq<char>`, vectors become `Seq`.

/// The model of a literal.
pub enum LiteralV {
    Int(i64),
    Bool(bool),
    Str(Seq<char>),
}

/// The model of an expression.
pub enum ExprV {
    Ident(Seq<char>),
    Lit(LiteralV),
    Prefix(Prefix, Box<ExprV>),
    Infix(Infix, Box<ExprV>, Box<ExprV>),
    If(Box<ExprV>, Seq<StmtV>, Option<Seq<StmtV>>),
    Func(Seq<Seq<char>>, Seq<StmtV>),
    Call(Box<ExprV>, Seq<ExprV>),
    Array(Seq<ExprV>),
    Hash(Seq<(LiteralV, ExprV)>),
    Index(Box<ExprV>, Box<ExprV>),
}

/// The model of a statement.
pub enum StmtV {
    Let(Seq<char>, ExprV),
    Return(ExprV),
    Expr(ExprV),
}

pub open spec fn literal_view(l: Literal) -> LiteralV {
    match l {
        Literal::IntLiteral(i) => LiteralV::Int(i),
        Literal::BoolLiteral(b) => LiteralV::Bool(b),
        Literal::StringLiteral(s) => LiteralV::Str(s@),
    }
}

pub open spec fn idents_view(v: Seq<Ident>) -> Seq<Seq<char>> {
    Seq::new(v.len(), |i: int| v[i].0@)
}

pub open spec fn expr_view(e: Expr) -> ExprV
    decreases e,
{
    match e {
        Expr::IdentExpr(id) => ExprV::Ident(id.0@),
        Expr::LitExpr(l) => ExprV::Lit(literal_view(l)),
        Expr::PrefixExpr(p, x) => ExprV::Prefix(p, Box::new(expr_view(*x))),
        Expr::InfixExpr(op, a, b) => ExprV::Infix(op, Box::new(expr_view(*a)), Box::new(expr_view(*b))),
        Expr::IfExpr { cond, consequence, alternative } => ExprV::If(
            Box::new(expr_view(*cond)),
            block_view(consequence@),
            match alternative {
                Some(alt) => Some(block_view(alt@)),
                None => None,
            },
        ),
        Expr::FnExpr { params, body } => ExprV::Func(idents_view(params@), block_view(body@)),
        Expr::CallExpr { function, arguments } => ExprV::Call(
            Box::new(expr_view(*function)),
            exprs_view(arguments@),
        ),
        Expr::ArrayExpr(es) => ExprV::Array(exprs_view(es@)),
        Expr::HashExpr(ps) => ExprV::Hash(pairs_view(ps@)),
        Expr::IndexExpr { array, index } => ExprV::Index(
            Box::new(expr_view(*array)),
            Box::new(expr_view(*index)),
        ),
    }
}

pub open spec fn stmt_view(s: Stmt) -> StmtV
    decreases s,
{
    match s {
        Stmt::LetStmt(id, e) => StmtV::Let(id.0@, expr_view(e)),
        Stmt::ReturnStmt(e) => StmtV::Return(expr_view(e)),
        Stmt::ExprStmt(e) => StmtV::Expr(expr_view(e)),
    }
}

/// The model of a block: the model of each statement, in order.
pub open spec fn block_view(b: Seq<Stmt>) -> Seq<StmtV>
    decreases b,
{
    Seq::new(
        b.len(),
        |i: int|
            if 0 <= i < b.len() {
                stmt_view(b[i])
            } else {
                StmtV::Expr(ExprV::Lit(LiteralV::Int(0)))
            },
    )
}

/// The model of an optional block.
pub open spec fn opt_block_view(b: Option<Vec<Stmt>>) -> Option<Seq<StmtV>> {
    match b {
        Some(a) => Some(block_view(a@)),
        None => None,
    }
}

pub open spec fn exprs_view(v: Seq<Expr>) -> Seq<ExprV>
    decreases v,
{
    Seq::new(
        v.len(),
        |i: int|
            if 0 <= i < v.len() {
                expr_view(v[i])
            } else {
                ExprV::Lit(LiteralV::Int(0))
            },
    )
}

pub open spec fn pairs_view(v: Seq<(Literal, Expr)>) -> Seq<(LiteralV, ExprV)>
    decreases v,
{
    Seq::new(
        v.len(),
        |i: int|
            if 0 <= i < v.len() {
                (literal_view(v[i].0), expr_view(v[i].1))
            } else {
                (LiteralV::Int(0), ExprV::Lit(LiteralV::Int(0)))
            },
    )
}

impl View for Ident {
    type V = Seq<char>;

    open spec fn view(&self) -> Seq<char> {
        self.0@
    }
}

impl View for Literal {
    type V = LiteralV;

    open spec fn view(&self) -> LiteralV {
        literal_view(*self)
    }
}

impl View for Expr {
    type V = ExprV;

    open spec fn view(&self) -> ExprV {
        expr_view(*self)
    }
}

impl View for Stmt {
    type V = StmtV;

    open spec fn view(&self) -> StmtV {
        stmt_view(*self)
    }
}

// ---------------------------------------------------------------------------
// Sizes of models; they measure the recursion of the evaluator.

pub open spec fn expr_size(e: ExprV) -> nat
    decreases e,
{
    match e {
        ExprV::Ident(_) => 1,
        ExprV::Lit(_) => 1,
        ExprV::Prefix(_, x) => expr_size(*x) + 2,
        ExprV::Infix(_, a, b) => expr_size(*a) + expr_size(*b) + 2,
        ExprV::If(c, t, alt) => expr_size(*c) + block_size(t) + match alt {
            Some(a) => block_size(a),
            None => 0,
        } + 2,
        ExprV::Func(_, _) => 1,
        ExprV::Call(f, args) => expr_size(*f) + exprs_size(args) + 2,
        ExprV::Array(es) => exprs_size(es) + 2,
        ExprV::Hash(ps) => pairs_size(ps) + 2,
        ExprV::Index(a, i) => expr_size(*a) + expr_size(*i) + 2,
    }
}

pub open spec fn stmt_size(s: StmtV) -> nat
    decreases s,
{
    match s {
        StmtV::Let(_, e) => expr_size(e) + 1,
        StmtV::Return(e) => expr_size(e) + 1,
        StmtV::Expr(e) => expr_size(e) + 1,
    }
}

pub open spec fn block_size(b: Seq<StmtV>) -> nat
    decreases b,
{
    if b.len() == 0 {
        1
    } else {
        stmt_size(b[0]) + block_size(b.subrange(1, b.len() as int)) + 1
    }
}

pub open spec fn exprs_size(s: Seq<ExprV>) -> nat
    decreases s,
{
    if s.len() == 0 {
        0
    } else {
        exprs_size(s.subrange(0, s.len() - 1)) + expr_size(s[s.len() - 1]) + 1
    }
}

pub open spec fn pairs_size(s: Seq<(LiteralV, ExprV)>) -> nat
    decreases s,
{
    if s.len() == 0 {
        0
    } else {
        pairs_size(s.subrange(0, s.len() - 1)) + expr_size(s[s.len() - 1].1) + 2
    }
}

// ---------------------------------------------------------------------------
// Copies of syntax trees: a copy has the same model as what it copies.

pub fn clone_ident(id: &Ident) -> (r: Ident)
    ensures
        r@ == id@,
{
    Ident(id.0.clone())
}

pub fn clone_literal(l: &Literal) -> (r: Literal)
    ensures
        r@ == l@,
{
    match l {
        Literal::IntLiteral(i) => Literal::IntLiteral(*i),
        Literal::BoolLiteral(b) => Literal::BoolLiteral(*b),
        Literal::StringLiteral(s) => Literal::StringLiteral(s.clone()),
    }
}

pub fn clone_idents(v: &Vec<Ident>) -> (r: Vec<Ident>)
    ensures
        idents_view(r@) == idents_view(v@),
{
    let mut r: Vec<Ident> = Vec::new();
    let mut i: usize = 0;
    while i < v.len()
        invariant
            i <= v.len(),
            r@.len() == i,
            forall|j: int| 0 <= j < i ==> r@[j]@ == v@[j]@,
        decreases v.len() - i,
    {
        r.push(clone_ident(&v[i]));
        i = i + 1;
    }
    assert(idents_view(r@) =~= idents_view(v@));
    r
}

pub fn clone_expr(e: &Expr) -> (r: Expr)
    ensures
        r@ == e@,
    decreases e,
{
    match e {
        Expr::IdentExpr(id) => Expr::IdentExpr(clone_ident(id)),
        Expr::LitExpr(l) => Expr::LitExpr(clone_literal(l)),
        Expr::PrefixExpr(p, x) => Expr::PrefixExpr(*p, Box::new(clone_expr(x))),
        Expr::InfixExpr(op, a, b) => Expr::InfixExpr(*op, Box::new(clone_expr(a)), Box::new(clone_expr(b))),
        Expr::IfExpr { cond, consequence, alternative } => {
            let c = clone_expr(cond);
            let t = clone_block(consequence);
            let a = match alternative {
                Some(alt) => Some(clone_block(alt)),
                None => None,
            };
            let r = Expr::IfExpr { cond: Box::new(c), consequence: t, alternative: a };
            assert(r@ =~= e@);
            r
        },
        Expr::FnExpr { params, body } => {
            let r = Expr::FnExpr { params: clone_idents(params), body: clone_block(body) };
            assert(r@ =~= e@);
            r
        },
        Expr::CallExpr { function, arguments } => {
            let r = Expr::CallExpr { function: Box::new(clone_expr(function)), arguments: clone_exprs(arguments) };
            assert(r@ =~= e@);
            r
        },
        Expr::ArrayExpr(es) => {
            let r = Expr::ArrayExpr(clone_exprs(es));
            assert(r@ =~= e@);
            r
        },
        Expr::HashExpr(ps) => {
            let r = Expr::HashExpr(clone_pairs(ps));
            assert(r@ =~= e@);
            r
        },
        Expr::IndexExpr { array, index } => Expr::IndexExpr {
            array: Box::new(clone_expr(array)),
            index: Box::new(clone_expr(index)),
        },
    }
}

pub fn clone_exprs(v: &Vec<Expr>) -> (r: Vec<Expr>)
    ensures
        exprs_view(r@) == exprs_view(v@),
    decreases v,
{
    let mut r: Vec<Expr> = Vec::new();
    let mut i: usize = 0;
    while i < v.len()
        invariant
            i <= v.len(),
            r@.len() == i,
            forall|j: int| 0 <= j < i ==> r@[j]@ == v@[j]@,
        decreases v.len() - i,
    {
        r.push(clone_expr(&v[i]));
        i = i + 1;
    }
    assert(exprs_view(r@) =~= exprs_view(v@));
    r
}

pub fn clone_pairs(v: &Vec<(Literal, Expr)>) -> (r: Vec<(Literal, Expr)>)
    ensures
        pairs_view(r@) == pairs_view(v@),
    decreases v,
{
    let mut r: Vec<(Literal, Expr)> = Vec::new();
    let mut i: usize = 0;
    while i < v.len()
        invariant
            i <= v.len(),
            r@.len() == i,
            forall|j: int| 0 <= j < i ==> r@[j].0@ == v@[j].0@ && r@[j].1@ == v@[j].1@,
        decreases v.len() - i,
    {
        r.push((clone_literal(&v[i].0), clone_expr(&v[i].1)));
        i = i + 1;
    }
    assert(pairs_view(r@) =~= pairs_view(v@));
    r
}

pub fn clone_stmt(s: &Stmt) -> (r: Stmt)
    ensures
        r@ == s@,
    decreases s,
{
    match s {
        Stmt::LetStmt(id, e) => Stmt::LetStmt(clone_ident(id), clone_expr(e)),
        Stmt::ReturnStmt(e) => Stmt::ReturnStmt(clone_expr(e)),
        Stmt::ExprStmt(e) => Stmt::ExprStmt(clone_expr(e)),
    }
}

pub fn clone_block(v: &Vec<Stmt>) -> (r: Vec<Stmt>)
    ensures
        block_view(r@) == block_view(v@),
    decreases v,
{
    let mut r: Vec<Stmt> = Vec::new();
    let mut i: usize = 0;
    while i < v.len()
        invariant
            i <= v.len(),
            r@.len() == i,
            forall|j: int| 0 <= j < i ==> r@[j]@ == v@[j]@,
        decreases v.len() - i,
    {
        r.push(clone_stmt(&v[i]));
        i = i + 1;
    }
    assert(block_view(r@) =~= block_view(v@));
    r
}

// ---------------------------------------------------------------------------
// Comparison of syntax trees: equal exactly when the models are equal.

pub fn ident_equal(a: &Ident, b: &Ident) -> (r: bool)
    ensures
        r == (a@ == b@),
{
    a.0 == b.0
}

pub fn literal_equal(a: &Literal, b: &Literal) -> (r: bool)
    ensures
        r == (a@ == b@),
{
    match (a, b) {
        (Literal::IntLiteral(x), Literal::IntLiteral(y)) => *x == *y,
        (Literal::BoolLiteral(x), Literal::BoolLiteral(y)) => *x == *y,
        (Literal::StringLiteral(x), Literal::StringLiteral(y)) => *x == *y,
        _ => false,
    }
}

pub fn idents_equal(a: &Vec<Ident>, b: &Vec<Ident>) -> (r: bool)
    ensures
        r == (idents_view(a@) == idents_view(b@)),
{
    if a.len() != b.len() {
        assert(idents_view(a@).len() != idents_view(b@).len());
        return false;
    }
    let mut i: usize = 0;
    while i < a.len()
        invariant
            i <= a.len(),
            a.len() == b.len(),
            forall|j: int| 0 <= j < i ==> a@[j]@ == b@[j]@,
        decreases a.len() - i,
    {
        if !ident_equal(&a[i], &b[i]) {
            assert(idents_view(a@)[i as int] != idents_view(b@)[i as int]);
            return false;
        }
        i = i + 1;
    }
    assert(idents_view(a@) =~= idents_view(b@));
    true
}

pub fn expr_equal(a: &Expr, b: &Expr) -> (r: bool)
    ensures
        r == (a@ == b@),
    decreases a,
{
    match (a, b) {
        (Expr::IdentExpr(x), Expr::IdentExpr(y)) => ident_equal(x, y),
        (Expr::LitExpr(x), Expr::LitExpr(y)) => literal_equal(x, y),
        (Expr::PrefixExpr(p, x), Expr::PrefixExpr(q, y)) => *p == *q && expr_equal(x, y),
        (Expr::InfixExpr(p, x1, x2), Expr::InfixExpr(q, y1, y2)) => *p == *q && expr_equal(x1, y1)
            && expr_equal(x2, y2),
        (
            Expr::IfExpr { cond: c1, consequence: t1, alternative: a1 },
            Expr::IfExpr { cond: c2, consequence: t2, alternative: a2 },
        ) => {
            let alt = match (a1, a2) {
                (Some(x), Some(y)) => block_equal(x, y),
                (None, None) => true,
                _ => false,
            };
            expr_equal(c1, c2) && block_equal(t1, t2) && alt
        },
        (Expr::FnExpr { params: p1, body: b1 }, Expr::FnExpr { params: p2, body: b2 }) => {
            idents_equal(p1, p2) && block_equal(b1, b2)
        },
        (
            Expr::CallExpr { function: f1, arguments: x1 },
            Expr::CallExpr { function: f2, arguments: x2 },
        ) => expr_equal(f1, f2) && exprs_equal(x1, x2),
        (Expr::ArrayExpr(x), Expr::ArrayExpr(y)) => exprs_equal(x, y),
        (Expr::HashExpr(x), Expr::HashExpr(y)) => pairs_equal(x, y),
        (Expr::IndexExpr { array: x1, index: x2 }, Expr::IndexExpr { array: y1, index: y2 }) => {
            expr_equal(x1, y1) && expr_equal(x2, y2)
        },
        _ => false,
    }
}

pub fn exprs_equal(a: &Vec<Expr>, b: &Vec<Expr>) -> (r: bool)
    ensures
        r == (exprs_view(a@) == exprs_view(b@)),
    decreases a,
{
    if a.len() != b.len() {
        assert(exprs_view(a@).len() != exprs_view(b@).len());
        return false;
    }
    let mut i: usize = 0;
    while i < a.len()
        invariant
            i <= a.len(),
            a.len() == b.len(),
            forall|j: int| 0 <= j < i ==> a@[j]@ == b@[j]@,
        decreases a.len() - i,
    {
        if !expr_equal(&a[i], &b[i]) {
            assert(exprs_view(a@)[i as int] != exprs_view(b@)[i as int]);
            return false;
        }
        i = i + 1;
    }
    assert(exprs_view(a@) =~= exprs_view(b@));
    true
}

pub fn pairs_equal(a: &Vec<(Literal, Expr)>, b: &Vec<(Literal, Expr)>) -> (r: bool)
    ensures
        r == (pairs_view(a@) == pairs_view(b@)),
    decreases a,
{
    if a.len() != b.len() {
        assert(pairs_view(a@).len() != pairs_view(b@).len());
        return false;
    }
    let mut i: usize = 0;
    while i < a.len()
        invariant
            i <= a.len(),
            a.len() == b.len(),
            forall|j: int| 0 <= j < i ==> a@[j].0@ == b@[j].0@ && a@[j].1@ == b@[j].1@,
        decreases a.len() - i,
    {
        if !(literal_equal(&a[i].0, &b[i].0) && expr_equal(&a[i].1, &b[i].1)) {
            assert(pairs_view(a@)[i as int] != pairs_view(b@)[i as int]);
            return false;
        }
        i = i + 1;
    }
    assert(pairs_view(a@) =~= pairs_view(b@));
    true
}

pub fn stmt_equal(a: &Stmt, b: &Stmt) -> (r: bool)
    ensures
        r == (a@ == b@),
    decreases a,
{
    match (a, b) {
        (Stmt::LetStmt(x, e), Stmt::LetStmt(y, f)) => ident_equal(x, y) && expr_equal(e, f),
        (Stmt::ReturnStmt(e), Stmt::ReturnStmt(f)) => expr_equal(e, f),
        (Stmt::ExprStmt(e), Stmt::ExprStmt(f)) => expr_equal(e, f),
        _ => false,
    }
}

pub fn block_equal(a: &Vec<Stmt>, b: &Vec<Stmt>) -> (r: bool)
    ensures
        r == (block_view(a@) == block_view(b@)),
    decreases a,
{
    if a.len() != b.len() {
        assert(block_view(a@).len() != block_view(b@).len());
        return false;
    }
    let mut i: usize = 0;
    while i < a.len()
        invariant
            i <= a.len(),
            a.len() == b.len(),
            forall|j: int| 0 <= j < i ==> a@[j]@ == b@[j]@,
        decreases a.len() - i,
    {
        if !stmt_equal(&a[i], &b[i]) {
            assert(block_view(a@)[i as int] != block_view(b@)[i as int]);
            return false;
        }
        i = i + 1;
    }
    assert(block_view(a@) =~= block_view(b@));
    true
}

} // verus!
