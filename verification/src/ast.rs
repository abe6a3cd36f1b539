//! The syntax tree of a program, and its view as plain values.
use vstd::prelude::*;

verus! {

#[derive(Debug)]
pub enum Expr {
    Number(i64),
    Var(String),
    Assign(String, Box<Expr>),
    UnaryNeg(Box<Expr>),
    UnaryPlus(Box<Expr>),
    Binary(BinOp, Box<Expr>, Box<Expr>),
}

#[derive(Debug, Clone, Copy)]
pub enum BinOp {
    Add,
    Sub,
    Mul,
    Div,
    Eq,
    Ne,
    Lt,
    Le,
    Gt,
    Ge,
}

#[derive(Debug)]
pub enum Stmt {
    Return(Expr),
    Expr(Expr),
    Decl(String, Option<Expr>),
    Block(Vec<Stmt>),
    If(Expr, Box<Stmt>, Option<Box<Stmt>>),
    While(Expr, Box<Stmt>),
}

/// An expression as plain values: a variable is named by its characters.
pub enum ExprView {
    Number(i64),
    Var(Seq<char>),
    Assign(Seq<char>, Box<ExprView>),
    UnaryNeg(Box<ExprView>),
    UnaryPlus(Box<ExprView>),
    Binary(BinOp, Box<ExprView>, Box<ExprView>),
}

/// A statement as plain values: a block holds a sequence of statements.
pub enum StmtView {
    Return(ExprView),
    Expr(ExprView),
    Decl(Seq<char>, Option<ExprView>),
    Block(Seq<StmtView>),
    If(ExprView, Box<StmtView>, Option<Box<StmtView>>),
    While(ExprView, Box<StmtView>),
}

impl Expr {
    pub open spec fn model(&self) -> ExprView
        decreases self,
    {
        match self {
            Expr::Number(v) => ExprView::Number(*v),
            Expr::Var(name) => ExprView::Var(name@),
            Expr::Assign(name, e) => ExprView::Assign(name@, Box::new(e.model())),
            Expr::UnaryNeg(e) => ExprView::UnaryNeg(Box::new(e.model())),
            Expr::UnaryPlus(e) => ExprView::UnaryPlus(Box::new(e.model())),
            Expr::Binary(op, l, r) => ExprView::Binary(*op, Box::new(l.model()), Box::new(r.model())),
        }
    }
}

impl View for Expr {
    type V = ExprView;

    open spec fn view(&self) -> ExprView {
        self.model()
    }
}

impl Stmt {
    pub open spec fn model(&self) -> StmtView
        decreases self,
    {
        match self {
            Stmt::Return(e) => StmtView::Return(e@),
            Stmt::Expr(e) => StmtView::Expr(e@),
            Stmt::Decl(name, init) => StmtView::Decl(
                name@,
                match init {
                    Some(e) => Some(e@),
                    None => None,
                },
            ),
            Stmt::Block(stmts) => StmtView::Block(Stmt::models(stmts@)),
            Stmt::If(c, t, e) => StmtView::If(
                c@,
                Box::new(t.model()),
                match e {
                    Some(s) => Some(Box::new(s.model())),
                    None => None,
                },
            ),
            Stmt::While(c, body) => StmtView::While(c@, Box::new(body.model())),
        }
    }

    /// The views of a sequence of statements.
    pub open spec fn models(stmts: Seq<Stmt>) -> Seq<StmtView>
        decreases stmts,
    {
        if stmts.len() == 0 {
            Seq::empty()
        } else {
            seq![stmts[0].model()] + Stmt::models(stmts.subrange(1, stmts.len() as int))
        }
    }

    pub proof fn lemma_models(stmts: Seq<Stmt>)
        ensures
            Stmt::models(stmts).len() == stmts.len(),
            forall|k: int|
                0 <= k < stmts.len() ==> #[trigger] Stmt::models(stmts)[k] == stmts[k].model(),
        decreases stmts.len(),
    {
        if stmts.len() > 0 {
            let rest = stmts.subrange(1, stmts.len() as int);
            Stmt::lemma_models(rest);
            assert forall|k: int| 0 <= k < stmts.len() implies #[trigger] Stmt::models(stmts)[k]
                == stmts[k].model() by {
                if k > 0 {
                    assert(rest[k - 1] == stmts[k]);
                }
            }
        }
    }
}

impl View for Stmt {
    type V = StmtView;

    open spec fn view(&self) -> StmtView {
        self.model()
    }
}

} // verus!
