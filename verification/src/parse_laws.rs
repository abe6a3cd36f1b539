//! Precedence and grouping: printing an expression tree with C's precedences
//! and parsing the tokens gives the tree back.
use vstd::prelude::*;
use crate::ast::{BinOp, ExprView, StmtView};
use crate::parser::{
    Level, level_op, lemma_block_step, lemma_items_end, lemma_items_step, lemma_stmt_block,
    lemma_stmt_decl, lemma_stmt_expr, lemma_stmt_if, lemma_stmt_return, lemma_stmt_while,
    parse_assignment, parse_binary, parse_binary_rest, parse_block_items, parse_expr,
    parse_operand, parse_primary, parse_stmt, parse_unary,
};
use crate::token::{KindView, TokenView};

verus! {

// ---------------------------------------------------------------------------
// C's precedences, and printing
// ---------------------------------------------------------------------------

/// How tightly a binary operator binds: `*` `/` tightest, then `+` `-`, then
/// `<` `<=` `>` `>=`, then `==` `!=`.
pub open spec fn op_prec(op: BinOp) -> nat {
    match op {
        BinOp::Mul | BinOp::Div => 4,
        BinOp::Add | BinOp::Sub => 3,
        BinOp::Lt | BinOp::Le | BinOp::Gt | BinOp::Ge => 2,
        BinOp::Eq | BinOp::Ne => 1,
    }
}

/// The token of a binary operator.
pub open spec fn op_kind(op: BinOp) -> KindView {
    match op {
        BinOp::Add => KindView::Plus,
        BinOp::Sub => KindView::Minus,
        BinOp::Mul => KindView::Star,
        BinOp::Div => KindView::Slash,
        BinOp::Eq => KindView::Eq,
        BinOp::Ne => KindView::Ne,
        BinOp::Lt => KindView::Lt,
        BinOp::Le => KindView::Le,
        BinOp::Gt => KindView::Gt,
        BinOp::Ge => KindView::Ge,
    }
}

/// How tightly a token binds as a binary operator; 0 for a token that is none.
pub open spec fn kind_prec(k: KindView) -> nat {
    match k {
        KindView::Star | KindView::Slash => 4,
        KindView::Plus | KindView::Minus => 3,
        KindView::Lt | KindView::Le | KindView::Gt | KindView::Ge => 2,
        KindView::Eq | KindView::Ne => 1,
        _ => 0,
    }
}

/// How tightly an expression binds: an assignment loosest, then binary
/// operators by their precedence, then prefix signs, then numbers and names.
pub open spec fn expr_prec(e: ExprView) -> nat {
    match e {
        ExprView::Assign(..) => 0,
        ExprView::Binary(op, _, _) => op_prec(op),
        ExprView::UnaryNeg(_) | ExprView::UnaryPlus(_) => 5,
        ExprView::Number(_) | ExprView::Var(_) => 6,
    }
}

/// The tokens of `e` where an expression binding at least `min` is expected:
/// in parentheses when `e` binds less tightly. A binary operator's left operand
/// may bind as tightly as it, its right one must bind tighter (they group to
/// the left); an assignment's right side may be another assignment (it groups
/// to the right); a prefix sign takes a sign, a number, a name or a
/// parenthesised expression.
pub open spec fn show(e: ExprView, min: nat) -> Seq<KindView>
    decreases e,
{
    let raw = match e {
        ExprView::Number(v) => seq![KindView::Number(v)],
        ExprView::Var(name) => seq![KindView::Ident(name)],
        ExprView::UnaryNeg(x) => seq![KindView::Minus] + show(*x, 5),
        ExprView::UnaryPlus(x) => seq![KindView::Plus] + show(*x, 5),
        ExprView::Binary(op, l, r) => show(*l, op_prec(op)) + seq![op_kind(op)] + show(
            *r,
            op_prec(op) + 1,
        ),
        ExprView::Assign(name, x) => seq![KindView::Ident(name), KindView::Assign] + show(*x, 0),
    };
    if expr_prec(e) < min {
        seq![KindView::LParen] + raw + seq![KindView::RParen]
    } else {
        raw
    }
}

/// The tokens from `p` on begin with the kinds `ks`.
pub open spec fn kinds_at(t: Seq<TokenView>, p: nat, ks: Seq<KindView>) -> bool {
    &&& p + ks.len() <= t.len()
    &&& forall|i: int| 0 <= i < ks.len() ==> #[trigger] t[p + i].kind == ks[i]
}

/// A token that cannot continue an expression: no binary operator and no `=`.
pub open spec fn ends_expr(k: KindView) -> bool {
    kind_prec(k) == 0 && !(k is Assign)
}

pub open spec fn level_prec(level: Level) -> nat {
    match level {
        Level::Equality => 1,
        Level::Relational => 2,
        Level::Additive => 3,
        Level::Term => 4,
    }
}

// ---------------------------------------------------------------------------
// Lemmas
// ---------------------------------------------------------------------------

proof fn lemma_kinds_split(t: Seq<TokenView>, p: nat, a: Seq<KindView>, b: Seq<KindView>)
    requires
        kinds_at(t, p, a + b),
    ensures
        kinds_at(t, p, a),
        kinds_at(t, p + a.len(), b),
{
    assert forall|i: int| 0 <= i < a.len() implies #[trigger] t[p + i].kind == a[i] by {
        assert(t[p + i].kind == (a + b)[i]);
    }
    assert forall|i: int| 0 <= i < b.len() implies #[trigger] t[(p + a.len()) + i].kind == b[i] by {
        assert(t[p + (a.len() + i)].kind == (a + b)[a.len() + i]);
    }
}

/// The operators of a level are the tokens of its precedence.
proof fn lemma_level_op(level: Level, k: KindView)
    ensures
        kind_prec(k) != level_prec(level) ==> level_op(level, k) is None,
{
}

proof fn lemma_level_op_of(level: Level, op: BinOp)
    requires
        op_prec(op) == level_prec(level),
    ensures
        level_op(level, op_kind(op)) == Some(op),
{
}

proof fn lemma_kind_prec_of(op: BinOp)
    ensures
        kind_prec(op_kind(op)) == op_prec(op),
{
}

/// Shown at a bound other than its own precedence, an expression has the same
/// tokens one step tighter.
proof fn lemma_show_tighter(e: ExprView, q: nat)
    requires
        expr_prec(e) != q,
    ensures
        show(e, q) == show(e, q + 1),
{
}

/// What follows the prefix sign or the `(` is read as a unary expression.
proof fn lemma_parse_unary_shown(e: ExprView, t: Seq<TokenView>, p: nat)
    requires
        kinds_at(t, p, show(e, 5)),
        p + show(e, 5).len() < t.len(),
    ensures
        parse_unary(t, p) == Ok::<(ExprView, nat), crate::error::ErrorView>(
            (e, show(e, 5).len()),
        ),
    decreases show(e, 5).len(), 10int,
{
    let k = show(e, 5).len();
    assert(t[(p + 0) as int].kind == show(e, 5)[0]);
    if expr_prec(e) < 5 {
        let inner = show(e, 0);
        assert(show(e, 5) == seq![KindView::LParen] + inner + seq![KindView::RParen]);
        assert(show(e, 0) == inner);
        lemma_kinds_split(t, p, seq![KindView::LParen] + inner, seq![KindView::RParen]);
        lemma_kinds_split(t, p, seq![KindView::LParen], inner);
        assert(t[((p + 1 + inner.len()) + 0) as int].kind == KindView::RParen);
        lemma_parse_expr_shown(e, t, p + 1);
        assert(parse_primary(t, p) == Ok::<(ExprView, nat), crate::error::ErrorView>((e, k)));
    } else {
        match e {
            ExprView::UnaryNeg(x) => {
                lemma_kinds_split(t, p, seq![KindView::Minus], show(*x, 5));
                lemma_parse_unary_shown(*x, t, p + 1);
            },
            ExprView::UnaryPlus(x) => {
                lemma_kinds_split(t, p, seq![KindView::Plus], show(*x, 5));
                lemma_parse_unary_shown(*x, t, p + 1);
            },
            _ => {},
        }
    }
}

/// The same for an operand of a level.
proof fn lemma_parse_operand_shown(e: ExprView, level: Level, t: Seq<TokenView>, p: nat)
    requires
        kinds_at(t, p, show(e, level_prec(level) + 1)),
        p + show(e, level_prec(level) + 1).len() < t.len(),
        kind_prec(t[(p + show(e, level_prec(level) + 1).len()) as int].kind) <= level_prec(level),
    ensures
        parse_operand(t, p, level) == Ok::<(ExprView, nat), crate::error::ErrorView>(
            (e, show(e, level_prec(level) + 1).len()),
        ),
    decreases show(e, level_prec(level) + 1).len(), 19 - 2 * level_prec(level),
{
    let k = show(e, level_prec(level) + 1).len();
    match level {
        Level::Term => {
            lemma_parse_unary_shown(e, t, p);
        },
        _ => {
            let tighter = match level {
                Level::Equality => Level::Relational,
                Level::Relational => Level::Additive,
                _ => Level::Term,
            };
            lemma_level_op(tighter, t[(p + k) as int].kind);
            lemma_parse_binary_shown(e, tighter, t, p, e, 0);
        },
    }
}

/// A level reads `e` and then whatever its rest reads after it: with `e`
/// shown at the level, the level's parse is the rest's parse from `e`.
proof fn lemma_parse_binary_shown(
    e: ExprView,
    level: Level,
    t: Seq<TokenView>,
    p: nat,
    whole: ExprView,
    j: nat,
)
    requires
        kinds_at(t, p, show(e, level_prec(level))),
        p + show(e, level_prec(level)).len() < t.len(),
        kind_prec(t[(p + show(e, level_prec(level)).len()) as int].kind) <= level_prec(level),
        parse_binary_rest(t, p + show(e, level_prec(level)).len(), level, e) == Ok::<
            (ExprView, nat),
            crate::error::ErrorView,
        >((whole, j)),
    ensures
        parse_binary(t, p, level) == Ok::<(ExprView, nat), crate::error::ErrorView>(
            (whole, show(e, level_prec(level)).len() + j),
        ),
    decreases show(e, level_prec(level)).len(), 20 - 2 * level_prec(level),
{
    let q = level_prec(level);
    let k = show(e, q).len();
    if expr_prec(e) == q {
        match e {
            ExprView::Binary(op, l, r) => {
                let sl = show(*l, q);
                let sr = show(*r, q + 1);
                assert(show(e, q) == sl + seq![op_kind(op)] + sr);
                lemma_kinds_split(t, p, sl + seq![op_kind(op)], sr);
                lemma_kinds_split(t, p, sl, seq![op_kind(op)]);
                assert(t[((p + sl.len()) + 0) as int].kind == op_kind(op));
                lemma_kind_prec_of(op);
                lemma_level_op_of(level, op);
                let pr = p + sl.len() + 1;
                assert(pr + sr.len() == p + k);
                lemma_parse_operand_shown(*r, level, t, pr);
                // The rest from `l` reads the operator and `r`, then goes on from `e`.
                assert(parse_binary_rest(t, p + sl.len(), level, *l) == Ok::<
                    (ExprView, nat),
                    crate::error::ErrorView,
                >((whole, 1 + sr.len() + j)));
                lemma_parse_binary_shown(*l, level, t, p, whole, 1 + sr.len() + j);
            },
            _ => {},
        }
    } else {
        lemma_show_tighter(e, q);
        lemma_parse_operand_shown(e, level, t, p);
    }
}

/// An expression shown with C's precedences and followed by a token that ends
/// it parses back to itself.
proof fn lemma_parse_expr_shown(e: ExprView, t: Seq<TokenView>, p: nat)
    requires
        kinds_at(t, p, show(e, 0)),
        p + show(e, 0).len() < t.len(),
        ends_expr(t[(p + show(e, 0).len()) as int].kind),
    ensures
        parse_expr(t, p) == Ok::<(ExprView, nat), crate::error::ErrorView>(
            (e, show(e, 0).len()),
        ),
    decreases show(e, 0).len(), 20int,
{
    let k = show(e, 0).len();
    assert(t[(p + 0) as int].kind == show(e, 0)[0]);
    match e {
        ExprView::Assign(name, x) => {
            let sx = show(*x, 0);
            assert(show(e, 0) == seq![KindView::Ident(name), KindView::Assign] + sx);
            lemma_kinds_split(t, p, seq![KindView::Ident(name), KindView::Assign], sx);
            assert(t[(p + 1) as int].kind == seq![KindView::Ident(name), KindView::Assign][1]);
            let var = ExprView::Var(name);
            assert(show(var, 1) == seq![KindView::Ident(name)]);
            assert(kinds_at(t, p, show(var, 1)));
            lemma_level_op(Level::Equality, KindView::Assign);
            assert(parse_binary_rest(t, p + 1, Level::Equality, var) == Ok::<
                (ExprView, nat),
                crate::error::ErrorView,
            >((var, 0)));
            lemma_parse_binary_shown(var, Level::Equality, t, p, var, 0);
            lemma_parse_expr_shown(*x, t, p + 2);
            assert(parse_assignment(t, p + 2) == parse_expr(t, p + 2));
        },
        _ => {
            assert(show(e, 1) == show(e, 0));
            lemma_level_op(Level::Equality, t[(p + k) as int].kind);
            lemma_parse_binary_shown(e, Level::Equality, t, p, e, 0);
        },
    }
}

// ---------------------------------------------------------------------------
// The law
// ---------------------------------------------------------------------------

/// Parsing gives back every expression tree printed with C's precedences and
/// grouping: `*` and `/` bind tighter than `+` and `-`, which bind tighter than
/// `<` `<=` `>` `>=`, which bind tighter than `==` `!=`, which bind tighter than
/// `=`; binary operators group to the left and `=` to the right; a prefix `-`
/// or `+` applies to the unary expression right after it; parentheses appear
/// only where the tree needs them. The printed tokens may be followed by any
/// token that cannot continue an expression.
pub proof fn law_parse_inverts_show(e: ExprView, t: Seq<TokenView>, p: nat)
    requires
        kinds_at(t, p, show(e, 0)),
        p + show(e, 0).len() < t.len(),
        ends_expr(t[(p + show(e, 0).len()) as int].kind),
    ensures
        parse_expr(t, p) == Ok::<(ExprView, nat), crate::error::ErrorView>(
            (e, show(e, 0).len()),
        ),
{
    lemma_parse_expr_shown(e, t, p);
}

// ---------------------------------------------------------------------------
// Statements
// ---------------------------------------------------------------------------

/// The tokens of a statement.
pub open spec fn show_stmt(s: StmtView) -> Seq<KindView>
    decreases s,
{
    match s {
        StmtView::Return(e) => seq![KindView::KwReturn] + show(e, 0) + seq![KindView::Semicolon],
        StmtView::Expr(e) => show(e, 0) + seq![KindView::Semicolon],
        StmtView::Decl(name, init) => match init {
            Some(e) => seq![KindView::KwInt, KindView::Ident(name), KindView::Assign] + show(e, 0)
                + seq![KindView::Semicolon],
            None => seq![KindView::KwInt, KindView::Ident(name), KindView::Semicolon],
        },
        StmtView::Block(stmts) => seq![KindView::LBrace] + show_stmts(stmts) + seq![
            KindView::RBrace,
        ],
        StmtView::If(c, t, e) => {
            let head = seq![KindView::KwIf, KindView::LParen] + show(c, 0) + seq![KindView::RParen]
                + show_stmt(*t);
            match e {
                Some(es) => head + seq![KindView::KwElse] + show_stmt(*es),
                None => head,
            }
        },
        StmtView::While(c, b) => seq![KindView::KwWhile, KindView::LParen] + show(c, 0) + seq![
            KindView::RParen,
        ] + show_stmt(*b),
    }
}

pub open spec fn show_stmts(stmts: Seq<StmtView>) -> Seq<KindView>
    decreases stmts,
{
    if stmts.len() == 0 {
        Seq::empty()
    } else {
        show_stmt(stmts[0]) + show_stmts(stmts.subrange(1, stmts.len() as int))
    }
}

/// The statement ends with an `if` that has no `else`, so an `else` right
/// after it would belong to that `if`.
pub open spec fn open_ended(s: StmtView) -> bool
    decreases s,
{
    match s {
        StmtView::If(_, _, None) => true,
        StmtView::If(_, _, Some(es)) => open_ended(*es),
        StmtView::While(_, b) => open_ended(*b),
        _ => false,
    }
}

/// No `else` of the tree would be read as belonging to an inner `if`: the
/// then-branch of an `if` with an `else` is never open-ended.
pub open spec fn else_unambiguous(s: StmtView) -> bool
    decreases s,
{
    match s {
        StmtView::If(_, t, Some(es)) => !open_ended(*t) && else_unambiguous(*t) && else_unambiguous(
            *es,
        ),
        StmtView::If(_, t, None) => else_unambiguous(*t),
        StmtView::While(_, b) => else_unambiguous(*b),
        StmtView::Block(stmts) => forall|i: int|
            0 <= i < stmts.len() ==> else_unambiguous(#[trigger] stmts[i]),
        _ => true,
    }
}

/// A statement's tokens never start with `else` or `}`.
proof fn lemma_show_stmt_first(s: StmtView)
    ensures
        show_stmt(s).len() > 0,
        !(show_stmt(s)[0] is KwElse),
        !(show_stmt(s)[0] is RBrace),
    decreases s,
{
    match s {
        StmtView::Expr(e) => {
            lemma_show_first(e, 0);
        },
        _ => {},
    }
}

/// An expression's tokens start with a number, a name, a sign or `(`.
proof fn lemma_show_first(e: ExprView, min: nat)
    ensures
        show(e, min).len() > 0,
        show(e, min)[0] is Number || show(e, min)[0] is Ident || show(e, min)[0] is Minus
            || show(e, min)[0] is Plus || show(e, min)[0] is LParen,
    decreases e,
{
    match e {
        ExprView::Binary(op, l, r) => {
            lemma_show_first(*l, op_prec(op));
            if expr_prec(e) >= min {
                assert(show(e, min)[0] == show(*l, op_prec(op))[0]);
            }
        },
        _ => {},
    }
}

proof fn lemma_kinds_at_index(t: Seq<TokenView>, p: nat, ks: Seq<KindView>, i: int)
    requires
        kinds_at(t, p, ks),
        0 <= i < ks.len(),
    ensures
        t[p + i].kind == ks[i],
{
}

/// The requirements under which a statement's tokens parse back to it.
pub open spec fn stmt_shown_at(s: StmtView, t: Seq<TokenView>, p: nat) -> bool {
    &&& else_unambiguous(s)
    &&& kinds_at(t, p, show_stmt(s))
    &&& p + show_stmt(s).len() < t.len()
    &&& open_ended(s) ==> !(t[(p + show_stmt(s).len()) as int].kind is KwElse)
}

/// A statement shown as tokens parses back to itself.
proof fn lemma_parse_stmt_shown(s: StmtView, t: Seq<TokenView>, p: nat)
    requires
        stmt_shown_at(s, t, p),
    ensures
        parse_stmt(t, p) == Ok::<(StmtView, nat), crate::error::ErrorView>(
            (s, show_stmt(s).len()),
        ),
    decreases s, 1int,
{
    match s {
        StmtView::If(..) => lemma_parse_if_shown(s, t, p),
        StmtView::While(..) => lemma_parse_while_shown(s, t, p),
        StmtView::Block(..) => lemma_parse_block_shown(s, t, p),
        _ => lemma_parse_simple_shown(s, t, p),
    }
}

proof fn lemma_parse_simple_shown(s: StmtView, t: Seq<TokenView>, p: nat)
    requires
        stmt_shown_at(s, t, p),
        s is Return || s is Expr || s is Decl,
    ensures
        parse_stmt(t, p) == Ok::<(StmtView, nat), crate::error::ErrorView>(
            (s, show_stmt(s).len()),
        ),
{
    lemma_show_stmt_first(s);
    lemma_kinds_at_index(t, p, show_stmt(s), 0);
    match s {
        StmtView::Return(e) => {
            let se = show(e, 0);
            lemma_kinds_split(t, p, seq![KindView::KwReturn] + se, seq![KindView::Semicolon]);
            lemma_kinds_split(t, p, seq![KindView::KwReturn], se);
            lemma_kinds_at_index(t, p + 1 + se.len(), seq![KindView::Semicolon], 0);
            lemma_parse_expr_shown(e, t, p + 1);
            lemma_stmt_return(t, p);
        },
        StmtView::Expr(e) => {
            let se = show(e, 0);
            lemma_show_first(e, 0);
            lemma_kinds_split(t, p, se, seq![KindView::Semicolon]);
            lemma_kinds_at_index(t, p + se.len(), seq![KindView::Semicolon], 0);
            lemma_parse_expr_shown(e, t, p);
            lemma_stmt_expr(t, p);
        },
        StmtView::Decl(name, init) => {
            lemma_stmt_decl(t, p);
            lemma_kinds_at_index(t, p, show_stmt(s), 1);
            lemma_kinds_at_index(t, p, show_stmt(s), 2);
            if let Some(e) = init {
                let se = show(e, 0);
                let pre = seq![KindView::KwInt, KindView::Ident(name), KindView::Assign];
                lemma_kinds_split(t, p, pre + se, seq![KindView::Semicolon]);
                lemma_kinds_split(t, p, pre, se);
                lemma_kinds_at_index(t, p + 3 + se.len(), seq![KindView::Semicolon], 0);
                lemma_parse_expr_shown(e, t, p + 3);
            }
        },
        _ => {},
    }
}

proof fn lemma_parse_block_shown(s: StmtView, t: Seq<TokenView>, p: nat)
    requires
        stmt_shown_at(s, t, p),
        s is Block,
    ensures
        parse_stmt(t, p) == Ok::<(StmtView, nat), crate::error::ErrorView>(
            (s, show_stmt(s).len()),
        ),
    decreases s, 0int,
{
    if let StmtView::Block(stmts) = s {
        let inner = show_stmts(stmts);
        lemma_kinds_split(t, p, seq![KindView::LBrace] + inner, seq![KindView::RBrace]);
        lemma_kinds_split(t, p, seq![KindView::LBrace], inner);
        lemma_kinds_at_index(t, p, seq![KindView::LBrace], 0);
        lemma_kinds_at_index(t, p + 1 + inner.len(), seq![KindView::RBrace], 0);
        lemma_parse_stmts_shown(stmts, t, p + 1);
        lemma_stmt_block(t, p);
        lemma_block_step(t, p);
    }
}

proof fn lemma_parse_while_shown(s: StmtView, t: Seq<TokenView>, p: nat)
    requires
        stmt_shown_at(s, t, p),
        s is While,
    ensures
        parse_stmt(t, p) == Ok::<(StmtView, nat), crate::error::ErrorView>(
            (s, show_stmt(s).len()),
        ),
    decreases s, 0int,
{
    if let StmtView::While(c, b) = s {
        let sc = show(c, 0);
        let pre = seq![KindView::KwWhile, KindView::LParen];
        let q = p + 2 + sc.len();
        lemma_kinds_split(t, p, pre + sc + seq![KindView::RParen], show_stmt(*b));
        lemma_kinds_split(t, p, pre + sc, seq![KindView::RParen]);
        lemma_kinds_split(t, p, pre, sc);
        lemma_kinds_at_index(t, p, pre, 0);
        lemma_kinds_at_index(t, p, pre, 1);
        lemma_kinds_at_index(t, q, seq![KindView::RParen], 0);
        lemma_parse_expr_shown(c, t, p + 2);
        lemma_parse_stmt_shown(*b, t, q + 1);
        lemma_stmt_while(t, p);
    }
}

proof fn lemma_parse_if_shown(s: StmtView, t: Seq<TokenView>, p: nat)
    requires
        stmt_shown_at(s, t, p),
        s is If,
    ensures
        parse_stmt(t, p) == Ok::<(StmtView, nat), crate::error::ErrorView>(
            (s, show_stmt(s).len()),
        ),
    decreases s, 0int,
{
    if let StmtView::If(c, th, el) = s {
        let k = show_stmt(s).len();
        let sc = show(c, 0);
        let pre = seq![KindView::KwIf, KindView::LParen];
        let cond = pre + sc + seq![KindView::RParen];
        let head = cond + show_stmt(*th);
        let q = p + 2 + sc.len();
        let r = q + 1 + show_stmt(*th).len();
        let tail = match el {
            Some(es) => seq![KindView::KwElse] + show_stmt(*es),
            None => Seq::empty(),
        };
        assert(show_stmt(s) =~= head + tail);
        lemma_kinds_split(t, p, head, tail);
        lemma_kinds_split(t, p, cond, show_stmt(*th));
        lemma_kinds_split(t, p, pre + sc, seq![KindView::RParen]);
        lemma_kinds_split(t, p, pre, sc);
        lemma_kinds_at_index(t, p, pre, 0);
        lemma_kinds_at_index(t, p, pre, 1);
        lemma_kinds_at_index(t, q, seq![KindView::RParen], 0);
        lemma_parse_expr_shown(c, t, p + 2);
        match el {
            Some(es) => {
                lemma_kinds_split(t, r, seq![KindView::KwElse], show_stmt(*es));
                lemma_kinds_at_index(t, r, seq![KindView::KwElse], 0);
                lemma_parse_stmt_shown(*th, t, q + 1);
                lemma_parse_stmt_shown(*es, t, r + 1);
            },
            None => {
                lemma_parse_stmt_shown(*th, t, q + 1);
            },
        }
        lemma_stmt_if(t, p);
    }
}

/// The statements of a block shown as tokens, followed by `}`, parse back to themselves.
proof fn lemma_parse_stmts_shown(stmts: Seq<StmtView>, t: Seq<TokenView>, p: nat)
    requires
        forall|i: int| 0 <= i < stmts.len() ==> else_unambiguous(#[trigger] stmts[i]),
        kinds_at(t, p, show_stmts(stmts)),
        p + show_stmts(stmts).len() < t.len(),
        t[(p + show_stmts(stmts).len()) as int].kind is RBrace,
    ensures
        parse_block_items(t, p) == Ok::<(Seq<StmtView>, nat), crate::error::ErrorView>(
            (stmts, show_stmts(stmts).len()),
        ),
    decreases stmts, 0int,
{
    if stmts.len() == 0 {
        lemma_items_end(t, p);
        assert(stmts =~= Seq::<StmtView>::empty());
    } else {
        let first = stmts[0];
        let rest = stmts.subrange(1, stmts.len() as int);
        let sf = show_stmt(first);
        let sr = show_stmts(rest);
        assert(show_stmts(stmts) == sf + sr);
        lemma_kinds_split(t, p, sf, sr);
        lemma_show_stmt_first(first);
        lemma_kinds_at_index(t, p, sf, 0);
        if rest.len() > 0 {
            lemma_show_stmt_first(rest[0]);
            assert(sr[0] == show_stmt(rest[0])[0]);
            lemma_kinds_at_index(t, p + sf.len(), sr, 0);
        } else {
            assert(sr.len() == 0);
        }
        assert(else_unambiguous(stmts[0]));
        lemma_parse_stmt_shown(first, t, p);
        assert forall|i: int| 0 <= i < rest.len() implies else_unambiguous(#[trigger] rest[i]) by {
            assert(rest[i] == stmts[i + 1]);
        }
        lemma_parse_stmts_shown(rest, t, p + sf.len());
        lemma_items_step(t, p);
        assert(seq![first] + rest =~= stmts);
    }
}

/// Parsing gives back every statement printed as tokens (expressions with
/// C's precedences), provided no `else` in it would belong to an inner `if`
/// that has none: `if`, `while`, blocks, declarations and `return` nest as
/// written, and each `else` belongs to its `if`. An open-ended statement must
/// not be followed by `else`.
pub proof fn law_parse_inverts_show_stmt(s: StmtView, t: Seq<TokenView>, p: nat)
    requires
        else_unambiguous(s),
        kinds_at(t, p, show_stmt(s)),
        p + show_stmt(s).len() < t.len(),
        open_ended(s) ==> !(t[(p + show_stmt(s).len()) as int].kind is KwElse),
    ensures
        parse_stmt(t, p) == Ok::<(StmtView, nat), crate::error::ErrorView>(
            (s, show_stmt(s).len()),
        ),
{
    lemma_parse_stmt_shown(s, t, p);
}

} // verus!
