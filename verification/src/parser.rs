//! The parser: tokens to a syntax tree, by recursive descent.
use vstd::prelude::*;
use crate::ast::{BinOp, Expr, ExprView, Stmt, StmtView};
use crate::error::{CompileError, ErrorView, error_at};
use crate::lexer::eof_only_at_end;
use crate::token::{KindView, Token, TokenKind, TokenView, kind_name, same_kind, tag_of, token_name, tokens_view};

verus! {

// ---------------------------------------------------------------------------
// The grammar
//
//   program    := "int" "main" "(" ")" block EOF
//   block      := "{" stmt* "}"
//   stmt       := "return" expr ";" | "int" IDENT ("=" expr)? ";"
//               | "if" "(" expr ")" stmt ("else" stmt)? | "while" "(" expr ")" stmt
//               | block | expr ";"
//   expr       := assignment
//   assignment := equality ("=" assignment)?          (left side must be a variable)
//   equality   := relational (("==" | "!=") relational)*
//   relational := additive (("<" | "<=" | ">" | ">=") additive)*
//   additive   := term (("+" | "-") term)*
//   term       := unary (("*" | "/") unary)*
//   unary      := "-" unary | "+" unary | primary
//   primary    := NUMBER | IDENT | "(" expr ")"
//
// Each spec function reads the tokens from position `p` and gives the tree
// with the number of tokens it took, or the error the parser reports.
// ---------------------------------------------------------------------------

pub type ExprParse = Result<(ExprView, nat), ErrorView>;

pub type StmtParse = Result<(StmtView, nat), ErrorView>;

pub type StmtsParse = Result<(Seq<StmtView>, nat), ErrorView>;

/// Tokens left from `p` on.
pub open spec fn rem(t: Seq<TokenView>, p: nat) -> nat {
    if p < t.len() {
        (t.len() - p) as nat
    } else {
        0
    }
}

/// The parser never reads past the end-of-file token, which ends the tokens;
/// the grammar still says something for positions past the end.
pub open spec fn past_end() -> ErrorView {
    error_at(0, 0, "unexpected end of tokens"@)
}

/// An error at the token at `p`.
pub open spec fn error_here(t: Seq<TokenView>, p: nat, message: Seq<char>) -> ErrorView {
    error_at(t[p as int].line, t[p as int].col, message)
}

/// The error of a token of kind `expected` missing at `p`.
pub open spec fn expect_error(t: Seq<TokenView>, p: nat, expected: KindView) -> ErrorView {
    error_here(
        t,
        p,
        "expected "@ + kind_name(expected) + ", got `"@ + t[p as int].lexeme + "`"@,
    )
}

/// The levels of binary operators, loosest first.
pub enum Level {
    Equality,
    Relational,
    Additive,
    Term,
}

pub open spec fn level_rank(level: Level) -> int {
    match level {
        Level::Equality => 10,
        Level::Relational => 8,
        Level::Additive => 6,
        Level::Term => 4,
    }
}

/// The operator of `level` that the token kind `k` stands for, if any.
pub open spec fn level_op(level: Level, k: KindView) -> Option<BinOp> {
    match level {
        Level::Equality => match k {
            KindView::Eq => Some(BinOp::Eq),
            KindView::Ne => Some(BinOp::Ne),
            _ => None,
        },
        Level::Relational => match k {
            KindView::Lt => Some(BinOp::Lt),
            KindView::Le => Some(BinOp::Le),
            KindView::Gt => Some(BinOp::Gt),
            KindView::Ge => Some(BinOp::Ge),
            _ => None,
        },
        Level::Additive => match k {
            KindView::Plus => Some(BinOp::Add),
            KindView::Minus => Some(BinOp::Sub),
            _ => None,
        },
        Level::Term => match k {
            KindView::Star => Some(BinOp::Mul),
            KindView::Slash => Some(BinOp::Div),
            _ => None,
        },
    }
}

/// The operands of each level are read at the next tighter level.
pub open spec fn parse_operand(t: Seq<TokenView>, p: nat, level: Level) -> ExprParse
    decreases rem(t, p), level_rank(level) - 1,
{
    if p >= t.len() {
        Err(past_end())
    } else {
        match level {
            Level::Equality => parse_binary(t, p, Level::Relational),
            Level::Relational => parse_binary(t, p, Level::Additive),
            Level::Additive => parse_binary(t, p, Level::Term),
            Level::Term => parse_unary(t, p),
        }
    }
}

/// One level of left-associative binary operators.
pub open spec fn parse_binary(t: Seq<TokenView>, p: nat, level: Level) -> ExprParse
    decreases rem(t, p), level_rank(level),
{
    if p >= t.len() {
        Err(past_end())
    } else {
        match parse_operand(t, p, level) {
            Ok((left, n)) => match parse_binary_rest(t, p + n, level, left) {
                Ok((e, m)) => Ok((e, n + m)),
                Err(err) => Err(err),
            },
            Err(err) => Err(err),
        }
    }
}

/// The operators and operands that follow `left` at one level, folded to the left.
pub open spec fn parse_binary_rest(
    t: Seq<TokenView>,
    q: nat,
    level: Level,
    left: ExprView,
) -> ExprParse
    decreases rem(t, q), level_rank(level) - 1,
{
    if q >= t.len() {
        Err(past_end())
    } else {
        match level_op(level, t[q as int].kind) {
            Some(op) => match parse_operand(t, q + 1, level) {
                Ok((right, n)) => match parse_binary_rest(
                    t,
                    q + 1 + n,
                    level,
                    ExprView::Binary(op, Box::new(left), Box::new(right)),
                ) {
                    Ok((e, m)) => Ok((e, 1 + n + m)),
                    Err(err) => Err(err),
                },
                Err(err) => Err(err),
            },
            None => Ok((left, 0)),
        }
    }
}

pub open spec fn parse_unary(t: Seq<TokenView>, p: nat) -> ExprParse
    decreases rem(t, p), 2int,
{
    if p >= t.len() {
        Err(past_end())
    } else {
        if t[p as int].kind is Minus {
            match parse_unary(t, p + 1) {
                Ok((e, n)) => Ok((ExprView::UnaryNeg(Box::new(e)), n + 1)),
                Err(err) => Err(err),
            }
        } else if t[p as int].kind is Plus {
            match parse_unary(t, p + 1) {
                Ok((e, n)) => Ok((ExprView::UnaryPlus(Box::new(e)), n + 1)),
                Err(err) => Err(err),
            }
        } else {
            parse_primary(t, p)
        }
    }
}

pub open spec fn parse_primary(t: Seq<TokenView>, p: nat) -> ExprParse
    decreases rem(t, p), 1int,
{
    if p >= t.len() {
        Err(past_end())
    } else {
        match t[p as int].kind {
            KindView::Number(v) => Ok((ExprView::Number(v), 1)),
            KindView::Ident(name) => Ok((ExprView::Var(name), 1)),
            KindView::LParen => match parse_expr(t, p + 1) {
                Ok((e, n)) => if t[(p + 1 + n) as int].kind is RParen {
                    Ok((e, n + 2))
                } else {
                    Err(expect_error(t, p + 1 + n, KindView::RParen))
                },
                Err(err) => Err(err),
            },
            _ => Err(error_here(t, p, "expected expression, got `"@ + t[p as int].lexeme + "`"@)),
        }
    }
}

pub open spec fn parse_expr(t: Seq<TokenView>, p: nat) -> ExprParse
    decreases rem(t, p), 13int,
{
    if p >= t.len() {
        Err(past_end())
    } else {
        parse_assignment(t, p)
    }
}

pub open spec fn parse_assignment(t: Seq<TokenView>, p: nat) -> ExprParse
    decreases rem(t, p), 12int,
{
    if p >= t.len() {
        Err(past_end())
    } else {
        match parse_binary(t, p, Level::Equality) {
            Ok((left, n)) => if t[(p + n) as int].kind is Assign {
                match parse_assignment(t, p + n + 1) {
                    Ok((right, m)) => match left {
                        ExprView::Var(name) => Ok(
                            (ExprView::Assign(name, Box::new(right)), n + 1 + m),
                        ),
                        _ => Err(
                            error_here(
                                t,
                                p + n + 1 + m,
                                "left side of assignment must be variable"@,
                            ),
                        ),
                    },
                    Err(err) => Err(err),
                }
            } else {
                Ok((left, n))
            },
            Err(err) => Err(err),
        }
    }
}

#[verifier::opaque]
pub open spec fn parse_stmt(t: Seq<TokenView>, p: nat) -> StmtParse
    decreases rem(t, p), 22int,
{
    if p >= t.len() {
        Err(past_end())
    } else {
        let k = t[p as int].kind;
        if k is KwReturn {
            match parse_expr(t, p + 1) {
                Ok((e, n)) => if t[(p + 1 + n) as int].kind is Semicolon {
                    Ok((StmtView::Return(e), n + 2))
                } else {
                    Err(expect_error(t, p + 1 + n, KindView::Semicolon))
                },
                Err(err) => Err(err),
            }
        } else if k is KwInt {
            match t[p + 1 as int].kind {
                KindView::Ident(name) => if t[p + 2 as int].kind is Assign {
                    match parse_expr(t, p + 3) {
                        Ok((e, n)) => if t[(p + 3 + n) as int].kind is Semicolon {
                            Ok((StmtView::Decl(name, Some(e)), n + 4))
                        } else {
                            Err(expect_error(t, p + 3 + n, KindView::Semicolon))
                        },
                        Err(err) => Err(err),
                    }
                } else if t[p + 2 as int].kind is Semicolon {
                    Ok((StmtView::Decl(name, None), 3))
                } else {
                    Err(expect_error(t, p + 2, KindView::Semicolon))
                },
                _ => Err(error_here(t, p + 1, "expected identifier"@)),
            }
        } else if k is KwIf {
            if !(t[p + 1 as int].kind is LParen) {
                Err(expect_error(t, p + 1, KindView::LParen))
            } else {
                match parse_expr(t, p + 2) {
                    Ok((cond, n)) => {
                        let q = p + 2 + n;
                        if !(t[q as int].kind is RParen) {
                            Err(expect_error(t, q, KindView::RParen))
                        } else {
                            match parse_stmt(t, q + 1) {
                                Ok((then_s, m)) => {
                                    let r = q + 1 + m;
                                    if t[r as int].kind is KwElse {
                                        match parse_stmt(t, r + 1) {
                                            Ok((else_s, k2)) => Ok(
                                                (
                                                    StmtView::If(
                                                        cond,
                                                        Box::new(then_s),
                                                        Some(Box::new(else_s)),
                                                    ),
                                                    (r + 1 + k2 - p) as nat,
                                                ),
                                            ),
                                            Err(err) => Err(err),
                                        }
                                    } else {
                                        Ok(
                                            (
                                                StmtView::If(cond, Box::new(then_s), None),
                                                (r - p) as nat,
                                            ),
                                        )
                                    }
                                },
                                Err(err) => Err(err),
                            }
                        }
                    },
                    Err(err) => Err(err),
                }
            }
        } else if k is KwWhile {
            if !(t[p + 1 as int].kind is LParen) {
                Err(expect_error(t, p + 1, KindView::LParen))
            } else {
                match parse_expr(t, p + 2) {
                    Ok((cond, n)) => {
                        let q = p + 2 + n;
                        if !(t[q as int].kind is RParen) {
                            Err(expect_error(t, q, KindView::RParen))
                        } else {
                            match parse_stmt(t, q + 1) {
                                Ok((body, m)) => Ok(
                                    (StmtView::While(cond, Box::new(body)), (q + 1 + m - p) as nat),
                                ),
                                Err(err) => Err(err),
                            }
                        }
                    },
                    Err(err) => Err(err),
                }
            }
        } else if k is LBrace {
            parse_block(t, p)
        } else {
            match parse_expr(t, p) {
                Ok((e, n)) => if t[(p + n) as int].kind is Semicolon {
                    Ok((StmtView::Expr(e), n + 1))
                } else {
                    Err(expect_error(t, p + n, KindView::Semicolon))
                },
                Err(err) => Err(err),
            }
        }
    }
}

#[verifier::opaque]
pub open spec fn parse_block(t: Seq<TokenView>, p: nat) -> StmtParse
    decreases rem(t, p), 21int,
{
    if p >= t.len() {
        Err(past_end())
    } else {
        if !(t[p as int].kind is LBrace) {
            Err(expect_error(t, p, KindView::LBrace))
        } else {
            match parse_block_items(t, p + 1) {
                Ok((stmts, n)) => if t[(p + 1 + n) as int].kind is RBrace {
                    Ok((StmtView::Block(stmts), n + 2))
                } else {
                    Err(expect_error(t, p + 1 + n, KindView::RBrace))
                },
                Err(err) => Err(err),
            }
        }
    }
}

/// The statements of a block, up to its closing brace. A statement always
/// takes at least one token (`lemma_stmt_advances`), so the `n == 0` case
/// never arises; it is there to make the recursion visibly well founded.
#[verifier::opaque]
pub open spec fn parse_block_items(t: Seq<TokenView>, p: nat) -> StmtsParse
    decreases rem(t, p), 23int,
{
    if p >= t.len() {
        Err(past_end())
    } else {
        if t[p as int].kind is RBrace {
            Ok((Seq::empty(), 0))
        } else {
            match parse_stmt(t, p) {
                Ok((s, n)) => if n == 0 {
                    Ok((seq![s], 0))
                } else {
                    match parse_block_items(t, p + n) {
                        Ok((rest, m)) => Ok((seq![s] + rest, n + m)),
                        Err(err) => Err(err),
                    }
                },
                Err(err) => Err(err),
            }
        }
    }
}

/// A whole program: `int main() { ... }` and then the end of the tokens.
pub open spec fn parse_program(t: Seq<TokenView>, p: nat) -> Result<StmtView, ErrorView> {
    if !(t[p as int].kind is KwInt) {
        Err(expect_error(t, p, KindView::KwInt))
    } else if t[p + 1 as int].kind != KindView::Ident("main"@) {
        Err(
            error_here(
                t,
                p + 1,
                "expected identifier `"@ + "main"@ + "`, got `"@ + t[p + 1 as int].lexeme + "`"@,
            ),
        )
    } else if !(t[p + 2 as int].kind is LParen) {
        Err(expect_error(t, p + 2, KindView::LParen))
    } else if !(t[p + 3 as int].kind is RParen) {
        Err(expect_error(t, p + 3, KindView::RParen))
    } else {
        match parse_block(t, p + 4) {
            Ok((body, n)) => if t[(p + 4 + n) as int].kind is Eof {
                Ok(body)
            } else {
                Err(expect_error(t, p + 4 + n, KindView::Eof))
            },
            Err(err) => Err(err),
        }
    }
}

/// The position of the end-of-file token after a whole program, when it parses.
pub open spec fn program_len(t: Seq<TokenView>, p: nat) -> nat {
    match parse_block(t, p + 4) {
        Ok((_, n)) => p + 4 + n + 1,
        Err(_) => 0,
    }
}

// ---------------------------------------------------------------------------
// Lemmas about the grammar
// ---------------------------------------------------------------------------

/// A statement always takes at least one token.
pub proof fn lemma_stmt_advances(t: Seq<TokenView>, p: nat)
    requires
        p < t.len(),
    ensures
        parse_stmt(t, p) matches Ok((_, n)) ==> n >= 1,
{
    let k = t[p as int].kind;
    if k is KwReturn {
        lemma_stmt_return(t, p);
    } else if k is KwInt {
        lemma_stmt_decl(t, p);
    } else if k is KwIf {
        lemma_stmt_if(t, p);
    } else if k is KwWhile {
        lemma_stmt_while(t, p);
    } else if k is LBrace {
        lemma_stmt_block(t, p);
        lemma_block_step(t, p);
    } else {
        lemma_stmt_expr(t, p);
    }
}

pub open spec fn shift_expr(r: ExprParse, k: nat) -> ExprParse {
    match r {
        Ok((e, m)) => Ok((e, k + m)),
        Err(err) => Err(err),
    }
}

pub open spec fn prepend_stmts(pre: Seq<StmtView>, k: nat, r: StmtsParse) -> StmtsParse {
    match r {
        Ok((ss, m)) => Ok((pre + ss, k + m)),
        Err(err) => Err(err),
    }
}

pub proof fn lemma_binary_step(t: Seq<TokenView>, p: nat, level: Level)
    requires
        p < t.len(),
    ensures
        parse_binary(t, p, level) == (match parse_operand(t, p, level) {
            Ok((left, n)) => shift_expr(parse_binary_rest(t, p + n, level, left), n),
            Err(err) => Err(err),
        }),
        parse_operand(t, p, level) == (match level {
            Level::Equality => parse_binary(t, p, Level::Relational),
            Level::Relational => parse_binary(t, p, Level::Additive),
            Level::Additive => parse_binary(t, p, Level::Term),
            Level::Term => parse_unary(t, p),
        }),
{
}

pub proof fn lemma_binary_rest_step(t: Seq<TokenView>, q: nat, level: Level, left: ExprView)
    requires
        q + 1 < t.len(),
        level_op(level, t[q as int].kind) is Some,
    ensures
        parse_binary_rest(t, q, level, left) == (match parse_operand(t, q + 1, level) {
            Ok((right, n)) => shift_expr(
                parse_binary_rest(
                    t,
                    q + 1 + n,
                    level,
                    ExprView::Binary(
                        level_op(level, t[q as int].kind)->0,
                        Box::new(left),
                        Box::new(right),
                    ),
                ),
                1 + n,
            ),
            Err(err) => Err(err),
        }),
        parse_operand(t, q + 1, level) == (match level {
            Level::Equality => parse_binary(t, q + 1, Level::Relational),
            Level::Relational => parse_binary(t, q + 1, Level::Additive),
            Level::Additive => parse_binary(t, q + 1, Level::Term),
            Level::Term => parse_unary(t, q + 1),
        }),
{
}

pub proof fn lemma_binary_rest_end(t: Seq<TokenView>, q: nat, level: Level, left: ExprView)
    requires
        q < t.len(),
        level_op(level, t[q as int].kind) is None,
    ensures
        parse_binary_rest(t, q, level, left) == Ok::<(ExprView, nat), ErrorView>((left, 0)),
{
}


// Steps of the statement grammar, one case at a time.

pub proof fn lemma_stmt_return(t: Seq<TokenView>, p: nat)
    requires
        p < t.len(),
        t[p as int].kind is KwReturn,
    ensures
        parse_stmt(t, p) == (match parse_expr(t, p + 1) {
            Ok((e, n)) => if t[(p + 1 + n) as int].kind is Semicolon {
                Ok((StmtView::Return(e), n + 2))
            } else {
                Err(expect_error(t, p + 1 + n, KindView::Semicolon))
            },
            Err(err) => Err(err),
        }),
{
    reveal(parse_stmt);
    reveal(parse_block);
    reveal(parse_block_items);
}

pub proof fn lemma_stmt_decl(t: Seq<TokenView>, p: nat)
    requires
        p < t.len(),
        t[p as int].kind is KwInt,
    ensures
        parse_stmt(t, p) == (match t[p + 1 as int].kind {
            KindView::Ident(name) => if t[p + 2 as int].kind is Assign {
                match parse_expr(t, p + 3) {
                    Ok((e, n)) => if t[(p + 3 + n) as int].kind is Semicolon {
                        Ok((StmtView::Decl(name, Some(e)), n + 4))
                    } else {
                        Err(expect_error(t, p + 3 + n, KindView::Semicolon))
                    },
                    Err(err) => Err(err),
                }
            } else if t[p + 2 as int].kind is Semicolon {
                Ok((StmtView::Decl(name, None), 3))
            } else {
                Err(expect_error(t, p + 2, KindView::Semicolon))
            },
            _ => Err(error_here(t, p + 1, "expected identifier"@)),
        }),
{
    reveal(parse_stmt);
    reveal(parse_block);
    reveal(parse_block_items);
}

pub proof fn lemma_stmt_if(t: Seq<TokenView>, p: nat)
    requires
        p < t.len(),
        t[p as int].kind is KwIf,
    ensures
        parse_stmt(t, p) == (if !(t[p + 1 as int].kind is LParen) {
            Err(expect_error(t, p + 1, KindView::LParen))
        } else {
            match parse_expr(t, p + 2) {
                Ok((cond, n)) => {
                    let q = p + 2 + n;
                    if !(t[q as int].kind is RParen) {
                        Err(expect_error(t, q, KindView::RParen))
                    } else {
                        match parse_stmt(t, q + 1) {
                            Ok((then_s, m)) => {
                                let r = q + 1 + m;
                                if t[r as int].kind is KwElse {
                                    match parse_stmt(t, r + 1) {
                                        Ok((else_s, k2)) => Ok(
                                            (
                                                StmtView::If(
                                                    cond,
                                                    Box::new(then_s),
                                                    Some(Box::new(else_s)),
                                                ),
                                                (r + 1 + k2 - p) as nat,
                                            ),
                                        ),
                                        Err(err) => Err(err),
                                    }
                                } else {
                                    Ok(
                                        (
                                            StmtView::If(cond, Box::new(then_s), None),
                                            (r - p) as nat,
                                        ),
                                    )
                                }
                            },
                            Err(err) => Err(err),
                        }
                    }
                },
                Err(err) => Err(err),
            }
        }),
{
    reveal(parse_stmt);
    reveal(parse_block);
    reveal(parse_block_items);
}

pub proof fn lemma_stmt_while(t: Seq<TokenView>, p: nat)
    requires
        p < t.len(),
        t[p as int].kind is KwWhile,
    ensures
        parse_stmt(t, p) == (if !(t[p + 1 as int].kind is LParen) {
            Err(expect_error(t, p + 1, KindView::LParen))
        } else {
            match parse_expr(t, p + 2) {
                Ok((cond, n)) => {
                    let q = p + 2 + n;
                    if !(t[q as int].kind is RParen) {
                        Err(expect_error(t, q, KindView::RParen))
                    } else {
                        match parse_stmt(t, q + 1) {
                            Ok((body, m)) => Ok(
                                (StmtView::While(cond, Box::new(body)), (q + 1 + m - p) as nat),
                            ),
                            Err(err) => Err(err),
                        }
                    }
                },
                Err(err) => Err(err),
            }
        }),
{
    reveal(parse_stmt);
    reveal(parse_block);
    reveal(parse_block_items);
}

pub proof fn lemma_stmt_block(t: Seq<TokenView>, p: nat)
    requires
        p < t.len(),
        t[p as int].kind is LBrace,
    ensures
        parse_stmt(t, p) == parse_block(t, p),
{
    reveal(parse_stmt);
    reveal(parse_block);
    reveal(parse_block_items);
}

pub proof fn lemma_stmt_expr(t: Seq<TokenView>, p: nat)
    requires
        p < t.len(),
        !(t[p as int].kind is KwReturn),
        !(t[p as int].kind is KwInt),
        !(t[p as int].kind is KwIf),
        !(t[p as int].kind is KwWhile),
        !(t[p as int].kind is LBrace),
    ensures
        parse_stmt(t, p) == (match parse_expr(t, p) {
            Ok((e, n)) => if t[(p + n) as int].kind is Semicolon {
                Ok((StmtView::Expr(e), n + 1))
            } else {
                Err(expect_error(t, p + n, KindView::Semicolon))
            },
            Err(err) => Err(err),
        }),
{
    reveal(parse_stmt);
    reveal(parse_block);
    reveal(parse_block_items);
}

pub proof fn lemma_block_step(t: Seq<TokenView>, p: nat)
    requires
        p < t.len(),
    ensures
        parse_block(t, p) == (if !(t[p as int].kind is LBrace) {
            Err(expect_error(t, p, KindView::LBrace))
        } else {
            match parse_block_items(t, p + 1) {
                Ok((stmts, n)) => if t[(p + 1 + n) as int].kind is RBrace {
                    Ok((StmtView::Block(stmts), n + 2))
                } else {
                    Err(expect_error(t, p + 1 + n, KindView::RBrace))
                },
                Err(err) => Err(err),
            }
        }),
{
    reveal(parse_stmt);
    reveal(parse_block);
    reveal(parse_block_items);
}

pub proof fn lemma_items_end(t: Seq<TokenView>, p: nat)
    requires
        p < t.len(),
        t[p as int].kind is RBrace,
    ensures
        parse_block_items(t, p) == Ok::<(Seq<StmtView>, nat), ErrorView>((Seq::empty(), 0)),
{
    reveal(parse_stmt);
    reveal(parse_block);
    reveal(parse_block_items);
}

pub proof fn lemma_items_step(t: Seq<TokenView>, p: nat)
    requires
        p < t.len(),
        !(t[p as int].kind is RBrace),
    ensures
        parse_block_items(t, p) == (match parse_stmt(t, p) {
            Ok((s, n)) => prepend_stmts(seq![s], n, parse_block_items(t, p + n)),
            Err(err) => Err(err),
        }),
{
    reveal(parse_stmt);
    reveal(parse_block);
    reveal(parse_block_items);
    lemma_stmt_advances(t, p);
}

// ---------------------------------------------------------------------------
// The parser
// ---------------------------------------------------------------------------

pub struct Parser {
    tokens: Vec<Token>,
    i: usize,
}

/// A parser as plain values: its tokens and the position of the current one.
pub struct ParserView {
    pub toks: Seq<TokenView>,
    pub pos: nat,
}

impl View for Parser {
    type V = ParserView;

    closed spec fn view(&self) -> ParserView {
        ParserView { toks: tokens_view(self.tokens@), pos: self.i as nat }
    }
}

/// Tokens as the lexer hands them over: at least one, the last an end-of-file token.
pub open spec fn ends_with_eof(t: Seq<TokenView>) -> bool {
    t.len() > 0 && t.last().kind is Eof
}

/// The outcome of an expression parse agrees with the grammar; whatever the
/// outcome, the parser still stands on a token and has not moved back.
pub open spec fn expr_outcome(
    r: Result<Expr, CompileError>,
    expected: ExprParse,
    before: ParserView,
    after: Parser,
) -> bool {
    &&& after@.toks == before.toks
    &&& after.inv()
    &&& before.pos <= after@.pos
    &&& match expected {
        Ok((e, n)) => {
            &&& r matches Ok(x) && x@ == e
            &&& after@.pos == before.pos + n
        },
        Err(err) => r matches Err(x) && x@ == err,
    }
}

/// The outcome of a statement parse agrees with the grammar; whatever the
/// outcome, the parser still stands on a token and has not moved back.
pub open spec fn stmt_outcome(
    r: Result<Stmt, CompileError>,
    expected: StmtParse,
    before: ParserView,
    after: Parser,
) -> bool {
    &&& after@.toks == before.toks
    &&& after.inv()
    &&& before.pos <= after@.pos
    &&& match expected {
        Ok((s, n)) => {
            &&& r matches Ok(x) && x@ == s
            &&& after@.pos == before.pos + n
        },
        Err(err) => r matches Err(x) && x@ == err,
    }
}

impl Parser {
    /// The tokens end with an end-of-file token, and the parser stands on one of them.
    pub open spec fn inv(&self) -> bool {
        ends_with_eof(self@.toks) && self@.pos < self@.toks.len()
    }

    pub proof fn lemma_not_last(&self)
        requires
            self.inv(),
            !(self@.toks[self@.pos as int].kind is Eof),
        ensures
            self@.pos + 1 < self@.toks.len(),
    {
    }

    /// The position is a machine index.
    pub proof fn lemma_pos_fits(&self)
        ensures
            self@.pos <= usize::MAX,
    {
    }

    pub fn new(tokens: Vec<Token>) -> (ps: Self)
        ensures
            ps@ == (ParserView { toks: tokens_view(tokens@), pos: 0 }),
    {
        Parser { tokens, i: 0 }
    }

    /// Reads a whole program: `int main() { ... }` followed by the end of file.
    pub fn parse_program(&mut self) -> (r: Result<Stmt, CompileError>)
        requires
            old(self).inv(),
        ensures
            final(self)@.toks == old(self)@.toks,
            r is Ok && eof_only_at_end(old(self)@.toks) ==> final(self)@.pos == old(self)@.toks.len(),
            r is Err ==> final(self).inv(),
            old(self)@.pos <= final(self)@.pos,
            match parse_program(old(self)@.toks, old(self)@.pos) {
                Ok(prog) => {
                    &&& r matches Ok(x) && x@ == prog
                    &&& final(self)@.pos == program_len(old(self)@.toks, old(self)@.pos)
                    &&& final(self)@.pos <= old(self)@.toks.len()
                },
                Err(err) => r matches Err(x) && x@ == err,
            },
    {
        let ghost t = self@.toks;
        let ghost p = self@.pos;
        match self.expect(TokenKind::KwInt) {
            Ok(()) => {},
            Err(e) => {
                return Err(e);
            },
        }
        match self.expect_ident("main") {
            Ok(()) => {},
            Err(e) => {
                return Err(e);
            },
        }
        match self.expect(TokenKind::LParen) {
            Ok(()) => {},
            Err(e) => {
                return Err(e);
            },
        }
        match self.expect(TokenKind::RParen) {
            Ok(()) => {},
            Err(e) => {
                return Err(e);
            },
        }
        let block = match self.parse_block() {
            Ok(b) => b,
            Err(e) => {
                return Err(e);
            },
        };
        match self.expect(TokenKind::Eof) {
            Ok(()) => {},
            Err(e) => {
                return Err(e);
            },
        }
        Ok(block)
    }

    /// Reads `{ stmt* }`.
    pub fn parse_block(&mut self) -> (r: Result<Stmt, CompileError>)
        requires
            old(self).inv(),
        ensures
            stmt_outcome(r, parse_block(old(self)@.toks, old(self)@.pos), old(self)@, *final(self)),
        decreases old(self)@.toks.len() - old(self)@.pos, 21int,
    {
        let ghost t = self@.toks;
        let ghost p = self@.pos;
        proof {
            lemma_block_step(t, p);
        }
        match self.expect(TokenKind::LBrace) {
            Ok(()) => {},
            Err(e) => {
                return Err(e);
            },
        }
        let ghost q0 = self@.pos;
        let mut stmts: Vec<Stmt> = Vec::new();
        proof {
            assert(Stmt::models(stmts@) =~= Seq::<StmtView>::empty());
            assert(prepend_stmts(Seq::empty(), 0, parse_block_items(t, q0)) == parse_block_items(
                t,
                q0,
            )) by {
                if let Ok((ss, m)) = parse_block_items(t, q0) {
                    assert(Seq::<StmtView>::empty() + ss =~= ss);
                }
            }
        }
        while !self.check(&TokenKind::RBrace)
            invariant
                self.inv(),
                self@.toks == t,
                t == old(self)@.toks,
                p == old(self)@.pos,
                q0 == p + 1,
                q0 <= self@.pos,
                p < t.len(),
                t[p as int].kind is LBrace,
                parse_block_items(t, q0) == prepend_stmts(
                    Stmt::models(stmts@),
                    (self@.pos - q0) as nat,
                    parse_block_items(t, self@.pos),
                ),
            decreases t.len() - self@.pos,
        {
            let ghost q = self@.pos;
            proof {
                lemma_items_step(t, q);
            }
            let s = match self.parse_stmt() {
                Ok(s) => s,
                Err(e) => {
                    proof {
                        lemma_block_step(t, p);
                    }
                    return Err(e);
                },
            };
            proof {
                lemma_stmt_advances(t, q);
                Stmt::lemma_models(stmts@);
                Stmt::lemma_models(stmts@.push(s));
            }
            let ghost before = Stmt::models(stmts@);
            stmts.push(s);
            proof {
                assert(Stmt::models(stmts@) =~= before + seq![s@]);
                let r = parse_block_items(t, self@.pos);
                if let Ok((ss, m)) = r {
                    assert(before + (seq![s@] + ss) =~= (before + seq![s@]) + ss);
                }
            }
        }
        proof {
            lemma_items_end(t, self@.pos);
        }
        match self.expect(TokenKind::RBrace) {
            Ok(()) => {},
            Err(e) => {
                return Err(e);
            },
        }
        proof {
            Stmt::lemma_models(stmts@);
            assert(Stmt::models(stmts@) + Seq::<StmtView>::empty() =~= Stmt::models(stmts@));
        }
        Ok(Stmt::Block(stmts))
    }

    /// Reads one statement.
    #[verifier::rlimit(60)]
    pub fn parse_stmt(&mut self) -> (r: Result<Stmt, CompileError>)
        requires
            old(self).inv(),
        ensures
            stmt_outcome(r, parse_stmt(old(self)@.toks, old(self)@.pos), old(self)@, *final(self)),
        decreases old(self)@.toks.len() - old(self)@.pos, 22int,
    {
        let ghost t = self@.toks;
        let ghost p = self@.pos;
        if self.check(&TokenKind::KwReturn) {
            proof {
                lemma_stmt_return(t, p);
            }
            self.advance();
            let expr = match self.parse_expr() {
                Ok(e) => e,
                Err(e) => {
                    return Err(e);
                },
            };
            match self.expect(TokenKind::Semicolon) {
                Ok(()) => {},
                Err(e) => {
                    return Err(e);
                },
            }
            return Ok(Stmt::Return(expr));
        }
        if self.check(&TokenKind::KwInt) {
            proof {
                lemma_stmt_decl(t, p);
            }
            self.advance();
            let name = match self.expect_any_ident() {
                Ok(name) => name,
                Err(e) => {
                    return Err(e);
                },
            };
            let init = if self.check(&TokenKind::Assign) {
                self.advance();
                match self.parse_expr() {
                    Ok(e) => Some(e),
                    Err(e) => {
                        return Err(e);
                    },
                }
            } else {
                None
            };
            match self.expect(TokenKind::Semicolon) {
                Ok(()) => {},
                Err(e) => {
                    return Err(e);
                },
            }
            return Ok(Stmt::Decl(name, init));
        }
        if self.check(&TokenKind::KwIf) {
            proof {
                lemma_stmt_if(t, p);
            }
            self.advance();
            match self.expect(TokenKind::LParen) {
                Ok(()) => {},
                Err(e) => {
                    return Err(e);
                },
            }
            let cond = match self.parse_expr() {
                Ok(e) => e,
                Err(e) => {
                    return Err(e);
                },
            };
            match self.expect(TokenKind::RParen) {
                Ok(()) => {},
                Err(e) => {
                    return Err(e);
                },
            }
            let then_stmt = match self.parse_stmt() {
                Ok(s) => Box::new(s),
                Err(e) => {
                    return Err(e);
                },
            };
            let else_stmt = if self.check(&TokenKind::KwElse) {
                self.advance();
                match self.parse_stmt() {
                    Ok(s) => Some(Box::new(s)),
                    Err(e) => {
                        return Err(e);
                    },
                }
            } else {
                None
            };
            return Ok(Stmt::If(cond, then_stmt, else_stmt));
        }
        if self.check(&TokenKind::KwWhile) {
            proof {
                lemma_stmt_while(t, p);
            }
            self.advance();
            match self.expect(TokenKind::LParen) {
                Ok(()) => {},
                Err(e) => {
                    return Err(e);
                },
            }
            let cond = match self.parse_expr() {
                Ok(e) => e,
                Err(e) => {
                    return Err(e);
                },
            };
            match self.expect(TokenKind::RParen) {
                Ok(()) => {},
                Err(e) => {
                    return Err(e);
                },
            }
            let body = match self.parse_stmt() {
                Ok(s) => Box::new(s),
                Err(e) => {
                    return Err(e);
                },
            };
            return Ok(Stmt::While(cond, body));
        }
        if self.check(&TokenKind::LBrace) {
            proof {
                lemma_stmt_block(t, p);
            }
            return self.parse_block();
        }
        proof {
            lemma_stmt_expr(t, p);
        }
        let expr = match self.parse_expr() {
            Ok(e) => e,
            Err(e) => {
                return Err(e);
            },
        };
        match self.expect(TokenKind::Semicolon) {
            Ok(()) => {},
            Err(e) => {
                return Err(e);
            },
        }
        Ok(Stmt::Expr(expr))
    }

    /// Reads one expression.
    pub fn parse_expr(&mut self) -> (r: Result<Expr, CompileError>)
        requires
            old(self).inv(),
        ensures
            expr_outcome(r, parse_expr(old(self)@.toks, old(self)@.pos), old(self)@, *final(self)),
        decreases old(self)@.toks.len() - old(self)@.pos, 13int,
    {
        self.parse_assignment()
    }

    /// Reads an assignment, which groups to the right, or an equality.
    pub fn parse_assignment(&mut self) -> (r: Result<Expr, CompileError>)
        requires
            old(self).inv(),
        ensures
            expr_outcome(
                r,
                parse_assignment(old(self)@.toks, old(self)@.pos),
                old(self)@,
                *final(self),
            ),
        decreases old(self)@.toks.len() - old(self)@.pos, 12int,
    {
        let left = match self.parse_equality() {
            Ok(e) => e,
            Err(e) => {
                return Err(e);
            },
        };
        if self.check(&TokenKind::Assign) {
            self.advance();
            let right = match self.parse_assignment() {
                Ok(e) => e,
                Err(e) => {
                    return Err(e);
                },
            };
            if let Expr::Var(name) = left {
                return Ok(Expr::Assign(name, Box::new(right)));
            }
            let t = self.current();
            return Err(
                CompileError::new(
                    t.line,
                    t.col,
                    "left side of assignment must be variable".to_owned(),
                ),
            );
        }
        Ok(left)
    }

    /// Reads one level of left-associative binary operators.
    pub fn parse_equality(&mut self) -> (r: Result<Expr, CompileError>)
        requires
            old(self).inv(),
        ensures
            expr_outcome(
                r,
                parse_binary(old(self)@.toks, old(self)@.pos, Level::Equality),
                old(self)@,
                *final(self),
            ),
        decreases old(self)@.toks.len() - old(self)@.pos, 10int,
    {
        let ghost t = self@.toks;
        let ghost p = self@.pos;
        let first = self.parse_relational();
        proof {
            lemma_binary_step(t, p, Level::Equality);
        }
        let mut left = match first {
            Ok(e) => e,
            Err(e) => {
                return Err(e);
            },
        };
        let ghost q0 = self@.pos;
        let ghost left0 = left@;
        while self.check(&TokenKind::Eq) || self.check(&TokenKind::Ne)
            invariant
                self.inv(),
                self@.toks == t,
                t == old(self)@.toks,
                p == old(self)@.pos,
                p <= q0 <= self@.pos,
                parse_binary(t, p, Level::Equality) == shift_expr(
                    parse_binary_rest(t, q0, Level::Equality, left0),
                    (q0 - p) as nat,
                ),
                parse_binary_rest(t, q0, Level::Equality, left0) == shift_expr(
                    parse_binary_rest(t, self@.pos, Level::Equality, left@),
                    (self@.pos - q0) as nat,
                ),
            decreases t.len() - self@.pos,
        {
            let op = if self.check(&TokenKind::Eq) {
                BinOp::Eq
            } else {
                BinOp::Ne
            };
            let ghost q = self@.pos;
            proof {
                self.lemma_not_last();
            }
            self.advance();
            let second = self.parse_relational();
            proof {
                lemma_binary_rest_step(t, q, Level::Equality, left@);
            }
            let right = match second {
                Ok(e) => e,
                Err(e) => {
                    return Err(e);
                },
            };
            left = Expr::Binary(op, Box::new(left), Box::new(right));
        }
        proof {
            lemma_binary_rest_end(t, self@.pos, Level::Equality, left@);
        }
        Ok(left)
    }

    /// Reads one level of left-associative binary operators.
    pub fn parse_relational(&mut self) -> (r: Result<Expr, CompileError>)
        requires
            old(self).inv(),
        ensures
            expr_outcome(
                r,
                parse_binary(old(self)@.toks, old(self)@.pos, Level::Relational),
                old(self)@,
                *final(self),
            ),
        decreases old(self)@.toks.len() - old(self)@.pos, 8int,
    {
        let ghost t = self@.toks;
        let ghost p = self@.pos;
        let first = self.parse_additive();
        proof {
            lemma_binary_step(t, p, Level::Relational);
        }
        let mut left = match first {
            Ok(e) => e,
            Err(e) => {
                return Err(e);
            },
        };
        let ghost q0 = self@.pos;
        let ghost left0 = left@;
        while self.check(&TokenKind::Lt) || self.check(&TokenKind::Le) || self.check(&TokenKind::Gt) || self.check(&TokenKind::Ge)
            invariant
                self.inv(),
                self@.toks == t,
                t == old(self)@.toks,
                p == old(self)@.pos,
                p <= q0 <= self@.pos,
                parse_binary(t, p, Level::Relational) == shift_expr(
                    parse_binary_rest(t, q0, Level::Relational, left0),
                    (q0 - p) as nat,
                ),
                parse_binary_rest(t, q0, Level::Relational, left0) == shift_expr(
                    parse_binary_rest(t, self@.pos, Level::Relational, left@),
                    (self@.pos - q0) as nat,
                ),
            decreases t.len() - self@.pos,
        {
            let op = match self.current().kind {
                TokenKind::Lt => BinOp::Lt,
                TokenKind::Le => BinOp::Le,
                TokenKind::Gt => BinOp::Gt,
                _ => BinOp::Ge,
            };
            let ghost q = self@.pos;
            proof {
                self.lemma_not_last();
            }
            self.advance();
            let second = self.parse_additive();
            proof {
                lemma_binary_rest_step(t, q, Level::Relational, left@);
            }
            let right = match second {
                Ok(e) => e,
                Err(e) => {
                    return Err(e);
                },
            };
            left = Expr::Binary(op, Box::new(left), Box::new(right));
        }
        proof {
            lemma_binary_rest_end(t, self@.pos, Level::Relational, left@);
        }
        Ok(left)
    }

    /// Reads one level of left-associative binary operators.
    pub fn parse_additive(&mut self) -> (r: Result<Expr, CompileError>)
        requires
            old(self).inv(),
        ensures
            expr_outcome(
                r,
                parse_binary(old(self)@.toks, old(self)@.pos, Level::Additive),
                old(self)@,
                *final(self),
            ),
        decreases old(self)@.toks.len() - old(self)@.pos, 6int,
    {
        let ghost t = self@.toks;
        let ghost p = self@.pos;
        let first = self.parse_term();
        proof {
            lemma_binary_step(t, p, Level::Additive);
        }
        let mut left = match first {
            Ok(e) => e,
            Err(e) => {
                return Err(e);
            },
        };
        let ghost q0 = self@.pos;
        let ghost left0 = left@;
        while self.check(&TokenKind::Plus) || self.check(&TokenKind::Minus)
            invariant
                self.inv(),
                self@.toks == t,
                t == old(self)@.toks,
                p == old(self)@.pos,
                p <= q0 <= self@.pos,
                parse_binary(t, p, Level::Additive) == shift_expr(
                    parse_binary_rest(t, q0, Level::Additive, left0),
                    (q0 - p) as nat,
                ),
                parse_binary_rest(t, q0, Level::Additive, left0) == shift_expr(
                    parse_binary_rest(t, self@.pos, Level::Additive, left@),
                    (self@.pos - q0) as nat,
                ),
            decreases t.len() - self@.pos,
        {
            let op = if self.check(&TokenKind::Plus) {
                BinOp::Add
            } else {
                BinOp::Sub
            };
            let ghost q = self@.pos;
            proof {
                self.lemma_not_last();
            }
            self.advance();
            let second = self.parse_term();
            proof {
                lemma_binary_rest_step(t, q, Level::Additive, left@);
            }
            let right = match second {
                Ok(e) => e,
                Err(e) => {
                    return Err(e);
                },
            };
            left = Expr::Binary(op, Box::new(left), Box::new(right));
        }
        proof {
            lemma_binary_rest_end(t, self@.pos, Level::Additive, left@);
        }
        Ok(left)
    }

    /// Reads one level of left-associative binary operators.
    pub fn parse_term(&mut self) -> (r: Result<Expr, CompileError>)
        requires
            old(self).inv(),
        ensures
            expr_outcome(
                r,
                parse_binary(old(self)@.toks, old(self)@.pos, Level::Term),
                old(self)@,
                *final(self),
            ),
        decreases old(self)@.toks.len() - old(self)@.pos, 4int,
    {
        let ghost t = self@.toks;
        let ghost p = self@.pos;
        let first = self.parse_unary();
        proof {
            lemma_binary_step(t, p, Level::Term);
        }
        let mut left = match first {
            Ok(e) => e,
            Err(e) => {
                return Err(e);
            },
        };
        let ghost q0 = self@.pos;
        let ghost left0 = left@;
        while self.check(&TokenKind::Star) || self.check(&TokenKind::Slash)
            invariant
                self.inv(),
                self@.toks == t,
                t == old(self)@.toks,
                p == old(self)@.pos,
                p <= q0 <= self@.pos,
                parse_binary(t, p, Level::Term) == shift_expr(
                    parse_binary_rest(t, q0, Level::Term, left0),
                    (q0 - p) as nat,
                ),
                parse_binary_rest(t, q0, Level::Term, left0) == shift_expr(
                    parse_binary_rest(t, self@.pos, Level::Term, left@),
                    (self@.pos - q0) as nat,
                ),
            decreases t.len() - self@.pos,
        {
            let op = if self.check(&TokenKind::Star) {
                BinOp::Mul
            } else {
                BinOp::Div
            };
            let ghost q = self@.pos;
            proof {
                self.lemma_not_last();
            }
            self.advance();
            let second = self.parse_unary();
            proof {
                lemma_binary_rest_step(t, q, Level::Term, left@);
            }
            let right = match second {
                Ok(e) => e,
                Err(e) => {
                    return Err(e);
                },
            };
            left = Expr::Binary(op, Box::new(left), Box::new(right));
        }
        proof {
            lemma_binary_rest_end(t, self@.pos, Level::Term, left@);
        }
        Ok(left)
    }

    /// Reads a prefix `-` or `+` and its operand, or a primary expression.
    pub fn parse_unary(&mut self) -> (r: Result<Expr, CompileError>)
        requires
            old(self).inv(),
        ensures
            expr_outcome(r, parse_unary(old(self)@.toks, old(self)@.pos), old(self)@, *final(self)),
        decreases old(self)@.toks.len() - old(self)@.pos, 2int,
    {
        if self.check(&TokenKind::Minus) {
            self.advance();
            return match self.parse_unary() {
                Ok(e) => Ok(Expr::UnaryNeg(Box::new(e))),
                Err(e) => Err(e),
            };
        }
        if self.check(&TokenKind::Plus) {
            self.advance();
            return match self.parse_unary() {
                Ok(e) => Ok(Expr::UnaryPlus(Box::new(e))),
                Err(e) => Err(e),
            };
        }
        self.parse_primary()
    }

    /// Reads a number, a variable, or a parenthesized expression.
    pub fn parse_primary(&mut self) -> (r: Result<Expr, CompileError>)
        requires
            old(self).inv(),
        ensures
            expr_outcome(r, parse_primary(old(self)@.toks, old(self)@.pos), old(self)@, *final(self)),
        decreases old(self)@.toks.len() - old(self)@.pos, 1int,
    {
        match &self.current().kind {
            TokenKind::Number(v) => {
                let out = Expr::Number(*v);
                self.advance();
                Ok(out)
            },
            TokenKind::Ident(name) => {
                let out = Expr::Var(name.clone());
                self.advance();
                Ok(out)
            },
            TokenKind::LParen => {
                self.advance();
                let expr = match self.parse_expr() {
                    Ok(e) => e,
                    Err(e) => {
                        return Err(e);
                    },
                };
                match self.expect(TokenKind::RParen) {
                    Ok(()) => {},
                    Err(e) => {
                        return Err(e);
                    },
                }
                Ok(expr)
            },
            _ => {
                let t = self.current();
                let mut message = "expected expression, got `".to_owned();
                message.append(t.lexeme.as_str());
                message.append("`");
                Err(CompileError::new(t.line, t.col, message))
            },
        }
    }

    /// Whether the current token is of the same kind as `kind`, whatever either carries.
    pub fn check(&self, kind: &TokenKind) -> (r: bool)
        requires
            self@.pos < self@.toks.len(),
        ensures
            r == same_kind(self@.toks[self@.pos as int].kind, kind@),
    {
        tag_of(&self.current().kind) == tag_of(kind)
    }

    /// Moves to the next token.
    pub fn advance(&mut self)
        requires
            old(self)@.pos < old(self)@.toks.len(),
        ensures
            final(self)@.toks == old(self)@.toks,
            final(self)@.pos == old(self)@.pos + 1,
    {
        let n = self.tokens.len();
        proof {
            assert(self@.toks.len() == n);
        }
        self.i += 1;
    }

    /// The current token.
    pub fn current(&self) -> (t: &Token)
        requires
            self@.pos < self@.toks.len(),
        ensures
            t@ == self@.toks[self@.pos as int],
    {
        &self.tokens[self.i]
    }

    /// Moves past a token of the kind of `expected`, or reports what stands there instead.
    pub fn expect(&mut self, expected: TokenKind) -> (r: Result<(), CompileError>)
        requires
            old(self).inv(),
        ensures
            final(self)@.toks == old(self)@.toks,
            same_kind(old(self)@.toks[old(self)@.pos as int].kind, expected@) ==> {
                &&& r is Ok
                &&& final(self)@.pos == old(self)@.pos + 1
                &&& !(expected@ is Eof) ==> final(self).inv()
            },
            !same_kind(old(self)@.toks[old(self)@.pos as int].kind, expected@) ==> {
                &&& r matches Err(e) && e@ == expect_error(
                    old(self)@.toks,
                    old(self)@.pos,
                    expected@,
                )
                &&& final(self)@ == old(self)@
            },
    {
        if self.check(&expected) {
            self.advance();
            Ok(())
        } else {
            let t = self.current();
            let mut message = "expected ".to_owned();
            message.append(token_name(&expected));
            message.append(", got `");
            message.append(t.lexeme.as_str());
            message.append("`");
            Err(CompileError::new(t.line, t.col, message))
        }
    }

    /// Moves past the identifier `expected`, or reports what stands there instead.
    pub fn expect_ident(&mut self, expected: &str) -> (r: Result<(), CompileError>)
        requires
            old(self).inv(),
        ensures
            final(self)@.toks == old(self)@.toks,
            old(self)@.toks[old(self)@.pos as int].kind == KindView::Ident(expected@) ==> {
                &&& r is Ok
                &&& final(self)@.pos == old(self)@.pos + 1
                &&& final(self).inv()
            },
            old(self)@.toks[old(self)@.pos as int].kind != KindView::Ident(expected@) ==> {
                &&& r matches Err(e) && e@ == error_here(
                    old(self)@.toks,
                    old(self)@.pos,
                    "expected identifier `"@ + expected@ + "`, got `"@ + old(
                        self,
                    )@.toks[old(self)@.pos as int].lexeme + "`"@,
                )
                &&& final(self)@ == old(self)@
            },
    {
        let matched = match &self.current().kind {
            TokenKind::Ident(s) => *s == expected.to_owned(),
            _ => false,
        };
        if matched {
            self.advance();
            Ok(())
        } else {
            let t = self.current();
            let mut message = "expected identifier `".to_owned();
            message.append(expected);
            message.append("`, got `");
            message.append(t.lexeme.as_str());
            message.append("`");
            Err(CompileError::new(t.line, t.col, message))
        }
    }

    /// Moves past any identifier and returns its name, or reports that none stands there.
    pub fn expect_any_ident(&mut self) -> (r: Result<String, CompileError>)
        requires
            old(self).inv(),
        ensures
            final(self)@.toks == old(self)@.toks,
            old(self)@.toks[old(self)@.pos as int].kind matches KindView::Ident(name) ==> {
                &&& r matches Ok(s) && s@ == name
                &&& final(self)@.pos == old(self)@.pos + 1
                &&& final(self).inv()
            },
            !(old(self)@.toks[old(self)@.pos as int].kind is Ident) ==> {
                &&& r matches Err(e) && e@ == error_here(
                    old(self)@.toks,
                    old(self)@.pos,
                    "expected identifier"@,
                )
                &&& final(self)@ == old(self)@
            },
    {
        match &self.current().kind {
            TokenKind::Ident(s) => {
                let out = s.clone();
                self.advance();
                Ok(out)
            },
            _ => {
                let t = self.current();
                Err(CompileError::new(t.line, t.col, "expected identifier".to_owned()))
            },
        }
    }
}

} // verus!
