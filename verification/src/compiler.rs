//! The whole compiler: source text to assembly text, or the first error.
use vstd::prelude::*;
use crate::codegen::{
    Codegen, FRAME_SIZE, GenState, epilogue, gen_program, gen_stmt, label_count, label_count_seq,
    prologue,
};
use crate::error::{CompileError, ErrorView};
use crate::lexer::{Lexer, lemma_lex_eof, lex};
use crate::parser::{
    Parser, lemma_block_step, lemma_items_end, lemma_items_step, lemma_stmt_advances,
    lemma_stmt_block, lemma_stmt_decl, lemma_stmt_expr, lemma_stmt_if, lemma_stmt_return,
    lemma_stmt_while, parse_block, parse_block_items, parse_program, parse_stmt, rem,
};
use crate::token::TokenView;

verus! {

/// What compiling `src` gives: the assembly text, or the error of the first stage that fails.
pub open spec fn compile(src: Seq<char>) -> Result<Seq<char>, ErrorView> {
    match lex(src) {
        Err(err) => Err(err),
        Ok(toks) => match parse_program(toks, 0) {
            Err(err) => Err(err),
            Ok(prog) => gen_program(prog),
        },
    }
}

/// Compiles a C source text to x86-64 assembly text.
pub fn compile_source(source: &str) -> (r: Result<String, CompileError>)
    requires
        source@.len() < usize::MAX,
    ensures
        match compile(source@) {
            Ok(text) => r matches Ok(s) && s@ == text,
            Err(err) => r matches Err(x) && x@ == err,
        },
{
    let mut lexer = Lexer::new(source);
    let tokens = match lexer.tokenize() {
        Ok(t) => t,
        Err(e) => {
            return Err(e);
        },
    };
    proof {
        lemma_lex_eof(source@, 0);
    }
    let mut parser = Parser::new(tokens);
    let prog = match parser.parse_program() {
        Ok(p) => p,
        Err(e) => {
            return Err(e);
        },
    };
    proof {
        let t = parser@.toks;
        lemma_block_labels(t, 4);
        assert(label_count(prog@) <= parser@.pos);
        parser.lemma_pos_fits();
    }
    let cg = Codegen::new();
    proof {
        let fresh = GenState { vars: Seq::empty(), next_label: 0 };
        assert(cg.state() == fresh);
        if let Ok((code, _)) = gen_stmt(fresh, FRAME_SIZE as int, prog@) {
            assert(Seq::<char>::empty() + prologue() + code + epilogue() =~= prologue() + code
                + epilogue());
        }
    }
    cg.compile_program(prog)
}

// ---------------------------------------------------------------------------
// A program makes no more labels than it has tokens, so the label counter
// cannot overflow.
// ---------------------------------------------------------------------------

proof fn lemma_stmt_labels(t: Seq<TokenView>, p: nat)
    ensures
        parse_stmt(t, p) matches Ok((s, n)) ==> label_count(s) <= n,
    decreases rem(t, p), 2int,
{
    if p < t.len() {
        let k = t[p as int].kind;
        if k is KwReturn {
            lemma_stmt_return(t, p);
        } else if k is KwInt {
            lemma_stmt_decl(t, p);
        } else if k is KwIf {
            lemma_stmt_if(t, p);
            if let Ok((cond, n)) = crate::parser::parse_expr(t, p + 2) {
                let q = p + 2 + n;
                lemma_stmt_labels(t, q + 1);
                if let Ok((then_s, m)) = parse_stmt(t, q + 1) {
                    let r = q + 1 + m;
                    lemma_stmt_labels(t, r + 1);
                }
            }
        } else if k is KwWhile {
            lemma_stmt_while(t, p);
            if let Ok((cond, n)) = crate::parser::parse_expr(t, p + 2) {
                lemma_stmt_labels(t, p + 2 + n + 1);
            }
        } else if k is LBrace {
            lemma_stmt_block(t, p);
            lemma_block_labels(t, p);
        } else {
            lemma_stmt_expr(t, p);
        }
    } else {
        lemma_stmt_past_end(t, p);
    }
}

proof fn lemma_stmt_past_end(t: Seq<TokenView>, p: nat)
    requires
        p >= t.len(),
    ensures
        parse_stmt(t, p) is Err,
        parse_block(t, p) is Err,
        parse_block_items(t, p) is Err,
{
    reveal(parse_stmt);
    reveal(parse_block);
    reveal(parse_block_items);
}

proof fn lemma_block_labels(t: Seq<TokenView>, p: nat)
    ensures
        parse_block(t, p) matches Ok((s, n)) ==> label_count(s) <= n,
    decreases rem(t, p), 1int,
{
    if p < t.len() {
        lemma_block_step(t, p);
        lemma_items_labels(t, p + 1);
    } else {
        lemma_stmt_past_end(t, p);
    }
}

proof fn lemma_items_labels(t: Seq<TokenView>, p: nat)
    ensures
        parse_block_items(t, p) matches Ok((ss, n)) ==> label_count_seq(ss) <= n,
    decreases rem(t, p), 3int,
{
    if p < t.len() {
        if t[p as int].kind is RBrace {
            lemma_items_end(t, p);
        } else {
            lemma_items_step(t, p);
            lemma_stmt_advances(t, p);
            lemma_stmt_labels(t, p);
            if let Ok((s, n)) = parse_stmt(t, p) {
                lemma_items_labels(t, p + n);
                if let Ok((rest, m)) = parse_block_items(t, p + n) {
                    let all = seq![s] + rest;
                    assert(all[0] == s);
                    assert(all.subrange(1, all.len() as int) =~= rest);
                }
            }
        }
    } else {
        lemma_stmt_past_end(t, p);
    }
}

} // verus!
