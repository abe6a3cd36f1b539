use cdc::ast::{BinOp, Expr, Stmt};
use cdc::codegen::Codegen;
use cdc::compiler::compile_source;
use cdc::error::CompileError;
use cdc::lexer::Lexer;
use cdc::parser::Parser;
use cdc::text::{
    is_ascii_alpha, is_ascii_digit, is_ident_continue, is_whitespace, parse_decimal_i64,
    push_i64_text, push_u64_text,
};
use cdc::token::{token_name, Token, TokenKind};

fn lex(src: &str) -> Result<Vec<Token>, CompileError> {
    Lexer::new(src).tokenize()
}

fn compile_err(src: &str) -> CompileError {
    compile_source(src).expect_err("must fail")
}

// ---------------------------------------------------------------------------
// Lexing, parsing and code generation of small programs
// ---------------------------------------------------------------------------

#[test]
fn lexer_comments_and_ops() {
    let mut lex = Lexer::new("int main(){/*x*/int a=1; // y\n return a==1;}");
    let t = lex.tokenize().expect("tokenize");
    assert!(t.iter().any(|x| matches!(x.kind, TokenKind::Eq)));
}

#[test]
fn compile_control_flow_and_vars() {
    let src = r#"
            int main() {
                int i = 0;
                int s = 0;
                while (i < 5) {
                    s = s + i;
                    i = i + 1;
                }
                if (s == 10) {
                    return 42;
                } else {
                    return 1;
                }
            }
        "#;
    let assembly = compile_source(src).expect("compile");
    assert!(assembly.contains("while_start"));
    assert!(assembly.contains("sete %al"));
}

#[test]
fn undefined_var_rejected() {
    let err = compile_source("int main(){ return x; }").expect_err("must fail");
    assert!(err.message.contains("undefined variable"));
}

// ---------------------------------------------------------------------------
// Character classes and decimal text
// ---------------------------------------------------------------------------

#[test]
fn char_classes_agree_with_std() {
    for code in 0u32..0x11_0000 {
        if let Some(c) = char::from_u32(code) {
            assert_eq!(is_whitespace(c), c.is_whitespace(), "whitespace {code:#x}");
            assert_eq!(is_ascii_alpha(c), c.is_ascii_alphabetic(), "alpha {code:#x}");
            assert_eq!(is_ascii_digit(c), c.is_ascii_digit(), "digit {code:#x}");
            assert_eq!(
                is_ident_continue(c),
                c.is_ascii_alphanumeric() || c == '_',
                "ident {code:#x}"
            );
        }
    }
}

#[test]
fn decimal_text_of_integers() {
    for v in [0i64, 7, -7, 10, 42, -4096, 1234567890, i64::MAX, i64::MIN] {
        let mut s = String::from("x");
        push_i64_text(&mut s, v);
        assert_eq!(s, format!("x{v}"));
    }
    let mut s = String::new();
    push_u64_text(&mut s, u64::MAX);
    assert_eq!(s, "18446744073709551615");
}

#[test]
fn decimal_parse_limits() {
    assert_eq!(parse_decimal_i64("0"), Some(0));
    assert_eq!(parse_decimal_i64("007"), Some(7));
    assert_eq!(parse_decimal_i64("9223372036854775807"), Some(i64::MAX));
    assert_eq!(parse_decimal_i64("9223372036854775808"), None);
    assert_eq!(parse_decimal_i64("99999999999999999999999"), None);
    assert_eq!(parse_decimal_i64("00000000000000000000009"), Some(9));
}

// ---------------------------------------------------------------------------
// The lexer
// ---------------------------------------------------------------------------

#[test]
fn lexer_tokens_kinds_lexemes_and_positions() {
    let t = lex("int x = 42;\n  while (x >= 1) x = x - 1;").expect("tokenize");
    let kinds: Vec<&TokenKind> = t.iter().map(|t| &t.kind).collect();
    assert_eq!(kinds[0], &TokenKind::KwInt);
    assert_eq!(kinds[1], &TokenKind::Ident("x".to_string()));
    assert_eq!(kinds[2], &TokenKind::Assign);
    assert_eq!(kinds[3], &TokenKind::Number(42));
    assert_eq!(kinds[4], &TokenKind::Semicolon);
    assert_eq!(kinds[5], &TokenKind::KwWhile);
    assert_eq!(kinds[8], &TokenKind::Ge);
    assert_eq!(t[8].lexeme, ">=");
    assert_eq!((t[0].line, t[0].col), (1, 1));
    assert_eq!((t[3].line, t[3].col), (1, 9));
    assert_eq!((t[5].line, t[5].col), (2, 3));
    let last = t.last().unwrap();
    assert_eq!(last.kind, TokenKind::Eof);
    assert_eq!(last.lexeme, "");
    assert_eq!((last.line, last.col), (2, 28));
}

#[test]
fn lexer_eof_only_at_end() {
    let t = lex("a b /* c */ d // e").expect("tokenize");
    let eofs = t.iter().filter(|t| t.kind == TokenKind::Eof).count();
    assert_eq!(eofs, 1);
    assert_eq!(t.last().unwrap().kind, TokenKind::Eof);
    assert_eq!(t.len(), 4);
    let empty = lex("").expect("tokenize");
    assert_eq!(empty.len(), 1);
    assert_eq!((empty[0].line, empty[0].col), (1, 1));
}

#[test]
fn lexer_kinds_fit_lexemes() {
    let t = lex("int return if else while iffy _x9 0123 ( ) { } ; , + - * / = == != < <= > >=")
        .expect("tokenize");
    for tok in &t {
        match &tok.kind {
            TokenKind::Ident(name) => assert_eq!(name, &tok.lexeme),
            TokenKind::Number(v) => assert_eq!(v.to_string(), tok.lexeme.trim_start_matches('0')),
            TokenKind::Eof => assert!(tok.lexeme.is_empty()),
            _ => assert!(!tok.lexeme.is_empty()),
        }
    }
    assert_eq!(t[5].kind, TokenKind::Ident("iffy".to_string()));
    assert_eq!(t[7].kind, TokenKind::Number(123));
}

#[test]
fn lexer_two_char_operators_win() {
    let t = lex("a<=b==c!=d>=e=f").expect("tokenize");
    let names: Vec<&str> = t.iter().map(|t| t.lexeme.as_str()).collect();
    assert_eq!(names, vec!["a", "<=", "b", "==", "c", "!=", "d", ">=", "e", "=", "f", ""]);
}

#[test]
fn lexer_unexpected_character() {
    let err = lex("int main() {\n  return 1 @ 2;\n}").expect_err("must fail");
    assert_eq!(err.message, "unexpected character `@`");
    assert_eq!((err.line, err.col), (2, 12));
    let err = lex("!").expect_err("must fail");
    assert_eq!(err.message, "unexpected character `!`");
}

#[test]
fn lexer_unterminated_block_comment() {
    let err = lex("int x;\n  /* never closed *").expect_err("must fail");
    assert_eq!(err.message, "unterminated block comment");
    assert_eq!((err.line, err.col), (2, 3));
}

#[test]
fn lexer_integer_out_of_range() {
    let err = lex("x = 9223372036854775808;").expect_err("must fail");
    assert_eq!(err.message, "integer literal out of range: 9223372036854775808");
    assert_eq!((err.line, err.col), (1, 5));
    let t = lex("9223372036854775807").expect("tokenize");
    assert_eq!(t[0].kind, TokenKind::Number(i64::MAX));
}

#[test]
fn lexer_line_comment_at_end_and_newlines() {
    let t = lex("a // comment without newline").expect("tokenize");
    assert_eq!(t.len(), 2);
    let t = lex("a // c\nb").expect("tokenize");
    assert_eq!((t[1].line, t[1].col), (2, 1));
}

#[test]
fn lexer_primitives() {
    let mut lx = Lexer::new("ab\ncd");
    assert_eq!(lx.peek(), Some('a'));
    assert_eq!(lx.peek_next(), Some('b'));
    assert!(lx.starts_with("ab"));
    assert!(!lx.starts_with("abc\n"));
    assert_eq!(lx.bump(), Some('a'));
    let word = lx.consume_while(|c| c.is_ascii_alphabetic());
    assert_eq!(word, "b");
    assert_eq!(lx.bump(), Some('\n'));
    lx.skip_line_comment();
    assert_eq!(lx.peek(), None);
    assert_eq!(lx.bump(), None);
}

// ---------------------------------------------------------------------------
// The parser
// ---------------------------------------------------------------------------

fn parse(src: &str) -> Result<Stmt, CompileError> {
    let tokens = lex(src).expect("tokenize");
    Parser::new(tokens).parse_program()
}

fn parse_expr_of(src: &str) -> Expr {
    let tokens = lex(src).expect("tokenize");
    Parser::new(tokens).parse_expr().expect("parse")
}

#[test]
fn parser_precedence_and_associativity() {
    let e = parse_expr_of("a - b - c * d == 1 < 2");
    // ((a - b) - (c * d)) == (1 < 2)
    match e {
        Expr::Binary(BinOp::Eq, l, r) => {
            match *l {
                Expr::Binary(BinOp::Sub, ll, lr) => {
                    assert!(matches!(*ll, Expr::Binary(BinOp::Sub, _, _)));
                    assert!(matches!(*lr, Expr::Binary(BinOp::Mul, _, _)));
                }
                other => panic!("unexpected {other:?}"),
            }
            assert!(matches!(*r, Expr::Binary(BinOp::Lt, _, _)));
        }
        other => panic!("unexpected {other:?}"),
    }
}

#[test]
fn parser_assignment_groups_right_and_unary() {
    match parse_expr_of("a = b = -+3") {
        Expr::Assign(a, rhs) => {
            assert_eq!(a, "a");
            match *rhs {
                Expr::Assign(b, inner) => {
                    assert_eq!(b, "b");
                    match *inner {
                        Expr::UnaryNeg(p) => match *p {
                            Expr::UnaryPlus(n) => assert!(matches!(*n, Expr::Number(3))),
                            other => panic!("unexpected {other:?}"),
                        },
                        other => panic!("unexpected {other:?}"),
                    }
                }
                other => panic!("unexpected {other:?}"),
            }
        }
        other => panic!("unexpected {other:?}"),
    }
}

#[test]
fn parser_program_shape() {
    let prog = parse("int main() { int a; int b = 2; if (a) b = 1; else { } while (b) b = b - 1; return b; }")
        .expect("parse");
    match prog {
        Stmt::Block(stmts) => {
            assert_eq!(stmts.len(), 5);
            assert!(matches!(&stmts[0], Stmt::Decl(n, None) if n == "a"));
            assert!(matches!(&stmts[1], Stmt::Decl(n, Some(Expr::Number(2))) if n == "b"));
            assert!(matches!(&stmts[2], Stmt::If(_, _, Some(_))));
            assert!(matches!(&stmts[3], Stmt::While(_, _)));
            assert!(matches!(&stmts[4], Stmt::Return(Expr::Var(n)) if n == "b"));
        }
        other => panic!("unexpected {other:?}"),
    }
}

#[test]
fn parser_errors() {
    let err = parse("int main() { return 1 }").unwrap_err();
    assert_eq!(err.message, "expected `;`, got `}`");
    assert_eq!((err.line, err.col), (1, 23));
    let err = parse("int mian() {}").unwrap_err();
    assert_eq!(err.message, "expected identifier `main`, got `mian`");
    let err = parse("void main() {}").unwrap_err();
    assert_eq!(err.message, "expected `int`, got `void`");
    let err = parse("int main() { 1 = 2; }").unwrap_err();
    assert_eq!(err.message, "left side of assignment must be variable");
    assert_eq!((err.line, err.col), (1, 19));
    let err = parse("int main() { int ; }").unwrap_err();
    assert_eq!(err.message, "expected identifier");
    let err = parse("int main() { return ; }").unwrap_err();
    assert_eq!(err.message, "expected expression, got `;`");
    let err = parse("int main() { } }").unwrap_err();
    assert_eq!(err.message, "expected end of file, got `}`");
    let err = parse("int main() { if 1) return 0; }").unwrap_err();
    assert_eq!(err.message, "expected `(`, got `1`");
    let err = parse("int main() { return 0;").unwrap_err();
    assert_eq!(err.message, "expected expression, got ``");
    let err = parse("int main() { return (1; }").unwrap_err();
    assert_eq!(err.message, "expected `)`, got `;`");
}

#[test]
fn token_names() {
    assert_eq!(token_name(&TokenKind::Eof), "end of file");
    assert_eq!(token_name(&TokenKind::Ident("q".to_string())), "identifier");
    assert_eq!(token_name(&TokenKind::Number(5)), "number");
    assert_eq!(token_name(&TokenKind::Le), "`<=`");
    assert_eq!(token_name(&TokenKind::KwWhile), "`while`");
}

// ---------------------------------------------------------------------------
// The code generator
// ---------------------------------------------------------------------------

const PROLOGUE: &str = ".text\n.globl main\nmain:\n    push %rbp\n    mov %rsp, %rbp\n    sub $4096, %rsp\n";
const EPILOGUE: &str = "    mov $0, %rax\n    leave\n    ret\n.section .note.GNU-stack,\"\",@progbits\n";

#[test]
fn codegen_exact_output() {
    let assembly = compile_source("int main() { int a = -2; return a * 3; }").expect("compile");
    let body = "    push $2\n    pop %rax\n    neg %rax\n    push %rax\n    pop %rax\n    mov %rax, -8(%rbp)\n    mov -8(%rbp), %rax\n    push %rax\n    push $3\n    pop %rdi\n    pop %rax\n    imul %rdi, %rax\n    push %rax\n    pop %rax\n    leave\n    ret\n";
    assert_eq!(assembly, format!("{PROLOGUE}{body}{EPILOGUE}"));
}

#[test]
fn codegen_if_else_labels() {
    let assembly = compile_source("int main() { if (1) return 1; else return 2; if (0) 3; }").expect("compile");
    let body = "    push $1\n    pop %rax\n    cmp $0, %rax\n    je .Lelse_0\n    push $1\n    pop %rax\n    leave\n    ret\n    jmp .Lendif_1\n.Lelse_0:\n    push $2\n    pop %rax\n    leave\n    ret\n.Lendif_1:\n    push $0\n    pop %rax\n    cmp $0, %rax\n    je .Lelse_2\n    push $3\n    add $8, %rsp\n    jmp .Lendif_3\n.Lelse_2:\n.Lendif_3:\n";
    assert_eq!(assembly, format!("{PROLOGUE}{body}{EPILOGUE}"));
}

#[test]
fn codegen_while_and_comparisons() {
    let assembly = compile_source("int main() { int i = 0; while (i != 3) i = i + 1; return i <= 3; }")
        .expect("compile");
    assert!(assembly.contains(".Lwhile_start_0:\n"));
    assert!(assembly.contains("    je .Lwhile_end_1\n"));
    assert!(assembly.contains("    jmp .Lwhile_start_0\n.Lwhile_end_1:\n"));
    assert!(assembly.contains("setne %al"));
    assert!(assembly.contains("setle %al"));
    assert!(assembly.contains("    mov %rax, -8(%rbp)\n    push %rax\n"));
}

#[test]
fn codegen_all_binary_operators() {
    let assembly = compile_source(
        "int main() { int a = 1; a + a; a - a; a * a; a / a; a == a; a != a; a < a; a <= a; a > a; a >= a; return 0; }",
    )
    .expect("compile");
    for op in ["add %rdi, %rax", "sub %rdi, %rax", "imul %rdi, %rax", "cqo\n    idiv %rdi", "sete", "setne", "setl %al", "setle", "setg %al", "setge"] {
        assert!(assembly.contains(op), "{op}");
    }
}

#[test]
fn codegen_undefined_variables() {
    let err = compile_err("int main(){ int a = 1; b = a; }");
    assert_eq!(err.message, "undefined variable `b`");
    assert_eq!((err.line, err.col), (1, 1));
    assert_eq!(err.render(), "1:1: undefined variable `b`");
    let err = compile_err("int main(){ int a; return a + (b = 1); }");
    assert_eq!(err.message, "undefined variable `b`");
    // A local lives for the rest of the function, also after its block.
    assert!(compile_source("int main(){ { int a; } return a; }").is_ok());
    // A local can be read in its own initializer.
    assert!(compile_source("int main(){ int a = a; return a; }").is_ok());
}

#[test]
fn codegen_too_many_locals() {
    let mut src = String::from("int main() {");
    for i in 0..512 {
        src.push_str(&format!(" int v{i};"));
    }
    src.push_str(" return 0; }");
    assert!(compile_source(&src).is_ok());
    src.insert_str(src.len() - 12, " int extra;");
    let err = compile_source(&src).unwrap_err();
    assert_eq!(err.message, "too many local variables");
    assert_eq!(err.render(), "1:1: too many local variables");
}

#[test]
fn codegen_locals_offsets() {
    let mut cg = Codegen::new();
    let a = cg.ensure_var("a");
    let b = cg.ensure_var("b");
    assert_eq!((a, b), (8, 16));
    assert_eq!(cg.ensure_var("a"), 8);
    assert_eq!(cg.lookup_var("b"), Some(16));
    assert_eq!(cg.lookup_var("c"), None);
}

#[test]
fn codegen_fresh_labels_differ() {
    let mut cg = Codegen::new();
    let l0 = cg.fresh_label("else");
    let l1 = cg.fresh_label("else");
    let l2 = cg.fresh_label("x");
    assert_eq!(l0, ".Lelse_0");
    assert_eq!(l1, ".Lelse_1");
    assert_eq!(l2, ".Lx_2");
}

#[test]
fn codegen_stmt_directly() {
    let mut cg = Codegen::new();
    // Outside a program the frame is empty, so a declaration does not fit.
    let r = cg.compile_stmt(&Stmt::Decl("x".to_string(), None));
    assert_eq!(r.unwrap_err().message, "too many local variables");
    let mut cg = Codegen::new();
    cg.compile_expr(&Expr::Number(i64::MIN)).expect("compile");
    let text = Codegen::new()
        .compile_program(Stmt::Return(Expr::Number(i64::MIN)))
        .expect("compile");
    assert!(text.contains("    push $-9223372036854775808\n    pop %rax\n    leave\n    ret\n"));
    let out = Codegen::new().compile_program(Stmt::Block(vec![])).expect("compile");
    assert_eq!(out, format!("{PROLOGUE}{EPILOGUE}"));
}

#[test]
fn compile_error_render() {
    let e = CompileError::new(12, 3, "boom".to_string());
    assert_eq!(e.render(), "12:3: boom");
}

// ---------------------------------------------------------------------------
// Properties on concrete sources
// ---------------------------------------------------------------------------

#[test]
fn lexer_second_tokenize_gives_only_eof() {
    let mut lx = Lexer::new("int a;\n a = 1;");
    let first = lx.tokenize().expect("tokenize");
    let again = lx.tokenize().expect("tokenize");
    assert_eq!(again.len(), 1);
    assert_eq!(again[0], first[first.len() - 1]);
    assert_eq!((again[0].line, again[0].col), (2, 8));
}

/// The character index of a line and column of `src`.
fn index_of_place(src: &str, line: usize, col: usize) -> usize {
    let chars: Vec<char> = src.chars().collect();
    let (mut l, mut c) = (1, 1);
    for (i, ch) in chars.iter().enumerate() {
        if (l, c) == (line, col) {
            return i;
        }
        if *ch == '\n' {
            l += 1;
            c = 1;
        } else {
            c += 1;
        }
    }
    assert_eq!((l, c), (line, col));
    chars.len()
}

#[test]
fn lexer_tokens_stand_at_their_places_in_order() {
    let src = "int main() {\n  /* a\n comment */ int x = 10; // done\n\treturn x>=1==0;\n}\n";
    let t = lex(src).expect("tokenize");
    let chars: Vec<char> = src.chars().collect();
    let mut prev_end = 0;
    for (k, tok) in t.iter().enumerate() {
        assert!(tok.line >= 1 && tok.col >= 1);
        let at = index_of_place(src, tok.line, tok.col);
        let n = tok.lexeme.chars().count();
        let text: String = chars[at..at + n].iter().collect();
        assert_eq!(text, tok.lexeme);
        assert!(at >= prev_end);
        prev_end = at + n;
        if k + 1 < t.len() {
            let next = &t[k + 1];
            assert!((tok.line, tok.col) < (next.line, next.col));
            assert!(!tok.lexeme.is_empty());
            assert_ne!(tok.kind, TokenKind::Eof);
        }
    }
    assert_eq!(prev_end, chars.len());
    let ge = t.iter().filter(|x| x.kind == TokenKind::Ge).count();
    let eq = t.iter().filter(|x| x.kind == TokenKind::Eq).count();
    assert_eq!((ge, eq), (1, 1));
    assert!(!t.iter().any(|x| x.kind == TokenKind::Assign && x.line == 4));
}

#[test]
fn token_names_quote_text_and_differ() {
    let kinds = vec![
        (TokenKind::KwInt, "int"),
        (TokenKind::KwReturn, "return"),
        (TokenKind::KwIf, "if"),
        (TokenKind::KwElse, "else"),
        (TokenKind::KwWhile, "while"),
        (TokenKind::LParen, "("),
        (TokenKind::RParen, ")"),
        (TokenKind::LBrace, "{"),
        (TokenKind::RBrace, "}"),
        (TokenKind::Semicolon, ";"),
        (TokenKind::Comma, ","),
        (TokenKind::Plus, "+"),
        (TokenKind::Minus, "-"),
        (TokenKind::Star, "*"),
        (TokenKind::Slash, "/"),
        (TokenKind::Assign, "="),
        (TokenKind::Eq, "=="),
        (TokenKind::Ne, "!="),
        (TokenKind::Lt, "<"),
        (TokenKind::Le, "<="),
        (TokenKind::Gt, ">"),
        (TokenKind::Ge, ">="),
    ];
    let mut names: Vec<&str> = Vec::new();
    for (kind, text) in &kinds {
        assert_eq!(token_name(kind), format!("`{text}`"));
        let lexed = lex(text).expect("tokenize");
        assert_eq!(&lexed[0].kind, kind);
        names.push(token_name(kind));
    }
    names.push(token_name(&TokenKind::Ident("v".to_string())));
    names.push(token_name(&TokenKind::Number(0)));
    names.push(token_name(&TokenKind::Eof));
    let mut unique = names.clone();
    unique.sort();
    unique.dedup();
    assert_eq!(unique.len(), names.len());
    assert_eq!(token_name(&TokenKind::Ident("a".to_string())), token_name(&TokenKind::Ident("b".to_string())));
}

#[test]
fn codegen_offsets_are_slots() {
    let mut cg = Codegen::new();
    for (k, name) in ["p", "q", "r", "s", "t"].iter().enumerate() {
        assert_eq!(cg.ensure_var(name), 8 * (k as i64 + 1));
    }
    for (k, name) in ["p", "q", "r", "s", "t"].iter().enumerate() {
        assert_eq!(cg.lookup_var(name), Some(8 * (k as i64 + 1)));
    }
}

#[test]
fn codegen_failed_statement_keeps_locals() {
    let mut cg = Codegen::new();
    assert_eq!(cg.ensure_var("a"), 8);
    let err = cg.compile_stmt(&Stmt::Expr(Expr::Var("zz".to_string()))).unwrap_err();
    assert_eq!(err.message, "undefined variable `zz`");
    assert_eq!((err.line, err.col), (1, 1));
    assert_eq!(cg.lookup_var("a"), Some(8));
    // The frame is empty here, so the declaration fails after `x` was declared.
    let err = cg.compile_stmt(&Stmt::Decl("x".to_string(), None)).unwrap_err();
    assert_eq!(err.message, "too many local variables");
    assert_eq!(cg.lookup_var("a"), Some(8));
    assert_eq!(cg.lookup_var("x"), Some(16));
    // Later declarations move nothing declared before.
    assert_eq!(cg.ensure_var("y"), 24);
    assert_eq!(cg.lookup_var("a"), Some(8));
}

#[test]
fn codegen_expression_code_pushes_one_value() {
    let assembly = compile_source("int main() { int a = 4; a = (a + 2) * -a / (a == 3); }").expect("compile");
    let body = assembly
        .strip_prefix(PROLOGUE)
        .and_then(|b| b.strip_suffix(EPILOGUE))
        .expect("framing");
    // The second statement is an expression statement: its code, then one `add $8, %rsp`.
    let stmt = body.splitn(2, "    mov %rax, -8(%rbp)\n").nth(1).expect("after the declaration");
    let expr_code = stmt.strip_suffix("    add $8, %rsp\n").expect("expression statement");
    let mut depth: i64 = 0;
    for line in expr_code.lines() {
        assert!(!line.ends_with(':') && !line.contains("jmp") && !line.contains(" je "));
        assert!(!line.contains("leave") && !line.contains("ret"));
        if line.starts_with("    push ") {
            depth += 1;
        } else if line.starts_with("    pop ") {
            depth -= 1;
        }
        assert!(depth >= 0);
    }
    assert_eq!(depth, 1);
}
