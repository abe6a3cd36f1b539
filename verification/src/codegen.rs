//! The code generator: a syntax tree to x86-64 assembly text (AT&T syntax),
//! a stack machine over `%rax` and `%rdi` with locals below `%rbp`.
use vstd::prelude::*;
use crate::ast::{BinOp, Expr, ExprView, Stmt, StmtView};
use crate::error::{CompileError, ErrorView, error_at};
use crate::text::{int_text, nat_text, push_i64_text, push_usize_text};

verus! {

// ---------------------------------------------------------------------------
// What the generated code is
// ---------------------------------------------------------------------------

/// The stack frame that every program gets, in bytes.
pub const FRAME_SIZE: i64 = 4096;

/// With fewer locals than this, every offset fits an `i64`.
pub open spec fn max_vars() -> int {
    0x0100_0000_0000_0000
}

/// The locals declared so far, in order of declaration, and the number of labels made so far.
pub struct GenState {
    pub vars: Seq<Seq<char>>,
    pub next_label: nat,
}

pub type ExprGen = Result<Seq<char>, ErrorView>;

pub type StmtGen = Result<(Seq<char>, GenState), ErrorView>;

/// Where a local lives: the `k`-th declared one at `8 * (k + 1)` bytes below `%rbp`.
pub open spec fn var_offset(vars: Seq<Seq<char>>, name: Seq<char>) -> Option<int> {
    if vars.contains(name) {
        Some((vars.index_of(name) + 1) * 8)
    } else {
        None
    }
}

/// Declaring a name: the locals afterwards and its offset.
pub open spec fn declare(vars: Seq<Seq<char>>, name: Seq<char>) -> (Seq<Seq<char>>, int) {
    if vars.contains(name) {
        (vars, (vars.index_of(name) + 1) * 8)
    } else {
        (vars.push(name), ((vars.len() + 1) * 8) as int)
    }
}

pub open spec fn undefined_variable(name: Seq<char>) -> ErrorView {
    error_at(1, 1, "undefined variable `"@ + name + "`"@)
}

pub open spec fn too_many_locals() -> ErrorView {
    error_at(1, 1, "too many local variables"@)
}

/// The label `.L<prefix>_<n>`.
pub open spec fn label(prefix: Seq<char>, n: nat) -> Seq<char> {
    ".L"@ + prefix + "_"@ + nat_text(n)
}

/// The instructions that combine `%rax` (left) and `%rdi` (right) into `%rax`.
pub open spec fn binop_code(op: BinOp) -> Seq<char> {
    match op {
        BinOp::Add => "    add %rdi, %rax\n"@,
        BinOp::Sub => "    sub %rdi, %rax\n"@,
        BinOp::Mul => "    imul %rdi, %rax\n"@,
        BinOp::Div => "    cqo\n    idiv %rdi\n"@,
        BinOp::Eq => "    cmp %rdi, %rax\n    sete %al\n    movzb %al, %rax\n"@,
        BinOp::Ne => "    cmp %rdi, %rax\n    setne %al\n    movzb %al, %rax\n"@,
        BinOp::Lt => "    cmp %rdi, %rax\n    setl %al\n    movzb %al, %rax\n"@,
        BinOp::Le => "    cmp %rdi, %rax\n    setle %al\n    movzb %al, %rax\n"@,
        BinOp::Gt => "    cmp %rdi, %rax\n    setg %al\n    movzb %al, %rax\n"@,
        BinOp::Ge => "    cmp %rdi, %rax\n    setge %al\n    movzb %al, %rax\n"@,
    }
}

/// The code of an expression: it leaves the value pushed on the stack.
pub open spec fn gen_expr(vars: Seq<Seq<char>>, e: ExprView) -> ExprGen
    decreases e,
{
    match e {
        ExprView::Number(v) => Ok("    push $"@ + int_text(v as int) + "\n"@),
        ExprView::UnaryPlus(inner) => gen_expr(vars, *inner),
        ExprView::UnaryNeg(inner) => match gen_expr(vars, *inner) {
            Ok(c) => Ok(c + "    pop %rax\n    neg %rax\n    push %rax\n"@),
            Err(err) => Err(err),
        },
        ExprView::Var(name) => match var_offset(vars, name) {
            Some(off) => Ok("    mov -"@ + int_text(off) + "(%rbp), %rax\n    push %rax\n"@),
            None => Err(undefined_variable(name)),
        },
        ExprView::Assign(name, inner) => match gen_expr(vars, *inner) {
            Ok(c) => match var_offset(vars, name) {
                Some(off) => Ok(
                    c + "    pop %rax\n"@ + "    mov %rax, -"@ + int_text(off)
                        + "(%rbp)\n    push %rax\n"@,
                ),
                None => Err(undefined_variable(name)),
            },
            Err(err) => Err(err),
        },
        ExprView::Binary(op, l, r) => match gen_expr(vars, *l) {
            Ok(lc) => match gen_expr(vars, *r) {
                Ok(rc) => Ok(
                    lc + rc + "    pop %rdi\n    pop %rax\n"@ + binop_code(op) + "    push %rax\n"@,
                ),
                Err(err) => Err(err),
            },
            Err(err) => Err(err),
        },
    }
}

/// The code that compiling `e` appends before it fails: that of the parts
/// that compiled, in order, up to the one that does not.
pub open spec fn expr_partial(vars: Seq<Seq<char>>, e: ExprView) -> Seq<char>
    decreases e,
{
    match e {
        ExprView::Number(_) => Seq::empty(),
        ExprView::UnaryPlus(inner) => expr_partial(vars, *inner),
        ExprView::UnaryNeg(inner) => expr_partial(vars, *inner),
        ExprView::Var(_) => Seq::empty(),
        ExprView::Assign(_, inner) => match gen_expr(vars, *inner) {
            Ok(c) => c,
            Err(_) => expr_partial(vars, *inner),
        },
        ExprView::Binary(_, l, r) => match gen_expr(vars, *l) {
            Ok(lc) => lc + expr_partial(vars, *r),
            Err(_) => expr_partial(vars, *l),
        },
    }
}

/// Pops the condition and compares it with zero.
pub open spec fn test_code() -> Seq<char> {
    "    pop %rax\n    cmp $0, %rax\n"@
}

/// The code of a statement, from state `st` in a frame of `frame` bytes, and the state after it.
#[verifier::opaque]
pub open spec fn gen_stmt(st: GenState, frame: int, s: StmtView) -> StmtGen
    decreases s,
{
    match s {
        StmtView::Return(e) => match gen_expr(st.vars, e) {
            Ok(c) => Ok((c + "    pop %rax\n    leave\n    ret\n"@, st)),
            Err(err) => Err(err),
        },
        StmtView::Expr(e) => match gen_expr(st.vars, e) {
            Ok(c) => Ok((c + "    add $8, %rsp\n"@, st)),
            Err(err) => Err(err),
        },
        StmtView::Decl(name, init) => {
            let (vars, off) = declare(st.vars, name);
            let after = GenState { vars, next_label: st.next_label };
            if off > frame {
                Err(too_many_locals())
            } else {
                match init {
                    Some(e) => match gen_expr(vars, e) {
                        Ok(c) => Ok(
                            (
                                c + "    pop %rax\n"@ + "    mov %rax, -"@ + int_text(off)
                                    + "(%rbp)\n"@,
                                after,
                            ),
                        ),
                        Err(err) => Err(err),
                    },
                    None => Ok((Seq::empty(), after)),
                }
            }
        },
        StmtView::Block(stmts) => gen_stmts(st, frame, stmts),
        StmtView::If(cond, then_s, else_s) => {
            let else_l = label("else"@, st.next_label);
            let end_l = label("endif"@, st.next_label + 1);
            let st1 = GenState { vars: st.vars, next_label: st.next_label + 2 };
            match gen_expr(st.vars, cond) {
                Ok(cc) => match gen_stmt(st1, frame, *then_s) {
                    Ok((tc, st2)) => {
                        let head = cc + test_code() + "    je "@ + else_l + "\n"@ + tc + "    jmp "@
                            + end_l + "\n"@ + else_l + ":\n"@;
                        match else_s {
                            Some(es) => match gen_stmt(st2, frame, *es) {
                                Ok((ec, st3)) => Ok((head + ec + end_l + ":\n"@, st3)),
                                Err(err) => Err(err),
                            },
                            None => Ok((head + end_l + ":\n"@, st2)),
                        }
                    },
                    Err(err) => Err(err),
                },
                Err(err) => Err(err),
            }
        },
        StmtView::While(cond, body) => {
            let start = label("while_start"@, st.next_label);
            let end = label("while_end"@, st.next_label + 1);
            let st1 = GenState { vars: st.vars, next_label: st.next_label + 2 };
            match gen_expr(st.vars, cond) {
                Ok(cc) => match gen_stmt(st1, frame, *body) {
                    Ok((bc, st2)) => Ok(
                        (
                            start + ":\n"@ + cc + test_code() + "    je "@ + end + "\n"@ + bc
                                + "    jmp "@ + start + "\n"@ + end + ":\n"@,
                            st2,
                        ),
                    ),
                    Err(err) => Err(err),
                },
                Err(err) => Err(err),
            }
        },
    }
}

/// The code of a sequence of statements, one after the other.
#[verifier::opaque]
pub open spec fn gen_stmts(st: GenState, frame: int, stmts: Seq<StmtView>) -> StmtGen
    decreases stmts,
{
    if stmts.len() == 0 {
        Ok((Seq::empty(), st))
    } else {
        match gen_stmt(st, frame, stmts[0]) {
            Ok((c, st1)) => match gen_stmts(st1, frame, stmts.subrange(1, stmts.len() as int)) {
                Ok((rest, st2)) => Ok((c + rest, st2)),
                Err(err) => Err(err),
            },
            Err(err) => Err(err),
        }
    }
}

/// The code that compiling `s` from state `st` appends before it fails: that
/// of the parts that compiled, in order, up to the one that does not.
pub open spec fn stmt_partial(st: GenState, frame: int, s: StmtView) -> Seq<char>
    decreases s,
{
    match s {
        StmtView::Return(e) => expr_partial(st.vars, e),
        StmtView::Expr(e) => expr_partial(st.vars, e),
        StmtView::Decl(name, init) => {
            let (vars, off) = declare(st.vars, name);
            match init {
                Some(e) => if off > frame {
                    Seq::empty()
                } else {
                    expr_partial(vars, e)
                },
                None => Seq::empty(),
            }
        },
        StmtView::Block(stmts) => stmts_partial(st, frame, stmts),
        StmtView::If(cond, then_s, else_s) => {
            let else_l = label("else"@, st.next_label);
            let end_l = label("endif"@, st.next_label + 1);
            let st1 = GenState { vars: st.vars, next_label: st.next_label + 2 };
            match gen_expr(st.vars, cond) {
                Err(_) => expr_partial(st.vars, cond),
                Ok(cc) => {
                    let head = cc + test_code() + "    je "@ + else_l + "\n"@;
                    match gen_stmt(st1, frame, *then_s) {
                        Err(_) => head + stmt_partial(st1, frame, *then_s),
                        Ok((tc, st2)) => {
                            let mid = head + tc + "    jmp "@ + end_l + "\n"@ + else_l + ":\n"@;
                            match else_s {
                                Some(es) => mid + stmt_partial(st2, frame, *es),
                                None => mid,
                            }
                        },
                    }
                },
            }
        },
        StmtView::While(cond, body) => {
            let start = label("while_start"@, st.next_label);
            let end = label("while_end"@, st.next_label + 1);
            let st1 = GenState { vars: st.vars, next_label: st.next_label + 2 };
            match gen_expr(st.vars, cond) {
                Err(_) => start + ":\n"@ + expr_partial(st.vars, cond),
                Ok(cc) => start + ":\n"@ + cc + test_code() + "    je "@ + end + "\n"@
                    + stmt_partial(st1, frame, *body),
            }
        },
    }
}

/// The code that compiling `stmts` one after the other appends before one fails.
pub open spec fn stmts_partial(st: GenState, frame: int, stmts: Seq<StmtView>) -> Seq<char>
    decreases stmts,
{
    if stmts.len() == 0 {
        Seq::empty()
    } else {
        match gen_stmt(st, frame, stmts[0]) {
            Ok((c, st1)) => c + stmts_partial(st1, frame, stmts.subrange(1, stmts.len() as int)),
            Err(_) => stmt_partial(st, frame, stmts[0]),
        }
    }
}

// The translation of statements, one case at a time.

pub proof fn lemma_gen_return(st: GenState, frame: int, e: ExprView)
    ensures
        gen_stmt(st, frame, StmtView::Return(e)) == (match gen_expr(st.vars, e) {
            Ok(c) => Ok((c + "    pop %rax\n    leave\n    ret\n"@, st)),
            Err(err) => Err(err),
        }),
{
    reveal(gen_stmt);
    reveal(gen_stmts);
}

pub proof fn lemma_gen_expr_stmt(st: GenState, frame: int, e: ExprView)
    ensures
        gen_stmt(st, frame, StmtView::Expr(e)) == (match gen_expr(st.vars, e) {
            Ok(c) => Ok((c + "    add $8, %rsp\n"@, st)),
            Err(err) => Err(err),
        }),
{
    reveal(gen_stmt);
    reveal(gen_stmts);
}

pub proof fn lemma_gen_decl(st: GenState, frame: int, name: Seq<char>, init: Option<ExprView>)
    ensures
        gen_stmt(st, frame, StmtView::Decl(name, init)) == ({
            let (vars, off) = declare(st.vars, name);
            let after = GenState { vars, next_label: st.next_label };
            if off > frame {
                Err(too_many_locals())
            } else {
                match init {
                    Some(e) => match gen_expr(vars, e) {
                        Ok(c) => Ok(
                            (
                                c + "    pop %rax\n"@ + "    mov %rax, -"@ + int_text(off)
                                    + "(%rbp)\n"@,
                                after,
                            ),
                        ),
                        Err(err) => Err(err),
                    },
                    None => Ok((Seq::empty(), after)),
                }
            }
        }),
{
    reveal(gen_stmt);
    reveal(gen_stmts);
}

pub proof fn lemma_gen_block(st: GenState, frame: int, stmts: Seq<StmtView>)
    ensures
        gen_stmt(st, frame, StmtView::Block(stmts)) == gen_stmts(st, frame, stmts),
{
    reveal(gen_stmt);
    reveal(gen_stmts);
}

pub proof fn lemma_gen_stmts_empty(st: GenState, frame: int, stmts: Seq<StmtView>)
    requires
        stmts.len() == 0,
    ensures
        gen_stmts(st, frame, stmts) == Ok::<(Seq<char>, GenState), ErrorView>((Seq::empty(), st)),
{
    reveal(gen_stmt);
    reveal(gen_stmts);
}

pub proof fn lemma_gen_stmts_step(st: GenState, frame: int, stmts: Seq<StmtView>)
    requires
        stmts.len() > 0,
    ensures
        gen_stmts(st, frame, stmts) == (match gen_stmt(st, frame, stmts[0]) {
            Ok((c, st1)) => after_code(
                c,
                gen_stmts(st1, frame, stmts.subrange(1, stmts.len() as int)),
            ),
            Err(err) => Err(err),
        }),
{
    reveal(gen_stmt);
    reveal(gen_stmts);
}

pub proof fn lemma_gen_if(
    st: GenState,
    frame: int,
    cond: ExprView,
    then_s: StmtView,
    else_s: Option<Box<StmtView>>,
)
    ensures
        gen_stmt(st, frame, StmtView::If(cond, Box::new(then_s), else_s)) == ({
            let else_l = label("else"@, st.next_label);
            let end_l = label("endif"@, st.next_label + 1);
            let st1 = GenState { vars: st.vars, next_label: st.next_label + 2 };
            match gen_expr(st.vars, cond) {
                Ok(cc) => match gen_stmt(st1, frame, then_s) {
                    Ok((tc, st2)) => {
                        let head = cc + test_code() + "    je "@ + else_l + "\n"@ + tc + "    jmp "@
                            + end_l + "\n"@ + else_l + ":\n"@;
                        match else_s {
                            Some(es) => match gen_stmt(st2, frame, *es) {
                                Ok((ec, st3)) => Ok((head + ec + end_l + ":\n"@, st3)),
                                Err(err) => Err(err),
                            },
                            None => Ok((head + end_l + ":\n"@, st2)),
                        }
                    },
                    Err(err) => Err(err),
                },
                Err(err) => Err(err),
            }
        }),
{
    reveal(gen_stmt);
    reveal(gen_stmts);
}

pub proof fn lemma_gen_while(st: GenState, frame: int, cond: ExprView, body: StmtView)
    ensures
        gen_stmt(st, frame, StmtView::While(cond, Box::new(body))) == ({
            let start = label("while_start"@, st.next_label);
            let end = label("while_end"@, st.next_label + 1);
            let st1 = GenState { vars: st.vars, next_label: st.next_label + 2 };
            match gen_expr(st.vars, cond) {
                Ok(cc) => match gen_stmt(st1, frame, body) {
                    Ok((bc, st2)) => Ok(
                        (
                            start + ":\n"@ + cc + test_code() + "    je "@ + end + "\n"@ + bc
                                + "    jmp "@ + start + "\n"@ + end + ":\n"@,
                            st2,
                        ),
                    ),
                    Err(err) => Err(err),
                },
                Err(err) => Err(err),
            }
        }),
{
    reveal(gen_stmt);
    reveal(gen_stmts);
}

/// How many labels the code of a statement makes.
pub open spec fn label_count(s: StmtView) -> nat
    decreases s,
{
    match s {
        StmtView::Block(stmts) => label_count_seq(stmts),
        StmtView::If(_, then_s, else_s) => 2 + label_count(*then_s) + match else_s {
            Some(es) => label_count(*es),
            None => 0,
        },
        StmtView::While(_, body) => 2 + label_count(*body),
        _ => 0,
    }
}

pub open spec fn label_count_seq(stmts: Seq<StmtView>) -> nat
    decreases stmts,
{
    if stmts.len() == 0 {
        0
    } else {
        label_count(stmts[0]) + label_count_seq(stmts.subrange(1, stmts.len() as int))
    }
}

/// The start of every program: `main` sets up its frame.
pub open spec fn prologue() -> Seq<char> {
    ".text\n.globl main\nmain:\n    push %rbp\n    mov %rsp, %rbp\n"@ + "    sub $4096, %rsp\n"@
}

/// The end of every program: `main` returns 0 if it falls off its end.
pub open spec fn epilogue() -> Seq<char> {
    "    mov $0, %rax\n    leave\n    ret\n"@ + ".section .note.GNU-stack,\"\",@progbits\n"@
}

/// The assembly of a whole program, in a fresh frame.
pub open spec fn gen_program(prog: StmtView) -> Result<Seq<char>, ErrorView> {
    match gen_stmt(GenState { vars: Seq::empty(), next_label: 0 }, FRAME_SIZE as int, prog) {
        Ok((code, _)) => Ok(prologue() + code + epilogue()),
        Err(err) => Err(err),
    }
}

/// The code of `r`, after the code `pre`.
pub open spec fn after_code(pre: Seq<char>, r: StmtGen) -> StmtGen {
    match r {
        Ok((c, st)) => Ok((pre + c, st)),
        Err(err) => Err(err),
    }
}

pub proof fn lemma_index_of_unique(vars: Seq<Seq<char>>, k: int)
    requires
        vars.no_duplicates(),
        0 <= k < vars.len(),
    ensures
        vars.contains(vars[k]),
        vars.index_of(vars[k]) == k,
{
    assert(vars[k] == vars[k]);
    let i = vars.index_of(vars[k]);
    assert(0 <= i < vars.len() && vars[i] == vars[k]);
}

/// `a` followed by anything begins with `a`.
proof fn lemma_prefix_of_concat<A>(a: Seq<A>, b: Seq<A>)
    ensures
        a.is_prefix_of(a + b),
{
    assert((a + b).subrange(0, a.len() as int) =~= a);
}

proof fn lemma_prefix_of_self<A>(a: Seq<A>)
    ensures
        a.is_prefix_of(a),
{
    assert(a.subrange(0, a.len() as int) =~= a);
}

proof fn lemma_prefix_of_trans<A>(a: Seq<A>, b: Seq<A>, c: Seq<A>)
    requires
        a.is_prefix_of(b),
        b.is_prefix_of(c),
    ensures
        a.is_prefix_of(c),
{
    assert(c.subrange(0, a.len() as int) =~= b.subrange(0, a.len() as int));
}

/// `later` keeps all that `earlier` made: its output and its locals begin with
/// those of `earlier`, its label counter is no smaller, and its frame is the same.
#[verifier::opaque]
pub open spec fn keeps(earlier: CodegenView, later: CodegenView) -> bool {
    &&& earlier.output.is_prefix_of(later.output)
    &&& earlier.vars.is_prefix_of(later.vars)
    &&& earlier.next_label <= later.next_label
    &&& earlier.stack_size == later.stack_size
}

proof fn lemma_keeps_trans(a: CodegenView, b: CodegenView, c: CodegenView)
    requires
        keeps(a, b),
        keeps(b, c),
    ensures
        keeps(a, c),
{
    reveal(keeps);
    lemma_prefix_of_trans(a.output, b.output, c.output);
    lemma_prefix_of_trans(a.vars, b.vars, c.vars);
}

/// What an expression's code leaves: more output, and nothing else changed.
proof fn lemma_keeps_more_output(a: CodegenView, b: CodegenView)
    requires
        a.output.is_prefix_of(b.output),
        a.vars == b.vars,
        a.next_label == b.next_label,
        a.stack_size == b.stack_size,
    ensures
        keeps(a, b),
{
    reveal(keeps);
    lemma_prefix_of_self(a.vars);
}

/// Appending text keeps all that was kept before.
proof fn lemma_keeps_append(a: CodegenView, b: CodegenView, c: CodegenView, text: Seq<char>)
    requires
        keeps(a, b),
        c.output == b.output + text,
        c.vars == b.vars,
        c.next_label == b.next_label,
        c.stack_size == b.stack_size,
    ensures
        keeps(a, c),
{
    reveal(keeps);
    lemma_prefix_of_concat(b.output, text);
    lemma_prefix_of_trans(a.output, b.output, c.output);
}

proof fn lemma_keeps_self(a: CodegenView)
    ensures
        keeps(a, a),
{
    reveal(keeps);
    lemma_prefix_of_self(a.output);
    lemma_prefix_of_self(a.vars);
}

// ---------------------------------------------------------------------------
// The code generator
// ---------------------------------------------------------------------------

pub struct Codegen {
    output: String,
    vars: Vec<String>,
    stack_size: i64,
    next_label: usize,
}

/// A code generator as plain values: the text so far, the locals in order of
/// declaration, the frame size, and the number of labels made so far.
pub struct CodegenView {
    pub output: Seq<char>,
    pub vars: Seq<Seq<char>>,
    pub stack_size: int,
    pub next_label: nat,
}

pub open spec fn names_view(names: Seq<String>) -> Seq<Seq<char>> {
    names.map_values(|s: String| s@)
}

impl View for Codegen {
    type V = CodegenView;

    closed spec fn view(&self) -> CodegenView {
        CodegenView {
            output: self.output@,
            vars: names_view(self.vars@),
            stack_size: self.stack_size as int,
            next_label: self.next_label as nat,
        }
    }
}

impl Codegen {
    /// Each local is declared once, their offsets fit, and the frame is at most `FRAME_SIZE`.
    pub open spec fn inv(&self) -> bool {
        &&& self@.vars.no_duplicates()
        &&& self@.vars.len() < max_vars()
        &&& 0 <= self@.stack_size <= FRAME_SIZE
    }

    /// The label counter and the frame size are machine integers.
    pub proof fn lemma_counter_fits(&self)
        ensures
            self@.next_label <= usize::MAX,
            i64::MIN <= self@.stack_size <= i64::MAX,
    {
    }

    pub open spec fn state(&self) -> GenState {
        GenState { vars: self@.vars, next_label: self@.next_label }
    }

    pub fn new() -> (cg: Self)
        ensures
            cg.inv(),
            cg@ == (CodegenView {
                output: Seq::empty(),
                vars: Seq::empty(),
                stack_size: 0,
                next_label: 0,
            }),
    {
        let cg = Codegen { output: String::new(), vars: Vec::new(), stack_size: 0, next_label: 0 };
        assert(cg@.vars =~= Seq::<Seq<char>>::empty());
        cg
    }

    /// Appends text to the output.
    pub fn emit(&mut self, s: &str)
        ensures
            final(self)@ == (CodegenView { output: old(self)@.output + s@, ..old(self)@ }),
            keeps(old(self)@, final(self)@),
    {
        self.output.append(s);
        proof {
            reveal(keeps);
            lemma_prefix_of_concat(old(self)@.output, s@);
            lemma_prefix_of_self(self@.vars);
        }
    }

    /// A label not made before: `.L<prefix>_<n>` for the next number `n`.
    pub fn fresh_label(&mut self, prefix: &str) -> (l: String)
        requires
            old(self)@.next_label < usize::MAX,
        ensures
            l@ == label(prefix@, old(self)@.next_label),
            final(self)@ == (CodegenView { next_label: old(self)@.next_label + 1, ..old(self)@ }),
            keeps(old(self)@, final(self)@),
    {
        let mut l = ".L".to_owned();
        l.append(prefix);
        l.append("_");
        push_usize_text(&mut l, self.next_label);
        self.next_label += 1;
        proof {
            reveal(keeps);
            lemma_keeps_self(old(self)@);
        }
        l
    }

    /// Compiles a whole program: the frame set-up, its body, and a final `return 0`.
    pub fn compile_program(self, prog: Stmt) -> (r: Result<String, CompileError>)
        requires
            self.inv(),
            self@.next_label + label_count(prog@) <= usize::MAX,
        ensures
            match gen_stmt(self.state(), FRAME_SIZE as int, prog@) {
                Ok((code, _)) => r matches Ok(s) && s@ == self@.output + prologue() + code
                    + epilogue(),
                Err(err) => r matches Err(x) && x@ == err,
            },
    {
        let ghost start = self@;
        let mut cg = self;
        cg.emit(".text\n.globl main\nmain:\n    push %rbp\n    mov %rsp, %rbp\n");
        cg.emit("    sub $4096, %rsp\n");
        cg.stack_size = 4096;
        let ghost before_body = cg@.output;
        assert(before_body =~= start.output + prologue());
        match cg.compile_stmt(&prog) {
            Ok(()) => {},
            Err(e) => {
                return Err(e);
            },
        }
        cg.emit("    mov $0, %rax\n    leave\n    ret\n");
        cg.emit(".section .note.GNU-stack,\"\",@progbits\n");
        proof {
            let code = gen_stmt(start_state(start), FRAME_SIZE as int, prog@)->Ok_0.0;
            assert(cg@.output =~= start.output + prologue() + code + epilogue());
        }
        Ok(cg.output)
    }

    /// Compiling `s` took the generator from `self` to `after` with result `r`,
    /// as `compile_stmt` states it.
    spec fn compiled(self, after: Codegen, s: StmtView, r: Result<(), CompileError>) -> bool {
        &&& keeps(self@, after@)
        &&& after@.vars.no_duplicates()
        &&& after@.stack_size == self@.stack_size
        &&& (r matches Err(x) ==> x@.line == 1 && x@.col == 1)
        &&& match gen_stmt(self.state(), self@.stack_size, s) {
            Ok((code, st)) => {
                &&& r is Ok
                &&& after@.output == self@.output + code
                &&& after.state() == st
                &&& after.inv()
                &&& after@.next_label == self@.next_label + label_count(s)
                &&& (after@.vars.len() <= self@.vars.len() || after@.vars.len() * 8
                    <= self@.stack_size)
            },
            Err(err) => {
                &&& r matches Err(x) && x@ == err
                &&& after@.output == self@.output + stmt_partial(self.state(), self@.stack_size, s)
            },
        }
    }

    /// Compiles a statement, appending its code.
    #[verifier::rlimit(100)]
    pub fn compile_stmt(&mut self, stmt: &Stmt) -> (r: Result<(), CompileError>)
        requires
            old(self).inv(),
            old(self)@.next_label + label_count(stmt@) <= usize::MAX,
        ensures
            keeps(old(self)@, final(self)@),
            final(self)@.vars.no_duplicates(),
            final(self)@.stack_size == old(self)@.stack_size,
            r matches Err(x) ==> x@.line == 1 && x@.col == 1,
            match gen_stmt(old(self).state(), old(self)@.stack_size, stmt@) {
                Ok((code, st)) => {
                    &&& r is Ok
                    &&& final(self)@.output == old(self)@.output + code
                    &&& final(self).state() == st
                    &&& final(self).inv()
                    &&& final(self)@.next_label == old(self)@.next_label + label_count(stmt@)
                    &&& (final(self)@.vars.len() <= old(self)@.vars.len() || final(self)@.vars.len()
                        * 8 <= old(self)@.stack_size)
                },
                Err(err) => {
                    &&& r matches Err(x) && x@ == err
                    &&& final(self)@.output == old(self)@.output + stmt_partial(
                        old(self).state(),
                        old(self)@.stack_size,
                        stmt@,
                    )
                },
            },
        decreases stmt, 1int,
    {
        let ghost v0 = self@;
        let ghost out0 = self@.output;
        let ghost st0 = self.state();
        let ghost frame = self@.stack_size;
        proof {
            lemma_keeps_self(v0);
        }
        match stmt {
            Stmt::Return(expr) => {
                proof {
                    lemma_gen_return(st0, frame, expr@);
                }
                match self.compile_expr(expr) {
                    Ok(()) => {},
                    Err(e) => {
                        proof {
                            lemma_keeps_more_output(v0, self@);
                        }
                        return Err(e);
                    },
                }
                let ghost v1 = self@;
                self.emit("    pop %rax\n    leave\n    ret\n");
                proof {
                    let c = gen_expr(st0.vars, expr@)->Ok_0;
                    assert(self@.output =~= out0 + (c + "    pop %rax\n    leave\n    ret\n"@));
                    lemma_keeps_more_output(v0, v1);
                    lemma_keeps_append(v0, v1, self@, "    pop %rax\n    leave\n    ret\n"@);
                }
            },
            Stmt::Expr(expr) => {
                proof {
                    lemma_gen_expr_stmt(st0, frame, expr@);
                }
                match self.compile_expr(expr) {
                    Ok(()) => {},
                    Err(e) => {
                        proof {
                            lemma_keeps_more_output(v0, self@);
                        }
                        return Err(e);
                    },
                }
                let ghost v1 = self@;
                self.emit("    add $8, %rsp\n");
                proof {
                    let c = gen_expr(st0.vars, expr@)->Ok_0;
                    assert(self@.output =~= out0 + (c + "    add $8, %rsp\n"@));
                    lemma_keeps_more_output(v0, v1);
                    lemma_keeps_append(v0, v1, self@, "    add $8, %rsp\n"@);
                }
            },
            Stmt::Decl(name, init) => {
                proof {
                    lemma_gen_decl(st0, frame, name@, stmt@->Decl_1);
                }
                let off = self.ensure_var(name.as_str());
                let ghost v1 = self@;
                if off > self.stack_size {
                    return Err(CompileError::new(1, 1, "too many local variables".to_owned()));
                }
                if let Some(expr) = init {
                    match self.compile_expr(expr) {
                        Ok(()) => {},
                        Err(e) => {
                            proof {
                                lemma_keeps_more_output(v1, self@);
                                lemma_keeps_trans(v0, v1, self@);
                            }
                            return Err(e);
                        },
                    }
                    let ghost v2 = self@;
                    self.emit("    pop %rax\n");
                    self.emit("    mov %rax, -");
                    push_i64_text(&mut self.output, off);
                    self.emit("(%rbp)\n");
                    proof {
                        let c = gen_expr(self@.vars, expr@)->Ok_0;
                        assert(self@.output =~= out0 + (c + "    pop %rax\n"@ + "    mov %rax, -"@
                            + int_text(off as int) + "(%rbp)\n"@));
                        lemma_keeps_more_output(v1, v2);
                        lemma_keeps_trans(v0, v1, v2);
                        assert(self@.output =~= v2.output + ("    pop %rax\n"@ + "    mov %rax, -"@
                            + int_text(off as int) + "(%rbp)\n"@));
                        lemma_keeps_append(v0, v2, self@, "    pop %rax\n"@ + "    mov %rax, -"@
                            + int_text(off as int) + "(%rbp)\n"@);
                    }
                } else {
                    assert(self@.output =~= out0 + Seq::<char>::empty());
                }
            },
            Stmt::Block(_) => {
                return self.compile_block(stmt);
            },
            Stmt::If(..) => {
                return self.compile_if(stmt);
            },
            Stmt::While(..) => {
                return self.compile_while(stmt);
            },
        }
        Ok(())
    }

    /// Compiles a block: its statements one after the other.
    fn compile_block(&mut self, stmt: &Stmt) -> (r: Result<(), CompileError>)
        requires
            stmt is Block,
            old(self).inv(),
            old(self)@.next_label + label_count(stmt@) <= usize::MAX,
        ensures
            old(self).compiled(*final(self), stmt@, r),
        decreases stmt, 0int,
    {
        let ghost v0 = self@;
        let ghost out0 = self@.output;
        let ghost st0 = self.state();
        let ghost frame = self@.stack_size;
        proof {
            lemma_keeps_self(v0);
        }
        match stmt {
            Stmt::Block(stmts) => {
                let ghost ss = Stmt::models(stmts@);
                proof {
                    lemma_gen_block(st0, frame, ss);
                    Stmt::lemma_models(stmts@);
                    assert(ss.subrange(0, ss.len() as int) =~= ss);
                    assert(out0 + Seq::<char>::empty() =~= out0);
                    if let Ok((c, st)) = gen_stmts(st0, frame, ss) {
                        assert(Seq::<char>::empty() + c =~= c);
                    }
                    assert(Seq::<char>::empty() + stmts_partial(st0, frame, ss) =~= stmts_partial(
                        st0,
                        frame,
                        ss,
                    ));
                }
                let ghost mut code: Seq<char> = Seq::empty();
                let n = stmts.len();
                let mut k: usize = 0;
                while k < n
                    invariant
                        n == stmts@.len(),
                        k <= n,
                        stmt@ == StmtView::Block(ss),
                        *stmt == Stmt::Block(*stmts),
                        gen_stmt(st0, frame, stmt@) == gen_stmts(st0, frame, ss),
                        ss == Stmt::models(stmts@),
                        ss.len() == n,
                        forall|i: int| 0 <= i < n ==> #[trigger] ss[i] == stmts@[i]@,
                        self.inv(),
                        self@.stack_size == frame,
                        frame == old(self)@.stack_size,
                        st0 == old(self).state(),
                        out0 == old(self)@.output,
                        self@.output == out0 + code,
                        gen_stmts(st0, frame, ss) == after_code(
                            code,
                            gen_stmts(self.state(), frame, ss.subrange(k as int, n as int)),
                        ),
                        self@.next_label + label_count_seq(ss.subrange(k as int, n as int))
                            == old(self)@.next_label + label_count_seq(ss),
                        old(self)@.next_label + label_count_seq(ss) <= usize::MAX,
                        self@.vars.len() <= old(self)@.vars.len() || self@.vars.len() * 8 <= frame,
                        v0 == old(self)@,
                        keeps(v0, self@),
                        stmts_partial(st0, frame, ss) == code + stmts_partial(
                            self.state(),
                            frame,
                            ss.subrange(k as int, n as int),
                        ),
                    decreases n - k,
                {
                    let ghost rest = ss.subrange(k as int, n as int);
                    let ghost st_k = self.state();
                    let ghost out_k = self@.output;
                    proof {
                        lemma_gen_stmts_step(st_k, frame, rest);
                        assert(rest[0] == ss[k as int]);
                        assert(rest.subrange(1, rest.len() as int) =~= ss.subrange(
                            k + 1,
                            n as int,
                        ));
                    }
                    proof {
                        assert(decreases_to!(*stmt => *stmts));
                        assert(decreases_to!(*stmts => stmts@));
                        assert(decreases_to!(stmts@ => stmts@[k as int]));
                    }
                    let ghost v_k = self@;
                    match self.compile_stmt(&stmts[k]) {
                        Ok(()) => {},
                        Err(e) => {
                            proof {
                                lemma_keeps_trans(v0, v_k, self@);
                                assert(stmts_partial(st_k, frame, rest) == stmt_partial(
                                    st_k,
                                    frame,
                                    ss[k as int],
                                ));
                                assert(self@.output =~= out0 + stmts_partial(st0, frame, ss));
                            }
                            return Err(e);
                        },
                    }
                    proof {
                        lemma_keeps_trans(v0, v_k, self@);
                        let c0 = gen_stmt(st_k, frame, ss[k as int])->Ok_0.0;
                        let later = stmts_partial(self.state(), frame, ss.subrange(k + 1, n as int));
                        assert(stmts_partial(st_k, frame, rest) == c0 + later);
                        assert(code + (c0 + later) =~= (code + c0) + later);
                        let c = gen_stmt(st_k, frame, ss[k as int])->Ok_0.0;
                        if let Ok((c2, st2)) = gen_stmts(
                            self.state(),
                            frame,
                            ss.subrange(k + 1, n as int),
                        ) {
                            assert(code + (c + c2) =~= (code + c) + c2);
                        }
                        code = code + c;
                        assert(self@.output =~= out0 + code);
                    }
                    k = k + 1;
                }
                proof {
                    assert(ss.subrange(n as int, n as int) =~= Seq::<StmtView>::empty());
                    lemma_gen_stmts_empty(self.state(), frame, ss.subrange(n as int, n as int));
                    assert(code + Seq::<char>::empty() =~= code);
                }
            },
            _ => {},  // excluded by the precondition
        }
        Ok(())
    }

    /// Compiles an `if`: the condition, a jump to the else-label when it is zero,
    /// the then-branch, a jump to the end-label, and the else-branch after its label.
    #[verifier::rlimit(60)]
    fn compile_if(&mut self, stmt: &Stmt) -> (r: Result<(), CompileError>)
        requires
            stmt is If,
            old(self).inv(),
            old(self)@.next_label + label_count(stmt@) <= usize::MAX,
        ensures
            old(self).compiled(*final(self), stmt@, r),
        decreases stmt, 0int,
    {
        let ghost v0 = self@;
        let ghost out0 = self@.output;
        let ghost st0 = self.state();
        let ghost frame = self@.stack_size;
        proof {
            lemma_keeps_self(v0);
        }
        match stmt {
            Stmt::If(cond, then_stmt, else_stmt) => {
                proof {
                    lemma_gen_if(st0, frame, cond@, then_stmt@, stmt@->If_2);
                }
                let else_l = self.fresh_label("else");
                let ghost va = self@;
                let end_l = self.fresh_label("endif");
                let ghost v1 = self@;
                proof {
                    lemma_keeps_trans(v0, va, v1);
                }
                match self.compile_expr(cond) {
                    Ok(()) => {},
                    Err(e) => {
                        proof {
                            lemma_keeps_more_output(v1, self@);
                            lemma_keeps_trans(v0, v1, self@);
                        }
                        return Err(e);
                    },
                }
                let ghost vc = self@;
                self.emit("    pop %rax\n    cmp $0, %rax\n");
                self.emit("    je ");
                self.emit(else_l.as_str());
                self.emit("\n");
                let ghost v2 = self@;
                proof {
                    lemma_keeps_more_output(v1, vc);
                    lemma_keeps_trans(v0, v1, vc);
                    assert(v2.output =~= vc.output + (test_code() + "    je "@ + else_l@ + "\n"@));
                    lemma_keeps_append(v0, vc, v2, test_code() + "    je "@ + else_l@ + "\n"@);
                }
                match self.compile_stmt(then_stmt) {
                    Ok(()) => {},
                    Err(e) => {
                        proof {
                            lemma_keeps_trans(v0, v2, self@);
                            assert(self@.output =~= out0 + stmt_partial(st0, frame, stmt@)) by {
                                let cc = gen_expr(st0.vars, cond@)->Ok_0;
                                let st1 = GenState { vars: st0.vars, next_label: st0.next_label + 2 };
                                assert(v2.output =~= out0 + (cc + test_code() + "    je "@ + else_l@
                                    + "\n"@));
                                assert(self@.output =~= out0 + (cc + test_code() + "    je "@ + else_l@
                                    + "\n"@ + stmt_partial(st1, frame, then_stmt@)));
                            }
                        }
                        return Err(e);
                    },
                }
                let ghost v3 = self@;
                proof {
                    lemma_keeps_trans(v0, v2, v3);
                }
                self.emit("    jmp ");
                self.emit(end_l.as_str());
                self.emit("\n");
                self.emit(else_l.as_str());
                self.emit(":\n");
                let ghost out_else = self@.output;
                let ghost v4 = self@;
                proof {
                    assert(v4.output =~= v3.output + ("    jmp "@ + end_l@ + "\n"@ + else_l@ + ":\n"@));
                    lemma_keeps_append(v0, v3, v4, "    jmp "@ + end_l@ + "\n"@ + else_l@ + ":\n"@);
                    let cc = gen_expr(st0.vars, cond@)->Ok_0;
                    let st1 = GenState { vars: st0.vars, next_label: st0.next_label + 2 };
                    let tc = gen_stmt(st1, frame, then_stmt@)->Ok_0.0;
                    assert(out_else =~= out0 + (cc + test_code() + "    je "@ + else_l@ + "\n"@ + tc
                        + "    jmp "@ + end_l@ + "\n"@ + else_l@ + ":\n"@));
                }
                if let Some(s) = else_stmt {
                    match self.compile_stmt(s) {
                        Ok(()) => {},
                        Err(e) => {
                            proof {
                                lemma_keeps_trans(v0, v4, self@);
                                assert(self@.output =~= out0 + stmt_partial(st0, frame, stmt@)) by {
                                    assert(self@.output =~= out_else + stmt_partial(
                                        start_state(v4),
                                        frame,
                                        s@,
                                    ));
                                }
                            }
                            return Err(e);
                        },
                    }
                }
                let ghost v5 = self@;
                proof {
                    if else_stmt is None {
                        lemma_keeps_self(v4);
                    }
                    lemma_keeps_trans(v0, v4, v5);
                }
                let ghost out_end = self@.output;
                self.emit(end_l.as_str());
                self.emit(":\n");
                proof {
                    assert(self@.output =~= out_end + (end_l@ + ":\n"@));
                    lemma_keeps_append(v0, v5, self@, end_l@ + ":\n"@);
                    let cc = gen_expr(st0.vars, cond@)->Ok_0;
                    let st1 = GenState { vars: st0.vars, next_label: st0.next_label + 2 };
                    let (tc, st2) = gen_stmt(st1, frame, then_stmt@)->Ok_0;
                    let head = cc + test_code() + "    je "@ + else_l@ + "\n"@ + tc + "    jmp "@
                        + end_l@ + "\n"@ + else_l@ + ":\n"@;
                    assert(out_else =~= out0 + head);
                    if let Some(es) = else_stmt {
                        let ec = gen_stmt(st2, frame, es@)->Ok_0.0;
                        assert(self@.output =~= out0 + (head + ec + end_l@ + ":\n"@));
                    } else {
                        assert(self@.output =~= out0 + (head + end_l@ + ":\n"@));
                    }
                }
            },
            _ => {},  // excluded by the precondition
        }
        Ok(())
    }

    /// Compiles a `while`: the start-label, the condition, a jump to the end-label
    /// when it is zero, the body, and a jump back to the start.
    #[verifier::rlimit(60)]
    fn compile_while(&mut self, stmt: &Stmt) -> (r: Result<(), CompileError>)
        requires
            stmt is While,
            old(self).inv(),
            old(self)@.next_label + label_count(stmt@) <= usize::MAX,
        ensures
            old(self).compiled(*final(self), stmt@, r),
        decreases stmt, 0int,
    {
        let ghost v0 = self@;
        let ghost out0 = self@.output;
        let ghost st0 = self.state();
        let ghost frame = self@.stack_size;
        proof {
            lemma_keeps_self(v0);
        }
        match stmt {
            Stmt::While(cond, body) => {
                proof {
                    lemma_gen_while(st0, frame, cond@, body@);
                }
                let start = self.fresh_label("while_start");
                let ghost va = self@;
                let end = self.fresh_label("while_end");
                let ghost vb = self@;
                self.emit(start.as_str());
                self.emit(":\n");
                let ghost v1 = self@;
                proof {
                    lemma_keeps_trans(v0, va, vb);
                    assert(v1.output =~= vb.output + (start@ + ":\n"@));
                    lemma_keeps_append(v0, vb, v1, start@ + ":\n"@);
                }
                match self.compile_expr(cond) {
                    Ok(()) => {},
                    Err(e) => {
                        proof {
                            lemma_keeps_more_output(v1, self@);
                            lemma_keeps_trans(v0, v1, self@);
                            assert(self@.output =~= out0 + stmt_partial(st0, frame, stmt@)) by {
                                assert(self@.output =~= out0 + (start@ + ":\n"@ + expr_partial(
                                    st0.vars,
                                    cond@,
                                )));
                            }
                        }
                        return Err(e);
                    },
                }
                let ghost vc = self@;
                self.emit("    pop %rax\n    cmp $0, %rax\n");
                self.emit("    je ");
                self.emit(end.as_str());
                self.emit("\n");
                let ghost out_body = self@.output;
                let ghost v2 = self@;
                proof {
                    lemma_keeps_more_output(v1, vc);
                    lemma_keeps_trans(v0, v1, vc);
                    assert(v2.output =~= vc.output + (test_code() + "    je "@ + end@ + "\n"@));
                    lemma_keeps_append(v0, vc, v2, test_code() + "    je "@ + end@ + "\n"@);
                }
                match self.compile_stmt(body) {
                    Ok(()) => {},
                    Err(e) => {
                        proof {
                            lemma_keeps_trans(v0, v2, self@);
                            assert(self@.output =~= out0 + stmt_partial(st0, frame, stmt@)) by {
                                let cc = gen_expr(st0.vars, cond@)->Ok_0;
                                let st1 = GenState { vars: st0.vars, next_label: st0.next_label + 2 };
                                assert(v2.output =~= out0 + (start@ + ":\n"@ + cc + test_code()
                                    + "    je "@ + end@ + "\n"@));
                                assert(self@.output =~= out0 + (start@ + ":\n"@ + cc + test_code()
                                    + "    je "@ + end@ + "\n"@ + stmt_partial(st1, frame, body@)));
                            }
                        }
                        return Err(e);
                    },
                }
                let ghost v3 = self@;
                self.emit("    jmp ");
                self.emit(start.as_str());
                self.emit("\n");
                self.emit(end.as_str());
                self.emit(":\n");
                proof {
                    let cc = gen_expr(st0.vars, cond@)->Ok_0;
                    let st1 = GenState { vars: st0.vars, next_label: st0.next_label + 2 };
                    let bc = gen_stmt(st1, frame, body@)->Ok_0.0;
                    assert(self@.output =~= out0 + (start@ + ":\n"@ + cc + test_code() + "    je "@
                        + end@ + "\n"@ + bc + "    jmp "@ + start@ + "\n"@ + end@ + ":\n"@));
                    lemma_keeps_trans(v0, v2, v3);
                    assert(self@.output =~= v3.output + ("    jmp "@ + start@ + "\n"@ + end@ + ":\n"@));
                    lemma_keeps_append(v0, v3, self@, "    jmp "@ + start@ + "\n"@ + end@ + ":\n"@);
                }
            },
            _ => {},  // excluded by the precondition
        }
        Ok(())
    }


    /// Compiles an expression, appending code that pushes its value.
    pub fn compile_expr(&mut self, expr: &Expr) -> (r: Result<(), CompileError>)
        requires
            old(self).inv(),
        ensures
            final(self)@.vars == old(self)@.vars,
            final(self)@.stack_size == old(self)@.stack_size,
            final(self)@.next_label == old(self)@.next_label,
            old(self)@.output.is_prefix_of(final(self)@.output),
            r matches Err(x) ==> x@.line == 1 && x@.col == 1,
            match gen_expr(old(self)@.vars, expr@) {
                Ok(code) => r is Ok && final(self)@.output == old(self)@.output + code,
                Err(err) => {
                    &&& r matches Err(x) && x@ == err
                    &&& final(self)@.output == old(self)@.output + expr_partial(old(self)@.vars, expr@)
                },
            },
        decreases expr,
    {
        let ghost out0 = self@.output;
        let ghost vars = self@.vars;
        match expr {
            Expr::Number(v) => {
                self.emit("    push $");
                push_i64_text(&mut self.output, *v);
                self.emit("\n");
                assert(self@.output =~= out0 + ("    push $"@ + int_text(*v as int) + "\n"@));
            },
            Expr::UnaryPlus(e) => {
                match self.compile_expr(e) {
                    Ok(()) => {},
                    Err(x) => {
                        return Err(x);
                    },
                }
            },
            Expr::UnaryNeg(e) => {
                match self.compile_expr(e) {
                    Ok(()) => {},
                    Err(x) => {
                        return Err(x);
                    },
                }
                self.emit("    pop %rax\n    neg %rax\n    push %rax\n");
                proof {
                    let c = gen_expr(vars, e@)->Ok_0;
                    assert(self@.output =~= out0 + (c + "    pop %rax\n    neg %rax\n    push %rax\n"@));
                }
            },
            Expr::Var(name) => {
                let off = match self.lookup_var(name.as_str()) {
                    Some(o) => o,
                    None => {
                        let mut message = "undefined variable `".to_owned();
                        message.append(name.as_str());
                        message.append("`");
                        return Err(CompileError::new(1, 1, message));
                    },
                };
                self.emit("    mov -");
                push_i64_text(&mut self.output, off);
                self.emit("(%rbp), %rax\n    push %rax\n");
                assert(self@.output =~= out0 + ("    mov -"@ + int_text(off as int)
                    + "(%rbp), %rax\n    push %rax\n"@));
            },
            Expr::Assign(name, e) => {
                match self.compile_expr(e) {
                    Ok(()) => {},
                    Err(x) => {
                        return Err(x);
                    },
                }
                let off = match self.lookup_var(name.as_str()) {
                    Some(o) => o,
                    None => {
                        let mut message = "undefined variable `".to_owned();
                        message.append(name.as_str());
                        message.append("`");
                        return Err(CompileError::new(1, 1, message));
                    },
                };
                self.emit("    pop %rax\n");
                self.emit("    mov %rax, -");
                push_i64_text(&mut self.output, off);
                self.emit("(%rbp)\n    push %rax\n");
                proof {
                    let c = gen_expr(vars, e@)->Ok_0;
                    assert(self@.output =~= out0 + (c + "    pop %rax\n"@ + "    mov %rax, -"@
                        + int_text(off as int) + "(%rbp)\n    push %rax\n"@));
                }
            },
            Expr::Binary(op, l, r) => {
                match self.compile_expr(l) {
                    Ok(()) => {},
                    Err(x) => {
                        return Err(x);
                    },
                }
                match self.compile_expr(r) {
                    Ok(()) => {},
                    Err(x) => {
                        return Err(x);
                    },
                }
                self.emit("    pop %rdi\n    pop %rax\n");
                let ghost before_op = self@.output;
                match op {
                    BinOp::Add => self.emit("    add %rdi, %rax\n"),
                    BinOp::Sub => self.emit("    sub %rdi, %rax\n"),
                    BinOp::Mul => self.emit("    imul %rdi, %rax\n"),
                    BinOp::Div => self.emit("    cqo\n    idiv %rdi\n"),
                    BinOp::Eq => self.emit("    cmp %rdi, %rax\n    sete %al\n    movzb %al, %rax\n"),
                    BinOp::Ne => self.emit("    cmp %rdi, %rax\n    setne %al\n    movzb %al, %rax\n"),
                    BinOp::Lt => self.emit("    cmp %rdi, %rax\n    setl %al\n    movzb %al, %rax\n"),
                    BinOp::Le => self.emit("    cmp %rdi, %rax\n    setle %al\n    movzb %al, %rax\n"),
                    BinOp::Gt => self.emit("    cmp %rdi, %rax\n    setg %al\n    movzb %al, %rax\n"),
                    BinOp::Ge => self.emit("    cmp %rdi, %rax\n    setge %al\n    movzb %al, %rax\n"),
                }
                assert(self@.output == before_op + binop_code(*op));
                self.emit("    push %rax\n");
                proof {
                    let lc = gen_expr(vars, l@)->Ok_0;
                    let rc = gen_expr(vars, r@)->Ok_0;
                    assert(self@.output =~= out0 + (lc + rc + "    pop %rdi\n    pop %rax\n"@
                        + binop_code(*op) + "    push %rax\n"@));
                }
            },
        }
        Ok(())
    }

    /// The offset of `name`, declaring it first if it is new.
    pub fn ensure_var(&mut self, name: &str) -> (off: i64)
        requires
            old(self)@.vars.no_duplicates(),
            old(self)@.vars.len() < max_vars(),
        ensures
            (final(self)@.vars, off as int) == declare(old(self)@.vars, name@),
            final(self)@.vars.no_duplicates(),
            final(self)@.output == old(self)@.output,
            final(self)@.stack_size == old(self)@.stack_size,
            final(self)@.next_label == old(self)@.next_label,
            keeps(old(self)@, final(self)@),
    {
        proof {
            reveal(keeps);
            lemma_keeps_self(old(self)@);
        }
        match self.lookup_var(name) {
            Some(off) => off,
            None => {
                let idx = self.vars.len() as i64 + 1;
                let off = idx * 8;
                let ghost before = self.vars@;
                self.vars.push(name.to_owned());
                proof {
                    assert(names_view(self.vars@) =~= names_view(before).push(name@));
                    assert(names_view(before).push(name@) =~= names_view(before) + seq![name@]);
                    lemma_prefix_of_concat(names_view(before), seq![name@]);
                    assert forall|i: int, j: int|
                        0 <= i < self@.vars.len() && 0 <= j < self@.vars.len() && i != j implies
                        self@.vars[i] != self@.vars[j] by {
                        if i == before.len() {
                            assert(names_view(before)[j] == self@.vars[j]);
                        } else if j == before.len() {
                            assert(names_view(before)[i] == self@.vars[i]);
                        }
                    }
                }
                off
            },
        }
    }

    /// The offset of `name`, if it is declared.
    pub fn lookup_var(&self, name: &str) -> (off: Option<i64>)
        requires
            self@.vars.no_duplicates(),
            self@.vars.len() < max_vars(),
        ensures
            match var_offset(self@.vars, name@) {
                Some(o) => off == Some(o as i64),
                None => off is None,
            },
    {
        let key = name.to_owned();
        let n = self.vars.len();
        let mut k: usize = 0;
        while k < n
            invariant
                n == self@.vars.len(),
                k <= n,
                key@ == name@,
                self@.vars.no_duplicates(),
                self@.vars.len() < max_vars(),
                forall|i: int| 0 <= i < k ==> self@.vars[i] != name@,
            decreases n - k,
        {
            if self.vars[k] == key {
                proof {
                    assert(self@.vars[k as int] == name@);
                    lemma_index_of_unique(self@.vars, k as int);
                }
                return Some((k as i64 + 1) * 8);
            }
            k = k + 1;
        }
        None
    }
}

/// The generator state of a code generator's view.
pub open spec fn start_state(v: CodegenView) -> GenState {
    GenState { vars: v.vars, next_label: v.next_label }
}

} // verus!
