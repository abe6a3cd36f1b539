//! The code of an expression read as instructions, and what it does to the stack.
use vstd::prelude::*;
use crate::ast::{BinOp, ExprView};
use crate::codegen::{binop_code, gen_expr, var_offset};
use crate::text::int_text;

verus! {

/// One instruction of an expression's code.
pub enum Instr {
    /// `push $v`
    PushImm(i64),
    /// `push %rax`
    PushRax,
    /// `pop %rax`
    PopRax,
    /// `pop %rdi`
    PopRdi,
    /// `neg %rax`
    NegRax,
    /// `mov -off(%rbp), %rax`
    Load(int),
    /// `mov %rax, -off(%rbp)`
    Store(int),
    /// The instructions of a binary operator, from `%rax` and `%rdi` into `%rax`.
    Combine(BinOp),
}

pub open spec fn instr_text(i: Instr) -> Seq<char> {
    match i {
        Instr::PushImm(v) => "    push $"@ + int_text(v as int) + "\n"@,
        Instr::PushRax => "    push %rax\n"@,
        Instr::PopRax => "    pop %rax\n"@,
        Instr::PopRdi => "    pop %rdi\n"@,
        Instr::NegRax => "    neg %rax\n"@,
        Instr::Load(off) => "    mov -"@ + int_text(off) + "(%rbp), %rax\n"@,
        Instr::Store(off) => "    mov %rax, -"@ + int_text(off) + "(%rbp)\n"@,
        Instr::Combine(op) => binop_code(op),
    }
}

/// The text of a sequence of instructions, one after the other.
pub open spec fn instrs_text(is: Seq<Instr>) -> Seq<char>
    decreases is.len(),
{
    if is.len() == 0 {
        Seq::empty()
    } else {
        instr_text(is[0]) + instrs_text(is.subrange(1, is.len() as int))
    }
}

/// How many values an instruction leaves on the stack: one for a push, minus
/// one for a pop, none for the rest.
pub open spec fn instr_effect(i: Instr) -> int {
    match i {
        Instr::PushImm(_) => 1,
        Instr::PushRax => 1,
        Instr::PopRax => -1,
        Instr::PopRdi => -1,
        _ => 0,
    }
}

pub open spec fn stack_effect(is: Seq<Instr>) -> int
    decreases is.len(),
{
    if is.len() == 0 {
        0
    } else {
        instr_effect(is[0]) + stack_effect(is.subrange(1, is.len() as int))
    }
}

/// Run from a stack `depth` values above the start, the instructions never pop
/// below the start.
pub open spec fn stays_above(is: Seq<Instr>, depth: int) -> bool
    decreases is.len(),
{
    if is.len() == 0 {
        depth >= 0
    } else {
        depth >= 0 && stays_above(is.subrange(1, is.len() as int), depth + instr_effect(is[0]))
    }
}

/// The instructions of an expression's code: those of `gen_expr`, one by one.
pub open spec fn expr_instrs(vars: Seq<Seq<char>>, e: ExprView) -> Option<Seq<Instr>>
    decreases e,
{
    match e {
        ExprView::Number(v) => Some(seq![Instr::PushImm(v)]),
        ExprView::UnaryPlus(inner) => expr_instrs(vars, *inner),
        ExprView::UnaryNeg(inner) => match expr_instrs(vars, *inner) {
            Some(is) => Some(is + seq![Instr::PopRax, Instr::NegRax, Instr::PushRax]),
            None => None,
        },
        ExprView::Var(name) => match var_offset(vars, name) {
            Some(off) => Some(seq![Instr::Load(off), Instr::PushRax]),
            None => None,
        },
        ExprView::Assign(name, inner) => match expr_instrs(vars, *inner) {
            Some(is) => match var_offset(vars, name) {
                Some(off) => Some(is + seq![Instr::PopRax, Instr::Store(off), Instr::PushRax]),
                None => None,
            },
            None => None,
        },
        ExprView::Binary(op, l, r) => match expr_instrs(vars, *l) {
            Some(li) => match expr_instrs(vars, *r) {
                Some(ri) => Some(
                    li + ri + seq![Instr::PopRdi, Instr::PopRax, Instr::Combine(op), Instr::PushRax],
                ),
                None => None,
            },
            None => None,
        },
    }
}

proof fn lemma_concat_rest<A>(a: Seq<A>, b: Seq<A>)
    requires
        a.len() > 0,
    ensures
        (a + b)[0] == a[0],
        (a + b).subrange(1, (a + b).len() as int) == a.subrange(1, a.len() as int) + b,
{
    assert((a + b).subrange(1, (a + b).len() as int) =~= a.subrange(1, a.len() as int) + b);
}

proof fn lemma_instrs_concat(a: Seq<Instr>, b: Seq<Instr>, depth: int)
    ensures
        instrs_text(a + b) == instrs_text(a) + instrs_text(b),
        stack_effect(a + b) == stack_effect(a) + stack_effect(b),
        stays_above(a, depth) && stays_above(b, depth + stack_effect(a)) ==> stays_above(
            a + b,
            depth,
        ),
    decreases a.len(),
{
    if a.len() == 0 {
        assert(a + b =~= b);
        assert(instrs_text(a) + instrs_text(b) =~= instrs_text(b));
    } else {
        let rest = a.subrange(1, a.len() as int);
        lemma_concat_rest(a, b);
        lemma_instrs_concat(rest, b, depth + instr_effect(a[0]));
        assert(instr_text(a[0]) + (instrs_text(rest) + instrs_text(b)) =~= (instr_text(a[0])
            + instrs_text(rest)) + instrs_text(b));
    }
}

proof fn lemma_stays_above_deeper(is: Seq<Instr>, d: int, e: int)
    requires
        stays_above(is, d),
        d <= e,
    ensures
        stays_above(is, e),
    decreases is.len(),
{
    if is.len() > 0 {
        lemma_stays_above_deeper(is.subrange(1, is.len() as int), d + instr_effect(is[0]), e
            + instr_effect(is[0]));
    }
}

/// The text, effect and safety of a short fixed run of instructions.
proof fn lemma_instrs_small(is: Seq<Instr>)
    requires
        is.len() <= 4,
    ensures
        instrs_text(is) == (if is.len() == 0 {
            Seq::empty()
        } else if is.len() == 1 {
            instr_text(is[0])
        } else if is.len() == 2 {
            instr_text(is[0]) + instr_text(is[1])
        } else if is.len() == 3 {
            instr_text(is[0]) + instr_text(is[1]) + instr_text(is[2])
        } else {
            instr_text(is[0]) + instr_text(is[1]) + instr_text(is[2]) + instr_text(is[3])
        }),
        stack_effect(is) == (if is.len() == 0 {
            0
        } else if is.len() == 1 {
            instr_effect(is[0])
        } else if is.len() == 2 {
            instr_effect(is[0]) + instr_effect(is[1])
        } else if is.len() == 3 {
            instr_effect(is[0]) + instr_effect(is[1]) + instr_effect(is[2])
        } else {
            instr_effect(is[0]) + instr_effect(is[1]) + instr_effect(is[2]) + instr_effect(is[3])
        }),
    decreases is.len(),
{
    if is.len() > 0 {
        let rest = is.subrange(1, is.len() as int);
        lemma_instrs_small(rest);
        if is.len() >= 2 {
            assert(rest[0] == is[1]);
        }
        if is.len() >= 3 {
            assert(rest[1] == is[2]);
        }
        if is.len() >= 4 {
            assert(rest[2] == is[3]);
        }
        if is.len() == 1 {
            assert(instr_text(is[0]) + Seq::<char>::empty() =~= instr_text(is[0]));
        } else if is.len() == 3 {
            assert(instr_text(is[0]) + (instr_text(is[1]) + instr_text(is[2])) =~= instr_text(is[0])
                + instr_text(is[1]) + instr_text(is[2]));
        } else if is.len() == 4 {
            assert(instr_text(is[0]) + (instr_text(is[1]) + instr_text(is[2]) + instr_text(is[3]))
                =~= instr_text(is[0]) + instr_text(is[1]) + instr_text(is[2]) + instr_text(is[3]));
        }
    }
}

/// An expression's code is a run of stack instructions with no label, jump,
/// `leave` or `ret`; run from any stack, it never pops a value that it did not
/// push itself, and it leaves exactly one value more than it found: the
/// expression's value.
pub proof fn law_expr_code_pushes_one(vars: Seq<Seq<char>>, e: ExprView)
    ensures
        gen_expr(vars, e) is Ok <==> expr_instrs(vars, e) is Some,
        gen_expr(vars, e) matches Ok(code) ==> {
            let is = expr_instrs(vars, e)->Some_0;
            &&& instrs_text(is) == code
            &&& stack_effect(is) == 1
            &&& stays_above(is, 0)
        },
    decreases e,
{
    reveal_strlit("    push %rax\n");
    reveal_strlit("    pop %rax\n");
    reveal_strlit("    pop %rdi\n");
    reveal_strlit("    neg %rax\n");
    match e {
        ExprView::Number(v) => {
            let is = seq![Instr::PushImm(v)];
            lemma_instrs_small(is);
            assert(instr_text(is[0]) + Seq::<char>::empty() =~= instr_text(is[0]));
            assert(stays_above(is.subrange(1, 1), 1));
        },
        ExprView::UnaryPlus(inner) => {
            law_expr_code_pushes_one(vars, *inner);
        },
        ExprView::UnaryNeg(inner) => {
            law_expr_code_pushes_one(vars, *inner);
            if let Some(is) = expr_instrs(vars, *inner) {
                let tail = seq![Instr::PopRax, Instr::NegRax, Instr::PushRax];
                lemma_instrs_small(tail);
                lemma_instrs_concat(is, tail, 0);
                reveal_strlit("    pop %rax\n    neg %rax\n    push %rax\n");
                assert("    pop %rax\n    neg %rax\n    push %rax\n"@ =~= instrs_text(tail));
                assert(stays_above(tail, 1)) by {
                    reveal_with_fuel(stays_above, 4);
                }
            }
        },
        ExprView::Var(name) => {
            if let Some(off) = var_offset(vars, name) {
                let is = seq![Instr::Load(off), Instr::PushRax];
                lemma_instrs_small(is);
                reveal_strlit("(%rbp), %rax\n    push %rax\n");
                reveal_strlit("(%rbp), %rax\n");
                assert("    mov -"@ + int_text(off) + "(%rbp), %rax\n    push %rax\n"@ =~= instrs_text(
                    is,
                ));
                assert(stays_above(is, 0)) by {
                    reveal_with_fuel(stays_above, 3);
                }
            }
        },
        ExprView::Assign(name, inner) => {
            law_expr_code_pushes_one(vars, *inner);
            if let Some(is) = expr_instrs(vars, *inner) {
                if let Some(off) = var_offset(vars, name) {
                    let tail = seq![Instr::PopRax, Instr::Store(off), Instr::PushRax];
                    lemma_instrs_small(tail);
                    lemma_instrs_concat(is, tail, 0);
                    reveal_strlit("(%rbp)\n    push %rax\n");
                    reveal_strlit("(%rbp)\n");
                    let c = gen_expr(vars, *inner)->Ok_0;
                    assert(c + "    pop %rax\n"@ + "    mov %rax, -"@ + int_text(off)
                        + "(%rbp)\n    push %rax\n"@ =~= c + instrs_text(tail));
                    assert(stays_above(tail, 1)) by {
                        reveal_with_fuel(stays_above, 4);
                    }
                }
            }
        },
        ExprView::Binary(op, l, r) => {
            law_expr_code_pushes_one(vars, *l);
            law_expr_code_pushes_one(vars, *r);
            if let Some(li) = expr_instrs(vars, *l) {
                if let Some(ri) = expr_instrs(vars, *r) {
                    let tail = seq![Instr::PopRdi, Instr::PopRax, Instr::Combine(op), Instr::PushRax];
                    lemma_instrs_small(tail);
                    lemma_stays_above_deeper(ri, 0, 1);
                    lemma_instrs_concat(li, ri, 0);
                    lemma_instrs_concat(li + ri, tail, 0);
                    reveal_strlit("    pop %rdi\n    pop %rax\n");
                    let lc = gen_expr(vars, *l)->Ok_0;
                    let rc = gen_expr(vars, *r)->Ok_0;
                    assert(lc + rc + "    pop %rdi\n    pop %rax\n"@ + binop_code(op)
                        + "    push %rax\n"@ =~= (lc + rc) + instrs_text(tail));
                    assert(stays_above(tail, 2)) by {
                        reveal_with_fuel(stays_above, 5);
                    }
                }
            }
        },
    }
}

} // verus!
