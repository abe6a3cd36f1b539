//! A model of the x86-64 instructions that expression code is made of, and the
//! law that the code of an expression computes the expression's value.
use vstd::prelude::*;
use crate::ast::{BinOp, ExprView};
use crate::codegen::{binop_code, gen_expr, var_offset};
use crate::expr_code::{Instr, expr_instrs, instr_text, instrs_text, law_expr_code_pushes_one};
use crate::text::int_text;

verus! {

// ---------------------------------------------------------------------------
// Values
// ---------------------------------------------------------------------------

pub open spec fn in_i64(x: int) -> bool {
    i64::MIN <= x <= i64::MAX
}

/// What a 64-bit register holds after a result `x`: `x` modulo 2^64, read as signed.
pub open spec fn wrap64(x: int) -> int {
    (x + 0x8000_0000_0000_0000) % 0x1_0000_0000_0000_0000 - 0x8000_0000_0000_0000
}

pub open spec fn magnitude(a: int) -> int {
    if a < 0 {
        -a
    } else {
        a
    }
}

/// Signed division rounded toward zero.
pub open spec fn trunc_div(a: int, b: int) -> int {
    let q = magnitude(a) / magnitude(b);
    if (a < 0) == (b < 0) {
        q
    } else {
        -q
    }
}

// ---------------------------------------------------------------------------
// The machine
// ---------------------------------------------------------------------------

/// An x86-64 instruction of the kinds that expression code uses.
pub enum MInstr {
    PushImm(i64),
    PushRax,
    PopRax,
    PopRdi,
    NegRax,
    /// `mov -off(%rbp), %rax`
    Load(int),
    /// `mov %rax, -off(%rbp)`
    Store(int),
    AddRdiRax,
    SubRdiRax,
    ImulRdiRax,
    Cqo,
    IdivRdi,
    MovRdxRax,
    CompareRdiRax,
    SetE,
    SetNe,
    SetL,
    SetLe,
    SetG,
    SetGe,
    MovzbAlRax,
}

/// The text of an instruction in AT&T syntax, one line.
pub open spec fn minstr_text(i: MInstr) -> Seq<char> {
    match i {
        MInstr::PushImm(v) => "    push $"@ + int_text(v as int) + "\n"@,
        MInstr::PushRax => "    push %rax\n"@,
        MInstr::PopRax => "    pop %rax\n"@,
        MInstr::PopRdi => "    pop %rdi\n"@,
        MInstr::NegRax => "    neg %rax\n"@,
        MInstr::Load(off) => "    mov -"@ + int_text(off) + "(%rbp), %rax\n"@,
        MInstr::Store(off) => "    mov %rax, -"@ + int_text(off) + "(%rbp)\n"@,
        MInstr::AddRdiRax => "    add %rdi, %rax\n"@,
        MInstr::SubRdiRax => "    sub %rdi, %rax\n"@,
        MInstr::ImulRdiRax => "    imul %rdi, %rax\n"@,
        MInstr::Cqo => "    cqo\n"@,
        MInstr::IdivRdi => "    idiv %rdi\n"@,
        MInstr::MovRdxRax => "    mov %rdx, %rax\n"@,
        MInstr::CompareRdiRax => "    cmp %rdi, %rax\n"@,
        MInstr::SetE => "    sete %al\n"@,
        MInstr::SetNe => "    setne %al\n"@,
        MInstr::SetL => "    setl %al\n"@,
        MInstr::SetLe => "    setle %al\n"@,
        MInstr::SetG => "    setg %al\n"@,
        MInstr::SetGe => "    setge %al\n"@,
        MInstr::MovzbAlRax => "    movzb %al, %rax\n"@,
    }
}

pub open spec fn minstrs_text(ms: Seq<MInstr>) -> Seq<char>
    decreases ms.len(),
{
    if ms.len() == 0 {
        Seq::empty()
    } else {
        minstr_text(ms[0]) + minstrs_text(ms.subrange(1, ms.len() as int))
    }
}

/// The registers that expression code uses, the two values that the last `cmp`
/// compared, the stack (its top last) and the frame's slots by their offset below `%rbp`.
pub struct Machine {
    pub rax: int,
    pub rdi: int,
    pub rdx: int,
    pub compared_left: int,
    pub compared_right: int,
    pub stack: Seq<int>,
    pub slots: Map<int, int>,
}

/// `%al` set to 1 or 0, the other bits of `%rax` kept.
pub open spec fn set_al(m: Machine, bit: bool) -> Machine {
    Machine {
        rax: m.rax - m.rax % 256 + if bit {
            1int
        } else {
            0int
        },
        ..m
    }
}

/// What one instruction does; `None` where it faults (a pop from an empty
/// stack, a read of an unset slot, a division by zero or one whose quotient
/// does not fit).
pub open spec fn step(i: MInstr, m: Machine) -> Option<Machine> {
    match i {
        MInstr::PushImm(v) => Some(Machine { stack: m.stack.push(v as int), ..m }),
        MInstr::PushRax => Some(Machine { stack: m.stack.push(m.rax), ..m }),
        MInstr::PopRax => if m.stack.len() == 0 {
            None
        } else {
            Some(Machine { rax: m.stack.last(), stack: m.stack.drop_last(), ..m })
        },
        MInstr::PopRdi => if m.stack.len() == 0 {
            None
        } else {
            Some(Machine { rdi: m.stack.last(), stack: m.stack.drop_last(), ..m })
        },
        MInstr::NegRax => Some(Machine { rax: wrap64(-m.rax), ..m }),
        MInstr::Load(off) => if m.slots.dom().contains(off) {
            Some(Machine { rax: m.slots[off], ..m })
        } else {
            None
        },
        MInstr::Store(off) => Some(Machine { slots: m.slots.insert(off, m.rax), ..m }),
        MInstr::AddRdiRax => Some(Machine { rax: wrap64(m.rax + m.rdi), ..m }),
        MInstr::SubRdiRax => Some(Machine { rax: wrap64(m.rax - m.rdi), ..m }),
        MInstr::ImulRdiRax => Some(Machine { rax: wrap64(m.rax * m.rdi), ..m }),
        MInstr::Cqo => Some(
            Machine {
                rdx: if m.rax < 0 {
                    -1int
                } else {
                    0int
                },
                ..m
            },
        ),
        MInstr::IdivRdi => {
            // `%rdx:%rax` as one signed 128-bit dividend.
            let dividend = m.rdx * 0x1_0000_0000_0000_0000 + m.rax % 0x1_0000_0000_0000_0000;
            let q = trunc_div(dividend, m.rdi);
            if m.rdi == 0 || !in_i64(q) {
                None
            } else {
                Some(Machine { rax: q, rdx: dividend - q * m.rdi, ..m })
            }
        },
        MInstr::MovRdxRax => Some(Machine { rax: m.rdx, ..m }),
        MInstr::CompareRdiRax => Some(Machine { compared_left: m.rax, compared_right: m.rdi, ..m }),
        MInstr::SetE => Some(set_al(m, m.compared_left == m.compared_right)),
        MInstr::SetNe => Some(set_al(m, m.compared_left != m.compared_right)),
        MInstr::SetL => Some(set_al(m, m.compared_left < m.compared_right)),
        MInstr::SetLe => Some(set_al(m, m.compared_left <= m.compared_right)),
        MInstr::SetG => Some(set_al(m, m.compared_left > m.compared_right)),
        MInstr::SetGe => Some(set_al(m, m.compared_left >= m.compared_right)),
        MInstr::MovzbAlRax => Some(Machine { rax: m.rax % 256, ..m }),
    }
}

/// Runs the instructions in order; `None` when one faults.
pub open spec fn run(ms: Seq<MInstr>, m: Machine) -> Option<Machine>
    decreases ms.len(),
{
    if ms.len() == 0 {
        Some(m)
    } else {
        match step(ms[0], m) {
            Some(m1) => run(ms.subrange(1, ms.len() as int), m1),
            None => None,
        }
    }
}

// ---------------------------------------------------------------------------
// What an expression means
// ---------------------------------------------------------------------------

/// The value of `a op b` on 64-bit integers: arithmetic wraps, division
/// rounds toward zero and has no value by zero or when the quotient does not
/// fit, and a comparison gives 1 when it holds and 0 when not.
pub open spec fn binop_value(op: BinOp, a: int, b: int) -> Option<int> {
    let truth = |c: bool| if c {
        1int
    } else {
        0int
    };
    match op {
        BinOp::Add => Some(wrap64(a + b)),
        BinOp::Sub => Some(wrap64(a - b)),
        BinOp::Mul => Some(wrap64(a * b)),
        BinOp::Div => if b == 0 || !in_i64(trunc_div(a, b)) {
            None
        } else {
            Some(trunc_div(a, b))
        },
        BinOp::Eq => Some(truth(a == b)),
        BinOp::Ne => Some(truth(a != b)),
        BinOp::Lt => Some(truth(a < b)),
        BinOp::Le => Some(truth(a <= b)),
        BinOp::Gt => Some(truth(a > b)),
        BinOp::Ge => Some(truth(a >= b)),
    }
}

/// The value of `e`, read left to right, with the locals in `slots` (each at
/// its offset for `vars`), and the slots after its assignments; `None` when it
/// has no value.
pub open spec fn eval_expr(vars: Seq<Seq<char>>, slots: Map<int, int>, e: ExprView) -> Option<
    (int, Map<int, int>),
>
    decreases e,
{
    match e {
        ExprView::Number(v) => Some((v as int, slots)),
        ExprView::UnaryPlus(inner) => eval_expr(vars, slots, *inner),
        ExprView::UnaryNeg(inner) => match eval_expr(vars, slots, *inner) {
            Some((v, s)) => Some((wrap64(-v), s)),
            None => None,
        },
        ExprView::Var(name) => match var_offset(vars, name) {
            Some(off) => if slots.dom().contains(off) {
                Some((slots[off], slots))
            } else {
                None
            },
            None => None,
        },
        ExprView::Assign(name, inner) => match eval_expr(vars, slots, *inner) {
            Some((v, s)) => match var_offset(vars, name) {
                Some(off) => Some((v, s.insert(off, v))),
                None => None,
            },
            None => None,
        },
        ExprView::Binary(op, l, r) => match eval_expr(vars, slots, *l) {
            Some((a, s1)) => match eval_expr(vars, s1, *r) {
                Some((b, s2)) => match binop_value(op, a, b) {
                    Some(c) => Some((c, s2)),
                    None => None,
                },
                None => None,
            },
            None => None,
        },
    }
}

pub open spec fn slots_hold_i64(slots: Map<int, int>) -> bool {
    forall|k: int| slots.dom().contains(k) ==> in_i64(#[trigger] slots[k])
}

// ---------------------------------------------------------------------------
// Reading expression code as machine instructions
// ---------------------------------------------------------------------------

/// The machine instructions of a binary operator's code.
pub open spec fn op_minstrs(op: BinOp) -> Seq<MInstr> {
    match op {
        BinOp::Add => seq![MInstr::AddRdiRax],
        BinOp::Sub => seq![MInstr::SubRdiRax],
        BinOp::Mul => seq![MInstr::ImulRdiRax],
        BinOp::Div => seq![MInstr::Cqo, MInstr::IdivRdi],
        BinOp::Eq => seq![MInstr::CompareRdiRax, MInstr::SetE, MInstr::MovzbAlRax],
        BinOp::Ne => seq![MInstr::CompareRdiRax, MInstr::SetNe, MInstr::MovzbAlRax],
        BinOp::Lt => seq![MInstr::CompareRdiRax, MInstr::SetL, MInstr::MovzbAlRax],
        BinOp::Le => seq![MInstr::CompareRdiRax, MInstr::SetLe, MInstr::MovzbAlRax],
        BinOp::Gt => seq![MInstr::CompareRdiRax, MInstr::SetG, MInstr::MovzbAlRax],
        BinOp::Ge => seq![MInstr::CompareRdiRax, MInstr::SetGe, MInstr::MovzbAlRax],
    }
}

pub open spec fn lower(i: Instr) -> Seq<MInstr> {
    match i {
        Instr::PushImm(v) => seq![MInstr::PushImm(v)],
        Instr::PushRax => seq![MInstr::PushRax],
        Instr::PopRax => seq![MInstr::PopRax],
        Instr::PopRdi => seq![MInstr::PopRdi],
        Instr::NegRax => seq![MInstr::NegRax],
        Instr::Load(off) => seq![MInstr::Load(off)],
        Instr::Store(off) => seq![MInstr::Store(off)],
        Instr::Combine(op) => op_minstrs(op),
    }
}

pub open spec fn lower_all(is: Seq<Instr>) -> Seq<MInstr>
    decreases is.len(),
{
    if is.len() == 0 {
        Seq::empty()
    } else {
        lower(is[0]) + lower_all(is.subrange(1, is.len() as int))
    }
}

// ---------------------------------------------------------------------------
// Lemmas
// ---------------------------------------------------------------------------

proof fn lemma_concat_rest<A>(a: Seq<A>, b: Seq<A>)
    requires
        a.len() > 0,
    ensures
        (a + b)[0] == a[0],
        (a + b).subrange(1, (a + b).len() as int) == a.subrange(1, a.len() as int) + b,
{
    assert((a + b).subrange(1, (a + b).len() as int) =~= a.subrange(1, a.len() as int) + b);
}

proof fn lemma_minstrs_concat(a: Seq<MInstr>, b: Seq<MInstr>, m: Machine)
    ensures
        minstrs_text(a + b) == minstrs_text(a) + minstrs_text(b),
        run(a + b, m) == (match run(a, m) {
            Some(m1) => run(b, m1),
            None => None,
        }),
    decreases a.len(),
{
    if a.len() == 0 {
        assert(a + b =~= b);
        assert(minstrs_text(a) + minstrs_text(b) =~= minstrs_text(b));
    } else {
        lemma_concat_rest(a, b);
        let rest = a.subrange(1, a.len() as int);
        match step(a[0], m) {
            Some(m1) => lemma_minstrs_concat(rest, b, m1),
            None => lemma_minstrs_concat(rest, b, m),
        }
        assert(minstr_text(a[0]) + (minstrs_text(rest) + minstrs_text(b)) =~= (minstr_text(a[0])
            + minstrs_text(rest)) + minstrs_text(b));
    }
}

proof fn lemma_minstrs_single(i: MInstr, m: Machine)
    ensures
        minstrs_text(seq![i]) == minstr_text(i),
        run(seq![i], m) == step(i, m),
{
    reveal_with_fuel(minstrs_text, 2);
    reveal_with_fuel(run, 2);
    let s = seq![i];
    assert(s.subrange(1, 1) =~= Seq::<MInstr>::empty());
    assert(minstr_text(i) + Seq::<char>::empty() =~= minstr_text(i));
}

proof fn lemma_lower_all_concat(a: Seq<Instr>, b: Seq<Instr>)
    ensures
        lower_all(a + b) == lower_all(a) + lower_all(b),
    decreases a.len(),
{
    if a.len() == 0 {
        assert(a + b =~= b);
        assert(lower_all(a) + lower_all(b) =~= lower_all(b));
    } else {
        lemma_concat_rest(a, b);
        lemma_lower_all_concat(a.subrange(1, a.len() as int), b);
        assert(lower(a[0]) + (lower_all(a.subrange(1, a.len() as int)) + lower_all(b)) =~= (lower(
            a[0],
        ) + lower_all(a.subrange(1, a.len() as int))) + lower_all(b));
    }
}

proof fn lemma_lower_single(i: Instr)
    ensures
        lower_all(seq![i]) == lower(i),
{
    reveal_with_fuel(lower_all, 2);
    assert(seq![i].subrange(1, 1) =~= Seq::<Instr>::empty());
    assert(lower(i) + Seq::<MInstr>::empty() =~= lower(i));
}

/// The text of a binary operator's machine instructions is its code.
proof fn lemma_op_text(op: BinOp)
    ensures
        minstrs_text(op_minstrs(op)) == binop_code(op),
{
    let m = Machine {
        rax: 0,
        rdi: 0,
        rdx: 0,
        compared_left: 0,
        compared_right: 0,
        stack: Seq::empty(),
        slots: Map::empty(),
    };
    reveal_strlit("    cmp %rdi, %rax\n");
    reveal_strlit("    movzb %al, %rax\n");
    reveal_strlit("    cqo\n");
    reveal_strlit("    idiv %rdi\n");
    match op {
        BinOp::Add | BinOp::Sub | BinOp::Mul => {
            lemma_minstrs_single(op_minstrs(op)[0], m);
            assert(op_minstrs(op) =~= seq![op_minstrs(op)[0]]);
        },
        BinOp::Div => {
            lemma_minstrs_single(MInstr::Cqo, m);
            lemma_minstrs_single(MInstr::IdivRdi, m);
            assert(op_minstrs(op) =~= seq![MInstr::Cqo] + seq![MInstr::IdivRdi]);
            lemma_minstrs_concat(seq![MInstr::Cqo], seq![MInstr::IdivRdi], m);
            reveal_strlit("    cqo\n    idiv %rdi\n");
            assert(binop_code(op) =~= "    cqo\n"@ + "    idiv %rdi\n"@);
        },
        _ => {
            let set = op_minstrs(op)[1];
            lemma_minstrs_single(MInstr::CompareRdiRax, m);
            lemma_minstrs_single(set, m);
            lemma_minstrs_single(MInstr::MovzbAlRax, m);
            assert(op_minstrs(op) =~= seq![MInstr::CompareRdiRax] + seq![set] + seq![
                MInstr::MovzbAlRax,
            ]);
            lemma_minstrs_concat(seq![MInstr::CompareRdiRax], seq![set], m);
            lemma_minstrs_concat(seq![MInstr::CompareRdiRax] + seq![set], seq![MInstr::MovzbAlRax], m);
            reveal_strlit("    sete %al\n");
            reveal_strlit("    setne %al\n");
            reveal_strlit("    setl %al\n");
            reveal_strlit("    setle %al\n");
            reveal_strlit("    setg %al\n");
            reveal_strlit("    setge %al\n");
            reveal_strlit("    cmp %rdi, %rax\n    sete %al\n    movzb %al, %rax\n");
            reveal_strlit("    cmp %rdi, %rax\n    setne %al\n    movzb %al, %rax\n");
            reveal_strlit("    cmp %rdi, %rax\n    setl %al\n    movzb %al, %rax\n");
            reveal_strlit("    cmp %rdi, %rax\n    setle %al\n    movzb %al, %rax\n");
            reveal_strlit("    cmp %rdi, %rax\n    setg %al\n    movzb %al, %rax\n");
            reveal_strlit("    cmp %rdi, %rax\n    setge %al\n    movzb %al, %rax\n");
            assert(binop_code(op) =~= "    cmp %rdi, %rax\n"@ + minstr_text(set)
                + "    movzb %al, %rax\n"@);
        },
    }
}

proof fn lemma_lower_text(is: Seq<Instr>)
    ensures
        minstrs_text(lower_all(is)) == instrs_text(is),
    decreases is.len(),
{
    if is.len() > 0 {
        let rest = is.subrange(1, is.len() as int);
        lemma_lower_text(rest);
        lemma_minstrs_concat(lower(is[0]), lower_all(rest), arbitrary_machine());
        match is[0] {
            Instr::Combine(op) => lemma_op_text(op),
            Instr::PushImm(v) => lemma_minstrs_single(MInstr::PushImm(v), arbitrary_machine()),
            Instr::PushRax => lemma_minstrs_single(MInstr::PushRax, arbitrary_machine()),
            Instr::PopRax => lemma_minstrs_single(MInstr::PopRax, arbitrary_machine()),
            Instr::PopRdi => lemma_minstrs_single(MInstr::PopRdi, arbitrary_machine()),
            Instr::NegRax => lemma_minstrs_single(MInstr::NegRax, arbitrary_machine()),
            Instr::Load(off) => lemma_minstrs_single(MInstr::Load(off), arbitrary_machine()),
            Instr::Store(off) => lemma_minstrs_single(MInstr::Store(off), arbitrary_machine()),
        }
    }
}

spec fn arbitrary_machine() -> Machine {
    Machine {
        rax: 0,
        rdi: 0,
        rdx: 0,
        compared_left: 0,
        compared_right: 0,
        stack: Seq::empty(),
        slots: Map::empty(),
    }
}

proof fn lemma_wrap64_fits(x: int)
    ensures
        in_i64(wrap64(x)),
{
}

proof fn lemma_low_byte(x: int, bit: int)
    requires
        0 <= bit <= 1,
    ensures
        (x - x % 256 + bit) % 256 == bit,
{
    assert((x - x % 256 + bit) % 256 == bit) by (nonlinear_arith)
        requires
            0 <= bit <= 1,
    {
        let q = x / 256;
        assert(x == 256 * q + x % 256);
        assert(x - x % 256 + bit == 256 * q + bit);
    }
}

/// `%rdx:%rax` after `cqo` is the value of `%rax`.
proof fn lemma_sign_extended(a: int)
    requires
        in_i64(a),
    ensures
        (if a < 0 {
            -1int
        } else {
            0int
        }) * 0x1_0000_0000_0000_0000 + a % 0x1_0000_0000_0000_0000 == a,
{
    if a < 0 {
        assert(a % 0x1_0000_0000_0000_0000 == a + 0x1_0000_0000_0000_0000) by (nonlinear_arith)
            requires
                -0x8000_0000_0000_0000 <= a < 0,
        {
        }
    } else {
        assert(a % 0x1_0000_0000_0000_0000 == a) by (nonlinear_arith)
            requires
                0 <= a <= 0x7fff_ffff_ffff_ffff,
        {
        }
    }
}

/// The instructions that follow the two operands' code: pop them, combine
/// them, push the result.
pub open spec fn combine_minstrs(op: BinOp) -> Seq<MInstr> {
    seq![MInstr::PopRdi, MInstr::PopRax] + op_minstrs(op) + seq![MInstr::PushRax]
}

/// Running a binary operator's instructions on `%rax` (left) and `%rdi`
/// (right) leaves its value in `%rax`, or faults when it has none.
proof fn lemma_op_runs(op: BinOp, m: Machine)
    requires
        in_i64(m.rax),
        in_i64(m.rdi),
    ensures
        match binop_value(op, m.rax, m.rdi) {
            Some(c) => run(op_minstrs(op), m) matches Some(m3) && m3.rax == c && m3.stack
                == m.stack && m3.slots == m.slots,
            None => run(op_minstrs(op), m) is None,
        },
{
    let ops = op_minstrs(op);
    match op {
        BinOp::Add | BinOp::Sub | BinOp::Mul => {
            lemma_minstrs_single(ops[0], m);
            assert(ops =~= seq![ops[0]]);
        },
        BinOp::Div => {
            lemma_div_runs(m);
        },
        _ => {
            lemma_compare_runs(op, m);
        },
    }
}

proof fn lemma_div_runs(m: Machine)
    requires
        in_i64(m.rax),
        in_i64(m.rdi),
    ensures
        match binop_value(BinOp::Div, m.rax, m.rdi) {
            Some(c) => run(op_minstrs(BinOp::Div), m) matches Some(m3) && m3.rax == c && m3.stack
                == m.stack && m3.slots == m.slots,
            None => run(op_minstrs(BinOp::Div), m) is None,
        },
{
    lemma_sign_extended(m.rax);
    let m1 = step(MInstr::Cqo, m)->Some_0;
    lemma_minstrs_single(MInstr::Cqo, m);
    lemma_minstrs_single(MInstr::IdivRdi, m1);
    assert(op_minstrs(BinOp::Div) =~= seq![MInstr::Cqo] + seq![MInstr::IdivRdi]);
    lemma_minstrs_concat(seq![MInstr::Cqo], seq![MInstr::IdivRdi], m);
}

#[verifier::rlimit(50)]
proof fn lemma_compare_runs(op: BinOp, m: Machine)
    requires
        in_i64(m.rax),
        in_i64(m.rdi),
        op_minstrs(op).len() == 3,
    ensures
        match binop_value(op, m.rax, m.rdi) {
            Some(c) => run(op_minstrs(op), m) matches Some(m3) && m3.rax == c && m3.stack
                == m.stack && m3.slots == m.slots,
            None => run(op_minstrs(op), m) is None,
        },
{
    let ops = op_minstrs(op);
    let set = ops[1];
    let m1 = step(MInstr::CompareRdiRax, m)->Some_0;
    let m2 = step(set, m1)->Some_0;
    lemma_minstrs_single(MInstr::CompareRdiRax, m);
    lemma_minstrs_single(set, m1);
    lemma_minstrs_single(MInstr::MovzbAlRax, m2);
    assert(ops =~= seq![MInstr::CompareRdiRax] + seq![set] + seq![MInstr::MovzbAlRax]);
    lemma_minstrs_concat(seq![MInstr::CompareRdiRax], seq![set], m);
    lemma_minstrs_concat(seq![MInstr::CompareRdiRax] + seq![set], seq![MInstr::MovzbAlRax], m);
    lemma_low_byte(m.rax, 0);
    lemma_low_byte(m.rax, 1);
}

proof fn lemma_combine_runs(op: BinOp, m: Machine, s: Seq<int>, a: int, b: int)
    requires
        m.stack == s.push(a).push(b),
        in_i64(a),
        in_i64(b),
    ensures
        match binop_value(op, a, b) {
            Some(c) => run(combine_minstrs(op), m) matches Some(m2) && m2.stack == s.push(c)
                && m2.slots == m.slots,
            None => run(combine_minstrs(op), m) is None,
        },
{
    let pops = seq![MInstr::PopRdi] + seq![MInstr::PopRax];
    let ops = op_minstrs(op);
    let push = seq![MInstr::PushRax];
    assert(combine_minstrs(op) =~= pops + ops + push);
    lemma_minstrs_concat(pops + ops, push, m);
    lemma_minstrs_concat(pops, ops, m);
    assert(s.push(a).push(b).drop_last() =~= s.push(a));
    assert(s.push(a).drop_last() =~= s);
    let m1 = step(MInstr::PopRdi, m)->Some_0;
    let m2 = step(MInstr::PopRax, m1)->Some_0;
    lemma_minstrs_single(MInstr::PopRdi, m);
    lemma_minstrs_single(MInstr::PopRax, m1);
    lemma_minstrs_concat(seq![MInstr::PopRdi], seq![MInstr::PopRax], m);
    assert(m2.rax == a && m2.rdi == b && m2.stack == s && m2.slots == m.slots);
    lemma_op_runs(op, m2);
    if let Some(c) = binop_value(op, a, b) {
        let m3 = run(ops, m2)->Some_0;
        lemma_minstrs_single(MInstr::PushRax, m3);
    }
}

proof fn lemma_lower2(a: Instr, b: Instr)
    ensures
        lower_all(seq![a, b]) == lower(a) + lower(b),
{
    assert(seq![a, b] =~= seq![a] + seq![b]);
    lemma_lower_all_concat(seq![a], seq![b]);
    lemma_lower_single(a);
    lemma_lower_single(b);
}

proof fn lemma_lower3(a: Instr, b: Instr, c: Instr)
    ensures
        lower_all(seq![a, b, c]) == lower(a) + lower(b) + lower(c),
{
    assert(seq![a, b, c] =~= seq![a, b] + seq![c]);
    lemma_lower_all_concat(seq![a, b], seq![c]);
    lemma_lower2(a, b);
    lemma_lower_single(c);
}

proof fn lemma_lower4(a: Instr, b: Instr, c: Instr, d: Instr)
    ensures
        lower_all(seq![a, b, c, d]) == lower(a) + lower(b) + lower(c) + lower(d),
{
    assert(seq![a, b, c, d] =~= seq![a, b, c] + seq![d]);
    lemma_lower_all_concat(seq![a, b, c], seq![d]);
    lemma_lower3(a, b, c);
    lemma_lower_single(d);
}

/// Running three instructions, one after the other.
proof fn lemma_run3(x: MInstr, y: MInstr, z: MInstr, m: Machine)
    ensures
        run(seq![x] + seq![y] + seq![z], m) == (match step(x, m) {
            Some(m1) => match step(y, m1) {
                Some(m2) => step(z, m2),
                None => None,
            },
            None => None,
        }),
{
    lemma_minstrs_concat(seq![x] + seq![y], seq![z], m);
    lemma_minstrs_concat(seq![x], seq![y], m);
    lemma_minstrs_single(x, m);
    if let Some(m1) = step(x, m) {
        lemma_minstrs_single(y, m1);
        if let Some(m2) = step(y, m1) {
            lemma_minstrs_single(z, m2);
        }
    }
}

/// The machine instructions of an expression's code run as the expression
/// evaluates: they push its value and leave the slots as its assignments do,
/// and they fault exactly when it has no value.
proof fn lemma_lowered_runs(vars: Seq<Seq<char>>, e: ExprView, m: Machine)
    requires
        slots_hold_i64(m.slots),
        expr_instrs(vars, e) is Some,
    ensures
        ({
            let ms = lower_all(expr_instrs(vars, e)->Some_0);
            match eval_expr(vars, m.slots, e) {
                Some((v, s)) => {
                    &&& in_i64(v)
                    &&& slots_hold_i64(s)
                    &&& run(ms, m) matches Some(m2) && m2.stack == m.stack.push(v) && m2.slots == s
                },
                None => run(ms, m) is None,
            }
        }),
    decreases e,
{
    match e {
        ExprView::Number(v) => {
            lemma_lower_single(Instr::PushImm(v));
            lemma_minstrs_single(MInstr::PushImm(v), m);
        },
        ExprView::UnaryPlus(inner) => {
            lemma_lowered_runs(vars, *inner, m);
        },
        ExprView::UnaryNeg(inner) => {
            lemma_lowered_runs(vars, *inner, m);
            let is = expr_instrs(vars, *inner)->Some_0;
            let tail = seq![Instr::PopRax, Instr::NegRax, Instr::PushRax];
            lemma_lower_all_concat(is, tail);
            lemma_lower3(Instr::PopRax, Instr::NegRax, Instr::PushRax);
            lemma_minstrs_concat(lower_all(is), lower_all(tail), m);
            if let Some((v, s)) = eval_expr(vars, m.slots, *inner) {
                let m1 = run(lower_all(is), m)->Some_0;
                lemma_run3(MInstr::PopRax, MInstr::NegRax, MInstr::PushRax, m1);
                assert(m1.stack.push(v).drop_last() =~= m1.stack) by {
                    assert(m.stack.push(v).drop_last() =~= m.stack);
                }
                assert(m.stack.push(v).drop_last() =~= m.stack);
                lemma_wrap64_fits(-v);
            }
        },
        ExprView::Var(name) => {
            let off = var_offset(vars, name)->Some_0;
            lemma_lower2(Instr::Load(off), Instr::PushRax);
            assert(seq![MInstr::Load(off)] + seq![MInstr::PushRax] == lower(Instr::Load(off))
                + lower(Instr::PushRax));
            lemma_minstrs_concat(seq![MInstr::Load(off)], seq![MInstr::PushRax], m);
            lemma_minstrs_single(MInstr::Load(off), m);
            if m.slots.dom().contains(off) {
                lemma_minstrs_single(MInstr::PushRax, step(MInstr::Load(off), m)->Some_0);
            }
        },
        ExprView::Assign(name, inner) => {
            lemma_lowered_runs(vars, *inner, m);
            let off = var_offset(vars, name)->Some_0;
            let is = expr_instrs(vars, *inner)->Some_0;
            let tail = seq![Instr::PopRax, Instr::Store(off), Instr::PushRax];
            lemma_lower_all_concat(is, tail);
            lemma_lower3(Instr::PopRax, Instr::Store(off), Instr::PushRax);
            lemma_minstrs_concat(lower_all(is), lower_all(tail), m);
            if let Some((v, s)) = eval_expr(vars, m.slots, *inner) {
                let m1 = run(lower_all(is), m)->Some_0;
                lemma_run3(MInstr::PopRax, MInstr::Store(off), MInstr::PushRax, m1);
                assert(m.stack.push(v).drop_last() =~= m.stack);
                assert forall|k: int| s.insert(off, v).dom().contains(k) implies in_i64(
                    #[trigger] s.insert(off, v)[k],
                ) by {
                    if k != off {
                        assert(s.dom().contains(k));
                    }
                }
            }
        },
        ExprView::Binary(op, l, r) => {
            lemma_lowered_runs(vars, *l, m);
            let li = expr_instrs(vars, *l)->Some_0;
            let ri = expr_instrs(vars, *r)->Some_0;
            let tail = seq![Instr::PopRdi, Instr::PopRax, Instr::Combine(op), Instr::PushRax];
            lemma_lower_all_concat(li + ri, tail);
            lemma_lower_all_concat(li, ri);
            lemma_lower4(Instr::PopRdi, Instr::PopRax, Instr::Combine(op), Instr::PushRax);
            assert(lower_all(tail) =~= combine_minstrs(op));
            lemma_minstrs_concat(lower_all(li) + lower_all(ri), combine_minstrs(op), m);
            lemma_minstrs_concat(lower_all(li), lower_all(ri), m);
            if let Some((a, s1)) = eval_expr(vars, m.slots, *l) {
                let m1 = run(lower_all(li), m)->Some_0;
                lemma_lowered_runs(vars, *r, m1);
                if let Some((b, s2)) = eval_expr(vars, s1, *r) {
                    let m2 = run(lower_all(ri), m1)->Some_0;
                    lemma_combine_runs(op, m2, m.stack, a, b);
                }
            }
        },
    }
}

/// The code of an expression computes the expression. Read as x86-64
/// instructions and run from any state whose frame slots hold 64-bit values,
/// it pushes the expression's value (read left to right, with wrapping
/// arithmetic, division rounded toward zero, and comparisons giving 1 when they
/// hold and 0 when not) and leaves the slots as the expression's assignments
/// do; it faults exactly when the expression has no value (a division by zero
/// or whose quotient does not fit, or a read of a local never set).
pub proof fn law_expr_code_computes_value(vars: Seq<Seq<char>>, e: ExprView, m: Machine)
    requires
        slots_hold_i64(m.slots),
    ensures
        gen_expr(vars, e) matches Ok(code) ==> exists|ms: Seq<MInstr>|
            #[trigger] minstrs_text(ms) == code && match eval_expr(vars, m.slots, e) {
                Some((v, s)) => run(ms, m) matches Some(m2) && m2.stack == m.stack.push(v)
                    && m2.slots == s,
                None => run(ms, m) is None,
            },
{
    law_expr_code_pushes_one(vars, e);
    if let Ok(code) = gen_expr(vars, e) {
        let is = expr_instrs(vars, e)->Some_0;
        let ms = lower_all(is);
        lemma_lower_text(is);
        lemma_lowered_runs(vars, e, m);
        assert(minstrs_text(ms) == code);
    }
}

} // verus!
