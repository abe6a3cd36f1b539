//! Properties of the compiler that span several functions or calls.
use vstd::prelude::*;
use crate::ast::{ExprView, StmtView};
use crate::codegen::{
    CodegenView, FRAME_SIZE, GenState, keeps, declare, epilogue, gen_stmt, gen_stmts, label, lemma_gen_block,
    lemma_gen_decl, lemma_gen_expr_stmt, lemma_gen_if, lemma_gen_return, lemma_gen_stmts_empty,
    gen_expr, lemma_gen_stmts_step, lemma_gen_while, lemma_index_of_unique, prologue,
    undefined_variable, var_offset,
};
use crate::compiler::compile;
use crate::lexer::lex;
use crate::text::{digit_char, nat_text, spec_is_ascii_digit};
use crate::parser::parse_program;

verus! {

// ---------------------------------------------------------------------------
// Locals
// ---------------------------------------------------------------------------

/// After a name is declared, looking it up gives the offset that declaring it gave.
pub proof fn law_lookup_after_declare(vars: Seq<Seq<char>>, name: Seq<char>)
    requires
        vars.no_duplicates(),
    ensures
        var_offset(declare(vars, name).0, name) == Some(declare(vars, name).1),
        declare(vars, name).0.no_duplicates(),
{
    let (after, off) = declare(vars, name);
    if !vars.contains(name) {
        assert(after[vars.len() as int] == name);
        assert forall|i: int, j: int|
            0 <= i < after.len() && 0 <= j < after.len() && i != j implies after[i] != after[j] by {
            if i == vars.len() {
                assert(!vars.contains(after[j]) || after[j] != name);
            } else if j == vars.len() {
                assert(!vars.contains(after[i]) || after[i] != name);
            }
        }
        lemma_index_of_unique(after, vars.len() as int);
    } else {
        let k = vars.index_of(name);
        lemma_index_of_unique(vars, k);
    }
}

/// Declaring a name a second time changes nothing and gives the same offset.
pub proof fn law_declare_idempotent(vars: Seq<Seq<char>>, name: Seq<char>)
    requires
        vars.no_duplicates(),
    ensures
        declare(declare(vars, name).0, name) == declare(vars, name),
{
    law_lookup_after_declare(vars, name);
    let (after, off) = declare(vars, name);
    assert(after.contains(name));
}

/// Two different locals never share an offset.
pub proof fn law_offsets_distinct(vars: Seq<Seq<char>>, a: Seq<char>, b: Seq<char>)
    requires
        vars.no_duplicates(),
        a != b,
        var_offset(vars, a) is Some,
        var_offset(vars, b) is Some,
    ensures
        var_offset(vars, a) != var_offset(vars, b),
{
    let i = vars.index_of(a);
    let j = vars.index_of(b);
    assert(vars[i] == a);
    assert(vars[j] == b);
}

/// The `k`-th declared local lives `8 * (k + 1)` bytes below `%rbp`, so the
/// offsets of `n` locals are exactly 8, 16, ..., 8n.
pub proof fn law_offsets_are_slots(vars: Seq<Seq<char>>, name: Seq<char>)
    requires
        vars.no_duplicates(),
    ensures
        forall|k: int|
            0 <= k < vars.len() ==> #[trigger] var_offset(vars, vars[k]) == Some((k + 1) * 8),
        var_offset(vars, name) matches Some(off) ==> exists|k: int|
            0 <= k < vars.len() && vars[k] == name && off == (k + 1) * 8,
{
    assert forall|k: int| 0 <= k < vars.len() implies #[trigger] var_offset(vars, vars[k]) == Some(
        (k + 1) * 8,
    ) by {
        lemma_index_of_unique(vars, k);
    }
    if vars.contains(name) {
        let k = vars.index_of(name);
        assert(vars[k] == name);
    }
}

/// Locals declared later move none declared before: when the locals `earlier`
/// have grown into `later` (as the code generator's locals grow, whether a
/// statement compiles or fails), every earlier name keeps its offset.
pub proof fn law_earlier_locals_keep_offsets(
    earlier: Seq<Seq<char>>,
    later: Seq<Seq<char>>,
    name: Seq<char>,
)
    requires
        earlier.is_prefix_of(later),
        later.no_duplicates(),
        earlier.contains(name),
    ensures
        var_offset(later, name) == var_offset(earlier, name),
{
    let k = earlier.index_of(name);
    assert(earlier[k] == name);
    assert(later[k] == later.subrange(0, earlier.len() as int)[k]);
    lemma_index_of_unique(later, k);
}

/// Whatever `compile_stmt` returns, the generator keeps what it had (see
/// `keeps`), so every local declared before the call is found at the same
/// offset after it.
pub proof fn law_compiling_keeps_offsets(before: CodegenView, after: CodegenView, name: Seq<char>)
    requires
        keeps(before, after),
        after.vars.no_duplicates(),
        before.vars.contains(name),
    ensures
        var_offset(after.vars, name) == var_offset(before.vars, name),
{
    reveal(keeps);
    law_earlier_locals_keep_offsets(before.vars, after.vars, name);
}

/// The locals after declaring `names` in turn, starting from `vars`.
pub open spec fn declare_all(vars: Seq<Seq<char>>, names: Seq<Seq<char>>) -> Seq<Seq<char>>
    decreases names.len(),
{
    if names.len() == 0 {
        vars
    } else {
        declare_all(declare(vars, names[0]).0, names.subrange(1, names.len() as int))
    }
}

/// Declaring names in turn only adds locals at the end, each once.
pub proof fn law_declare_all_extends(vars: Seq<Seq<char>>, names: Seq<Seq<char>>)
    requires
        vars.no_duplicates(),
    ensures
        vars.is_prefix_of(declare_all(vars, names)),
        declare_all(vars, names).no_duplicates(),
    decreases names.len(),
{
    if names.len() == 0 {
        assert(vars.subrange(0, vars.len() as int) =~= vars);
    } else {
        let next = declare(vars, names[0]).0;
        law_lookup_after_declare(vars, names[0]);
        law_declare_all_extends(next, names.subrange(1, names.len() as int));
        let all = declare_all(vars, names);
        assert(vars.is_prefix_of(next)) by {
            if !vars.contains(names[0]) {
                assert(next.subrange(0, vars.len() as int) =~= vars);
            } else {
                assert(next.subrange(0, vars.len() as int) =~= vars);
            }
        }
        assert(all.subrange(0, vars.len() as int) =~= next.subrange(0, vars.len() as int));
    }
}

/// After declaring `names` in turn from `vars`, a name is found exactly when it
/// was declared before or is one of `names`; a name never declared is not found.
pub proof fn law_found_iff_declared(vars: Seq<Seq<char>>, names: Seq<Seq<char>>, m: Seq<char>)
    requires
        vars.no_duplicates(),
    ensures
        var_offset(declare_all(vars, names), m) is Some <==> (vars.contains(m) || names.contains(m)),
    decreases names.len(),
{
    if names.len() > 0 {
        let next = declare(vars, names[0]).0;
        let rest = names.subrange(1, names.len() as int);
        law_lookup_after_declare(vars, names[0]);
        law_found_iff_declared(next, rest, m);
        if !vars.contains(names[0]) {
            assert(next[vars.len() as int] == names[0]);
        }
        assert(next.contains(m) <==> (vars.contains(m) || m == names[0])) by {
            if vars.contains(m) {
                let k = vars.index_of(m);
                assert(next[k] == m);
            }
            if next.contains(m) && !vars.contains(m) {
                let k = next.index_of(m);
                if k < vars.len() {
                    assert(vars[k] == m);
                }
            }
        }
        assert(names.contains(m) <==> (m == names[0] || rest.contains(m))) by {
            if rest.contains(m) {
                let k = rest.index_of(m);
                assert(names[k + 1] == m);
            }
            if names.contains(m) && m != names[0] {
                let k = names.index_of(m);
                assert(rest[k - 1] == m);
            }
        }
        assert(names[0] == names[0]);
    }
}

/// A declared name is found at the same offset after any later declarations.
pub proof fn law_lookup_after_later_declarations(
    vars: Seq<Seq<char>>,
    names: Seq<Seq<char>>,
    name: Seq<char>,
)
    requires
        vars.no_duplicates(),
        vars.contains(name),
    ensures
        var_offset(declare_all(vars, names), name) == var_offset(vars, name),
{
    law_declare_all_extends(vars, names);
    law_earlier_locals_keep_offsets(vars, declare_all(vars, names), name);
}

/// `e` reads or assigns the variable `name`.
pub open spec fn names_var(e: ExprView, name: Seq<char>) -> bool
    decreases e,
{
    match e {
        ExprView::Number(_) => false,
        ExprView::Var(v) => v == name,
        ExprView::Assign(v, inner) => v == name || names_var(*inner, name),
        ExprView::UnaryNeg(inner) => names_var(*inner, name),
        ExprView::UnaryPlus(inner) => names_var(*inner, name),
        ExprView::Binary(_, l, r) => names_var(*l, name) || names_var(*r, name),
    }
}

/// An expression compiles exactly when every variable it names is declared;
/// otherwise the error is an undefined variable that it names.
pub proof fn law_expr_compiles_iff_declared(vars: Seq<Seq<char>>, e: ExprView)
    ensures
        gen_expr(vars, e) is Ok <==> (forall|name: Seq<char>|
            names_var(e, name) ==> #[trigger] vars.contains(name)),
        gen_expr(vars, e) matches Err(err) ==> exists|name: Seq<char>|
            names_var(e, name) && !vars.contains(name) && err == #[trigger] undefined_variable(
                name,
            ),
    decreases e,
{
    match e {
        ExprView::Number(_) => {},
        ExprView::Var(v) => {
            if !vars.contains(v) {
                assert(names_var(e, v));
            }
        },
        ExprView::Assign(v, inner) => {
            law_expr_compiles_iff_declared(vars, *inner);
            if gen_expr(vars, *inner) is Ok && !vars.contains(v) {
                assert(names_var(e, v));
            }
            if gen_expr(vars, *inner) is Err {
                let name = choose|name: Seq<char>| names_var(*inner, name) && !vars.contains(name);
                assert(names_var(e, name));
            }
        },
        ExprView::UnaryNeg(inner) => {
            law_expr_compiles_iff_declared(vars, *inner);
        },
        ExprView::UnaryPlus(inner) => {
            law_expr_compiles_iff_declared(vars, *inner);
        },
        ExprView::Binary(op, l, r) => {
            law_expr_compiles_iff_declared(vars, *l);
            law_expr_compiles_iff_declared(vars, *r);
            if gen_expr(vars, *l) is Err {
                let name = choose|name: Seq<char>| names_var(*l, name) && !vars.contains(name);
                assert(names_var(e, name));
            } else if gen_expr(vars, *r) is Err {
                let name = choose|name: Seq<char>| names_var(*r, name) && !vars.contains(name);
                assert(names_var(e, name));
            }
        },
    }
}

// ---------------------------------------------------------------------------
// Labels
// ---------------------------------------------------------------------------

proof fn lemma_digit_char_injective(a: nat, b: nat)
    requires
        a < 10,
        b < 10,
        digit_char(a) == digit_char(b),
    ensures
        a == b,
{
}

/// Different numbers have different decimal texts.
pub proof fn law_nat_text_injective(a: nat, b: nat)
    requires
        nat_text(a) == nat_text(b),
    ensures
        a == b,
    decreases a + b,
{
    if a < 10 && b < 10 {
        assert(nat_text(a) == seq![digit_char(a)]);
        assert(nat_text(b) == seq![digit_char(b)]);
        assert(seq![digit_char(a)][0] == digit_char(a));
        assert(seq![digit_char(b)][0] == digit_char(b));
        assert(nat_text(a)[0] == nat_text(b)[0]);
        lemma_digit_char_injective(a, b);
    } else if a < 10 {
        lemma_nat_text_long(b);
        assert(nat_text(a).len() == 1);
    } else if b < 10 {
        lemma_nat_text_long(a);
        assert(nat_text(b).len() == 1);
    } else {
        let ta = nat_text(a);
        let tb = nat_text(b);
        assert(ta.last() == tb.last());
        assert(ta.drop_last() =~= nat_text(a / 10));
        assert(tb.drop_last() =~= nat_text(b / 10));
        lemma_digit_char_injective(a % 10, b % 10);
        law_nat_text_injective(a / 10, b / 10);
    }
}

proof fn lemma_nat_text_nonempty(n: nat)
    ensures
        nat_text(n).len() >= 1,
    decreases n,
{
    if n >= 10 {
        lemma_nat_text_nonempty(n / 10);
    }
}

proof fn lemma_nat_text_long(n: nat)
    requires
        n >= 10,
    ensures
        nat_text(n).len() >= 2,
{
    lemma_nat_text_nonempty(n / 10);
    assert(nat_text(n) == nat_text(n / 10).push(digit_char(n % 10)));
}

proof fn lemma_nat_text_digits(n: nat)
    ensures
        forall|i: int| 0 <= i < nat_text(n).len() ==> spec_is_ascii_digit(#[trigger] nat_text(n)[i]),
    decreases n,
{
    if n >= 10 {
        lemma_nat_text_digits(n / 10);
        let t = nat_text(n);
        assert(t == nat_text(n / 10).push(digit_char(n % 10)));
        assert forall|i: int| 0 <= i < t.len() implies spec_is_ascii_digit(#[trigger] t[i]) by {
            if i < t.len() - 1 {
                assert(t[i] == nat_text(n / 10)[i]);
            }
        }
    } else {
        assert(nat_text(n) == seq![digit_char(n)]);
    }
}

/// Two labels are equal only when their prefixes and their numbers are: the
/// number follows the last `_`, and a number's digits hold no `_`. As each
/// label takes the next number, no two labels of a program ever clash.
pub proof fn law_labels_distinct(p1: Seq<char>, n1: nat, p2: Seq<char>, n2: nat)
    requires
        p1 != p2 || n1 != n2,
    ensures
        label(p1, n1) != label(p2, n2),
{
    let l1 = label(p1, n1);
    let l2 = label(p2, n2);
    if l1 == l2 {
        reveal_strlit(".L");
        reveal_strlit("_");
        lemma_nat_text_digits(n1);
        lemma_nat_text_digits(n2);
        lemma_nat_text_nonempty(n1);
        lemma_nat_text_nonempty(n2);
        let u1 = 2 + p1.len();
        let u2 = 2 + p2.len();
        let pre1 = ".L"@ + p1 + "_"@;
        let pre2 = ".L"@ + p2 + "_"@;
        assert(pre1.len() == u1 + 1);
        assert(pre2.len() == u2 + 1);
        assert(l1 == pre1 + nat_text(n1));
        assert(l2 == pre2 + nat_text(n2));
        assert(l1.len() == u1 + 1 + nat_text(n1).len());
        assert(l2.len() == u2 + 1 + nat_text(n2).len());
        assert(l1[u1 as int] == '_');
        assert(l2[u2 as int] == '_');
        if u1 < u2 {
            assert(l1[u2 as int] == nat_text(n1)[u2 - u1 - 1]);
            assert(spec_is_ascii_digit(nat_text(n1)[u2 - u1 - 1]));
        } else if u2 < u1 {
            assert(l2[u1 as int] == nat_text(n2)[u1 - u2 - 1]);
            assert(spec_is_ascii_digit(nat_text(n2)[u1 - u2 - 1]));
        } else {
            assert(l1.subrange(2, u1 as int) =~= p1);
            assert(l2.subrange(2, u2 as int) =~= p2);
            assert(l1.subrange((u1 + 1) as int, l1.len() as int) =~= nat_text(n1));
            assert(l2.subrange((u2 + 1) as int, l2.len() as int) =~= nat_text(n2));
            law_nat_text_injective(n1, n2);
        }
    }
}

// ---------------------------------------------------------------------------
// Programs
// ---------------------------------------------------------------------------

/// Every local that a statement's code uses lies inside the frame: code is only
/// produced when each declaration's slot fits.
pub proof fn law_locals_fit_frame(st: GenState, frame: int, s: StmtView)
    requires
        st.vars.len() * 8 <= frame,
    ensures
        gen_stmt(st, frame, s) matches Ok((_, after)) ==> after.vars.len() * 8 <= frame,
    decreases s,
{
    match s {
        StmtView::Return(e) => {
            lemma_gen_return(st, frame, e);
        },
        StmtView::Expr(e) => {
            lemma_gen_expr_stmt(st, frame, e);
        },
        StmtView::Decl(name, init) => {
            lemma_gen_decl(st, frame, name, init);
        },
        StmtView::Block(stmts) => {
            lemma_gen_block(st, frame, stmts);
            law_locals_fit_frame_seq(st, frame, stmts);
        },
        StmtView::If(cond, then_s, else_s) => {
            lemma_gen_if(st, frame, cond, *then_s, else_s);
            let st1 = GenState { vars: st.vars, next_label: st.next_label + 2 };
            law_locals_fit_frame(st1, frame, *then_s);
            if let Ok((_, st2)) = gen_stmt(st1, frame, *then_s) {
                if let Some(es) = else_s {
                    law_locals_fit_frame(st2, frame, *es);
                }
            }
        },
        StmtView::While(cond, body) => {
            lemma_gen_while(st, frame, cond, *body);
            let st1 = GenState { vars: st.vars, next_label: st.next_label + 2 };
            law_locals_fit_frame(st1, frame, *body);
        },
    }
}

/// The same for a sequence of statements.
pub proof fn law_locals_fit_frame_seq(st: GenState, frame: int, stmts: Seq<StmtView>)
    requires
        st.vars.len() * 8 <= frame,
    ensures
        gen_stmts(st, frame, stmts) matches Ok((_, after)) ==> after.vars.len() * 8 <= frame,
    decreases stmts,
{
    if stmts.len() == 0 {
        lemma_gen_stmts_empty(st, frame, stmts);
    } else {
        lemma_gen_stmts_step(st, frame, stmts);
        law_locals_fit_frame(st, frame, stmts[0]);
        if let Ok((_, st1)) = gen_stmt(st, frame, stmts[0]) {
            law_locals_fit_frame_seq(st1, frame, stmts.subrange(1, stmts.len() as int));
        }
    }
}

/// Every compiled program starts by setting up the frame of `main` and ends
/// by returning 0 from it.
pub proof fn law_program_framing(src: Seq<char>)
    ensures
        compile(src) matches Ok(text) ==> {
            &&& text.take(prologue().len() as int) == prologue()
            &&& text.skip(text.len() - epilogue().len()) == epilogue()
        },
{
    if let Ok(text) = compile(src) {
        let toks = lex(src)->Ok_0;
        let prog = parse_program(toks, 0)->Ok_0;
        let code = gen_stmt(
            GenState { vars: Seq::empty(), next_label: 0 },
            FRAME_SIZE as int,
            prog,
        )->Ok_0.0;
        assert(text == prologue() + code + epilogue());
        assert(text.take(prologue().len() as int) =~= prologue());
        assert(text.skip(text.len() - epilogue().len()) =~= epilogue());
    }
}

} // verus!
