//! Properties of every token sequence that the lexer produces.
use vstd::prelude::*;
use crate::error::ErrorView;
use crate::lexer::{
    CharClass, block_comment_len, lemma_lex_block_comment, lemma_lex_end, lemma_lex_eof,
    lemma_lex_line_comment, lemma_lex_number, lemma_lex_operator, lemma_lex_whitespace,
    lemma_lex_word, lemma_scan_bounds, lex, lex_from, line_col, line_comment_len, operator_at,
    prepend, run_len, starts_at, token_at, word_kind,
};
use crate::text::{
    decimal_value, spec_is_ascii_digit, spec_is_ident_continue, spec_is_ident_start,
    spec_is_whitespace,
};
use crate::token::{KindView, TokenView, kind_name, same_kind};

verus! {

// ---------------------------------------------------------------------------
// Where each token is read
// ---------------------------------------------------------------------------

/// A keyword or an identifier: a token read as a word.
pub open spec fn is_word_kind(k: KindView) -> bool {
    k is KwInt || k is KwReturn || k is KwIf || k is KwElse || k is KwWhile || k is Ident
}

/// `t` is the token that the lexer reads at `q` of `s`: its text is the text of
/// `s` there, its line and column are those of `q`, and its kind is what stands
/// there (the longest word, the longest run of digits, or an operator).
pub open spec fn read_at(s: Seq<char>, q: nat, t: TokenView) -> bool {
    let n = t.lexeme.len();
    &&& q + n <= s.len()
    &&& t == token_at(s, q, n, t.kind)
    &&& (t.kind is Eof ==> q == s.len() && n == 0)
    &&& (is_word_kind(t.kind) ==> {
        &&& q < s.len()
        &&& spec_is_ident_start(s[q as int])
        &&& n == 1 + run_len(s, q + 1, CharClass::IdentContinue)
        &&& t.kind == word_kind(t.lexeme)
    })
    &&& (t.kind is Number ==> {
        &&& q < s.len()
        &&& spec_is_ascii_digit(s[q as int])
        &&& n == 1 + run_len(s, q + 1, CharClass::Digit)
        &&& decimal_value(t.lexeme) <= i64::MAX
        &&& t.kind == KindView::Number(decimal_value(t.lexeme) as i64)
    })
    &&& (!(t.kind is Eof) && !is_word_kind(t.kind) && !(t.kind is Number) ==> {
        &&& q < s.len()
        &&& operator_at(s, q) == Some((t.kind, n))
    })
}

/// The places in `s` at which the tokens of `lex_from(s, p)` are read, one per token.
pub open spec fn lex_places(s: Seq<char>, p: nat) -> Seq<nat>
    decreases s.len() - p,
{
    if p >= s.len() {
        seq![p]
    } else {
        let ch = s[p as int];
        proof {
            lemma_scan_bounds(s, p + 1);
            lemma_scan_bounds(s, p + 2);
        }
        if spec_is_whitespace(ch) {
            lex_places(s, p + 1)
        } else if starts_at(s, p, seq!['/', '/']) {
            lex_places(s, p + 2 + line_comment_len(s, p + 2))
        } else if starts_at(s, p, seq!['/', '*']) {
            match block_comment_len(s, p + 2) {
                Some(n) => lex_places(s, p + 2 + n),
                None => Seq::empty(),
            }
        } else if spec_is_ident_start(ch) {
            seq![p] + lex_places(s, p + 1 + run_len(s, p + 1, CharClass::IdentContinue))
        } else if spec_is_ascii_digit(ch) {
            seq![p] + lex_places(s, p + 1 + run_len(s, p + 1, CharClass::Digit))
        } else {
            match operator_at(s, p) {
                Some((_, w)) => seq![p] + lex_places(s, p + w),
                None => Seq::empty(),
            }
        }
    }
}

/// `ts` are tokens read at the places `places`, from `p` on: each where the
/// lexer reads it, each ending before the next begins, every one but the last
/// with some text, and the last one the end of the file.
pub open spec fn read_in_order(s: Seq<char>, p: nat, ts: Seq<TokenView>, places: Seq<nat>) -> bool {
    &&& ts.len() == places.len()
    &&& ts.len() > 0
    &&& forall|i: int| 0 <= i < ts.len() ==> p <= #[trigger] places[i] && read_at(s, places[i], ts[i])
    &&& forall|i: int, j: int|
        0 <= i < j < ts.len() ==> #[trigger] places[i] + ts[i].lexeme.len() <= #[trigger] places[j]
    &&& forall|i: int| 0 <= i < ts.len() - 1 ==> (#[trigger] ts[i]).lexeme.len() > 0
    &&& ts.last().kind is Eof
}

proof fn lemma_read_in_order_from(s: Seq<char>, p: nat, q: nat, ts: Seq<TokenView>, places: Seq<nat>)
    requires
        p <= q,
        read_in_order(s, q, ts, places),
    ensures
        read_in_order(s, p, ts, places),
{
}

proof fn lemma_read_in_order_prepend(
    s: Seq<char>,
    p: nat,
    t: TokenView,
    r: Result<Seq<TokenView>, ErrorView>,
    places: Seq<nat>,
)
    requires
        read_at(s, p, t),
        t.lexeme.len() > 0,
        !(t.kind is Eof),
        r matches Ok(ts) ==> read_in_order(s, p + t.lexeme.len(), ts, places),
    ensures
        prepend(seq![t], r) matches Ok(ts) ==> read_in_order(s, p, ts, seq![p] + places),
{
    if let Ok(ts) = r {
        let all = seq![t] + ts;
        let pl = seq![p] + places;
        assert forall|i: int| 0 <= i < all.len() implies p <= #[trigger] pl[i] && read_at(
            s,
            pl[i],
            all[i],
        ) by {
            if i > 0 {
                assert(all[i] == ts[i - 1]);
                assert(pl[i] == places[i - 1]);
            }
        }
        assert forall|i: int, j: int| 0 <= i < j < all.len() implies #[trigger] pl[i]
            + all[i].lexeme.len() <= #[trigger] pl[j] by {
            assert(pl[j] == places[j - 1]);
            if i > 0 {
                assert(pl[i] == places[i - 1]);
                assert(all[i] == ts[i - 1]);
            }
        }
        assert forall|i: int| 0 <= i < all.len() - 1 implies (#[trigger] all[i]).lexeme.len()
            > 0 by {
            if i > 0 {
                assert(all[i] == ts[i - 1]);
            }
        }
        assert(all.last() == ts.last());
    }
}

/// The tokens of `lex_from(s, p)` are read in order at the places `lex_places(s, p)`.
pub proof fn lemma_lex_read_in_order(s: Seq<char>, p: nat)
    requires
        p <= s.len(),
    ensures
        lex_from(s, p) matches Ok(ts) ==> read_in_order(s, p, ts, lex_places(s, p)),
    decreases s.len() - p,
{
    if p >= s.len() {
        lemma_lex_end(s, p);
        let ts = seq![token_at(s, p, 0, KindView::Eof)];
        assert(ts[0].lexeme =~= Seq::<char>::empty());
        assert(lex_places(s, p)[0] == p);
    } else {
        let ch = s[p as int];
        lemma_scan_bounds(s, p + 1);
        lemma_scan_bounds(s, p + 2);
        if spec_is_whitespace(ch) {
            lemma_lex_whitespace(s, p);
            lemma_lex_read_in_order(s, p + 1);
            if let Ok(ts) = lex_from(s, p) {
                lemma_read_in_order_from(s, p, p + 1, ts, lex_places(s, p));
            }
        } else if starts_at(s, p, seq!['/', '/']) {
            lemma_lex_line_comment(s, p);
            let q = p + 2 + line_comment_len(s, p + 2);
            lemma_lex_read_in_order(s, q);
            if let Ok(ts) = lex_from(s, p) {
                lemma_read_in_order_from(s, p, q, ts, lex_places(s, p));
            }
        } else if starts_at(s, p, seq!['/', '*']) {
            lemma_lex_block_comment(s, p);
            if let Some(n) = block_comment_len(s, p + 2) {
                lemma_lex_read_in_order(s, p + 2 + n);
                if let Ok(ts) = lex_from(s, p) {
                    lemma_read_in_order_from(s, p, p + 2 + n, ts, lex_places(s, p));
                }
            }
        } else if spec_is_ident_start(ch) {
            lemma_lex_word(s, p);
            let n = 1 + run_len(s, p + 1, CharClass::IdentContinue);
            let word = s.subrange(p as int, (p + n) as int);
            let t = token_at(s, p, n, word_kind(word));
            lemma_lex_read_in_order(s, p + n);
            assert(t.lexeme.len() == n);
            lemma_read_in_order_prepend(s, p, t, lex_from(s, p + n), lex_places(s, p + n));
        } else if spec_is_ascii_digit(ch) {
            lemma_lex_number(s, p);
            let n = 1 + run_len(s, p + 1, CharClass::Digit);
            let digits = s.subrange(p as int, (p + n) as int);
            if decimal_value(digits) <= i64::MAX {
                let t = token_at(s, p, n, KindView::Number(decimal_value(digits) as i64));
                lemma_lex_read_in_order(s, p + n);
                assert(t.lexeme.len() == n);
                lemma_read_in_order_prepend(s, p, t, lex_from(s, p + n), lex_places(s, p + n));
            }
        } else {
            lemma_lex_operator(s, p);
            if let Some((kind, w)) = operator_at(s, p) {
                let t = token_at(s, p, w, kind);
                lemma_lex_read_in_order(s, p + w);
                assert(t.lexeme.len() == w);
                lemma_read_in_order_prepend(s, p, t, lex_from(s, p + w), lex_places(s, p + w));
            }
        }
    }
}

// ---------------------------------------------------------------------------
// What every lexed source's tokens satisfy
// ---------------------------------------------------------------------------

/// Every token of a lexed source is read where it stands: its text is the
/// source's text at its place, and its line and column are those of that place.
/// The tokens come in source order, each beginning after the one before ends;
/// the last one is read at the end of the source.
pub proof fn law_tokens_read_in_order(s: Seq<char>)
    ensures
        lex(s) matches Ok(ts) ==> {
            &&& read_in_order(s, 0, ts, lex_places(s, 0))
            &&& lex_places(s, 0).last() == s.len()
        },
{
    lemma_lex_read_in_order(s, 0);
    lemma_lex_eof(s, 0);
}

/// There is exactly one end-of-file token, the last, with no text, at the line
/// and column of the end of the source; every other token has some text.
pub proof fn law_one_eof_at_end(s: Seq<char>)
    ensures
        lex(s) matches Ok(ts) ==> {
            &&& ts.len() >= 1
            &&& ts.last().kind is Eof
            &&& ts.last().lexeme.len() == 0
            &&& (ts.last().line, ts.last().col) == line_col(s, s.len())
            &&& forall|i: int|
                0 <= i < ts.len() - 1 ==> !((#[trigger] ts[i]).kind is Eof) && ts[i].lexeme.len() > 0
        },
{
    lemma_lex_read_in_order(s, 0);
    lemma_lex_eof(s, 0);
    if let Ok(ts) = lex(s) {
        let places = lex_places(s, 0);
        assert(read_at(s, places[ts.len() - 1], ts[ts.len() - 1]));
    }
}

/// `a` comes before `b` as (line, column): on an earlier line, or further left on the same one.
pub open spec fn before(a: (int, int), b: (int, int)) -> bool {
    a.0 < b.0 || (a.0 == b.0 && a.1 < b.1)
}

/// Line and column move forward with the position.
pub proof fn lemma_line_col_increases(s: Seq<char>, a: nat, b: nat)
    requires
        a < b <= s.len(),
    ensures
        before(line_col(s, a), line_col(s, b)),
    decreases b - a,
{
    if a + 1 < b {
        lemma_line_col_increases(s, a, (b - 1) as nat);
    }
}

/// Tokens come in strictly increasing (line, column) order, and every line and
/// column is at least 1: no two tokens share a place.
pub proof fn law_token_positions_increase(s: Seq<char>)
    ensures
        lex(s) matches Ok(ts) ==> {
            &&& forall|i: int, j: int|
                0 <= i < j < ts.len() ==> before(
                    (#[trigger] ts[i].line, ts[i].col),
                    (#[trigger] ts[j].line, ts[j].col),
                )
            &&& forall|i: int| 0 <= i < ts.len() ==> (#[trigger] ts[i]).line >= 1 && ts[i].col >= 1
        },
{
    lemma_lex_read_in_order(s, 0);
    if let Ok(ts) = lex(s) {
        let places = lex_places(s, 0);
        assert forall|i: int, j: int| 0 <= i < j < ts.len() implies before(
            (#[trigger] ts[i].line, ts[i].col),
            (#[trigger] ts[j].line, ts[j].col),
        ) by {
            assert(read_at(s, places[i], ts[i]));
            assert(read_at(s, places[j], ts[j]));
            assert(places[i] + ts[i].lexeme.len() <= places[j]);
            lemma_line_col_increases(s, places[i], places[j]);
        }
        assert forall|i: int| 0 <= i < ts.len() implies (#[trigger] ts[i]).line >= 1 && ts[i].col
            >= 1 by {
            assert(read_at(s, places[i], ts[i]));
            crate::lexer::lemma_line_col_bounds(s, places[i]);
        }
    }
}

/// Lexing again from the end of a source that lexed gives only its end-of-file token.
pub proof fn law_lex_again_at_end(s: Seq<char>)
    ensures
        lex(s) matches Ok(ts) ==> lex_from(s, s.len()) == Ok::<Seq<TokenView>, ErrorView>(
            seq![ts.last()],
        ),
{
    law_tokens_read_in_order(s);
    lemma_lex_end(s, s.len());
    if let Ok(ts) = lex(s) {
        let places = lex_places(s, 0);
        assert(read_at(s, places[ts.len() - 1], ts[ts.len() - 1]));
        assert(ts.last().lexeme =~= Seq::<char>::empty());
    }
}

/// `==`, `<=` and `>=` always lex as one token: a `=`, `<` or `>` token is
/// never followed by a `=` token in the very next column of the same line.
pub proof fn law_two_char_operators_not_split(s: Seq<char>)
    ensures
        lex(s) matches Ok(ts) ==> forall|i: int, j: int|
            0 <= i && j == i + 1 && j < ts.len() && (ts[i].kind is Assign || ts[i].kind is Lt
                || ts[i].kind is Gt) && (#[trigger] ts[j]).kind is Assign ==> !((#[trigger] ts[i]).line
                == ts[j].line && ts[j].col == ts[i].col + 1),
{
    lemma_lex_read_in_order(s, 0);
    if let Ok(ts) = lex(s) {
        let places = lex_places(s, 0);
        assert forall|i: int, j: int|
            0 <= i && j == i + 1 && j < ts.len() && (ts[i].kind is Assign || ts[i].kind is Lt
                || ts[i].kind is Gt) && (#[trigger] ts[j]).kind is Assign implies !((
            #[trigger] ts[i]).line == ts[j].line && ts[j].col == ts[i].col + 1) by {
            let q = places[i];
            let r = places[j];
            assert(read_at(s, q, ts[i]));
            assert(read_at(s, r, ts[j]));
            assert(q + ts[i].lexeme.len() <= r);
            if ts[i].line == ts[j].line && ts[j].col == ts[i].col + 1 {
                // The `=`, `<` or `>` at `q` is no newline, so `q + 1` is one column on.
                assert(s[q as int] != '\n');
                assert(line_col(s, q + 1) == (ts[i].line, ts[i].col + 1));
                if r > q + 1 {
                    lemma_line_col_increases(s, q + 1, r);
                }
                assert(r == q + 1);
                assert(s[r as int] == '=');
                if ts[i].kind is Assign {
                    assert(s[q as int] == '=');
                    assert(s.subrange(q as int, (q + 2) as int) =~= seq!['=', '=']);
                    assert(starts_at(s, q, seq!['=', '=']));
                } else if ts[i].kind is Lt {
                    assert(s[q as int] == '<');
                    assert(s.subrange(q as int, (q + 2) as int) =~= seq!['<', '=']);
                    assert(starts_at(s, q, seq!['<', '=']));
                } else {
                    assert(s[q as int] == '>');
                    assert(s.subrange(q as int, (q + 2) as int) =~= seq!['>', '=']);
                    assert(starts_at(s, q, seq!['>', '=']));
                }
            }
        }
    }
}

// ---------------------------------------------------------------------------
// The text of each kind of token
// ---------------------------------------------------------------------------

/// The text of a token whose kind fixes it: a keyword's word, an operator's
/// characters, and nothing for the end of the file.
pub open spec fn fixed_text(k: KindView) -> Option<Seq<char>> {
    match k {
        KindView::KwInt => Some("int"@),
        KindView::KwReturn => Some("return"@),
        KindView::KwIf => Some("if"@),
        KindView::KwElse => Some("else"@),
        KindView::KwWhile => Some("while"@),
        KindView::Ident(_) => None,
        KindView::Number(_) => None,
        KindView::LParen => Some(seq!['(']),
        KindView::RParen => Some(seq![')']),
        KindView::LBrace => Some(seq!['{']),
        KindView::RBrace => Some(seq!['}']),
        KindView::Semicolon => Some(seq![';']),
        KindView::Comma => Some(seq![',']),
        KindView::Plus => Some(seq!['+']),
        KindView::Minus => Some(seq!['-']),
        KindView::Star => Some(seq!['*']),
        KindView::Slash => Some(seq!['/']),
        KindView::Assign => Some(seq!['=']),
        KindView::Eq => Some(seq!['=', '=']),
        KindView::Ne => Some(seq!['!', '=']),
        KindView::Lt => Some(seq!['<']),
        KindView::Le => Some(seq!['<', '=']),
        KindView::Gt => Some(seq!['>']),
        KindView::Ge => Some(seq!['>', '=']),
        KindView::Eof => Some(Seq::empty()),
    }
}

/// An identifier's text: a letter or `_`, then letters, digits and `_`.
pub open spec fn is_ident_text(w: Seq<char>) -> bool {
    &&& w.len() > 0
    &&& spec_is_ident_start(w[0])
    &&& forall|k: int| 1 <= k < w.len() ==> spec_is_ident_continue(#[trigger] w[k])
}

/// A number's text: one or more decimal digits.
pub open spec fn is_digit_text(w: Seq<char>) -> bool {
    &&& w.len() > 0
    &&& forall|k: int| 0 <= k < w.len() ==> spec_is_ascii_digit(#[trigger] w[k])
}

/// A token's text has the shape that its kind asks for: an identifier is its
/// own text, which is no keyword; a number's text is digits whose value it
/// holds; every other kind has its fixed text.
pub open spec fn lexeme_fits_kind(t: TokenView) -> bool {
    &&& (t.kind matches KindView::Ident(name) ==> {
        &&& name == t.lexeme
        &&& is_ident_text(t.lexeme)
        &&& word_kind(t.lexeme) == t.kind
    })
    &&& (t.kind matches KindView::Number(v) ==> is_digit_text(t.lexeme) && v == decimal_value(
        t.lexeme,
    ))
    &&& (fixed_text(t.kind) matches Some(text) ==> t.lexeme == text)
}

proof fn lemma_run_chars(s: Seq<char>, p: nat, class: CharClass)
    requires
        p <= s.len(),
    ensures
        p + run_len(s, p, class) <= s.len(),
        forall|k: int| p <= k < p + run_len(s, p, class) ==> crate::lexer::in_class(class, #[trigger] s[k]),
    decreases s.len() - p,
{
    if p < s.len() && crate::lexer::in_class(class, s[p as int]) {
        lemma_run_chars(s, p + 1, class);
    }
}

proof fn lemma_read_at_fits(s: Seq<char>, q: nat, t: TokenView)
    requires
        read_at(s, q, t),
    ensures
        lexeme_fits_kind(t),
{
    let n = t.lexeme.len();
    assert(t.lexeme == s.subrange(q as int, (q + n) as int));
    if is_word_kind(t.kind) {
        lemma_run_chars(s, q + 1, CharClass::IdentContinue);
        assert(t.lexeme[0] == s[q as int]);
        assert forall|k: int| 1 <= k < n implies spec_is_ident_continue(#[trigger] t.lexeme[k]) by {
            assert(t.lexeme[k] == s[q + k]);
            assert(crate::lexer::in_class(CharClass::IdentContinue, s[q + k]));
        }
    } else if t.kind is Number {
        lemma_run_chars(s, q + 1, CharClass::Digit);
        assert forall|k: int| 0 <= k < n implies spec_is_ascii_digit(#[trigger] t.lexeme[k]) by {
            assert(t.lexeme[k] == s[q + k]);
            if k > 0 {
                assert(crate::lexer::in_class(CharClass::Digit, s[q + k]));
            }
        }
    } else if t.kind is Eof {
        assert(t.lexeme =~= Seq::<char>::empty());
    } else if n == 1 {
        assert(t.lexeme =~= seq![s[q as int]]);
    }
}

/// Every token's text has the shape of its kind (see `lexeme_fits_kind`).
pub proof fn law_lexeme_shapes(s: Seq<char>)
    ensures
        lex(s) matches Ok(ts) ==> forall|i: int| 0 <= i < ts.len() ==> lexeme_fits_kind(#[trigger] ts[i]),
{
    lemma_lex_read_in_order(s, 0);
    if let Ok(ts) = lex(s) {
        let places = lex_places(s, 0);
        assert forall|i: int| 0 <= i < ts.len() implies lexeme_fits_kind(#[trigger] ts[i]) by {
            assert(read_at(s, places[i], ts[i]));
            lemma_read_at_fits(s, places[i], ts[i]);
        }
    }
}

// ---------------------------------------------------------------------------
// Comments
// ---------------------------------------------------------------------------

/// No newline stands in `s[a..b]`.
pub open spec fn no_newline_between(s: Seq<char>, a: int, b: int) -> bool {
    forall|k: int| a <= k < b ==> s[k] != '\n'
}

/// No `*/` starts in `s[a..b]`.
pub open spec fn no_close_between(s: Seq<char>, a: int, b: int) -> bool {
    forall|k: int| a <= k < b ==> !(k + 1 < s.len() && #[trigger] s[k] == '*' && s[k + 1] == '/')
}

/// Along a stretch without newlines the line stays and the column moves one per character.
pub proof fn lemma_line_col_same_line(s: Seq<char>, a: nat, b: nat)
    requires
        a <= b <= s.len(),
        no_newline_between(s, a as int, b as int),
    ensures
        line_col(s, b) == (line_col(s, a).0, line_col(s, a).1 + (b - a)),
    decreases b - a,
{
    if a < b {
        lemma_line_col_same_line(s, a, (b - 1) as nat);
    }
}

/// A line comment whose text starts at `p` takes every character up to and
/// including the first newline at or after `p`, or, when there is none, the
/// rest of the source.
pub proof fn law_line_comment_extent(s: Seq<char>, p: nat)
    requires
        p <= s.len(),
    ensures
        ({
            let e = p + line_comment_len(s, p);
            &&& e <= s.len()
            &&& {
                ||| p < e && s[e - 1] == '\n' && no_newline_between(s, p as int, e - 1)
                ||| e == s.len() && no_newline_between(s, p as int, e as int)
            }
        }),
    decreases s.len() - p,
{
    if p < s.len() && s[p as int] != '\n' {
        law_line_comment_extent(s, p + 1);
    }
}

/// Skipping a line comment that starts at `p` (its `//` included) ends on the
/// next line at column 1 when a newline ends the comment; otherwise it ends at
/// the end of the source, on the same line, as many columns on as it skipped.
pub proof fn law_skip_line_comment(s: Seq<char>, p: nat)
    requires
        starts_at(s, p, seq!['/', '/']),
    ensures
        ({
            let e = p + 2 + line_comment_len(s, p + 2);
            let (line, col) = line_col(s, p);
            &&& e <= s.len()
            &&& if p + 2 < e && s[e - 1] == '\n' {
                &&& no_newline_between(s, p as int, e - 1)
                &&& line_col(s, e) == (line + 1, 1int)
            } else {
                &&& e == s.len()
                &&& no_newline_between(s, p as int, e as int)
                &&& line_col(s, e) == (line, col + (e - p))
            }
        }),
{
    let e = p + 2 + line_comment_len(s, p + 2);
    let opener = s.subrange(p as int, (p + 2) as int);
    assert(opener == seq!['/', '/']);
    assert(s[p as int] == opener[0]);
    assert(s[(p + 1) as int] == opener[1]);
    law_line_comment_extent(s, p + 2);
    if p + 2 < e && s[e - 1] == '\n' {
        lemma_line_col_same_line(s, p, (e - 1) as nat);
    } else {
        lemma_line_col_same_line(s, p, e);
    }
}

/// A block comment whose text starts at `p` ends just after the first `*/` at
/// or after `p`; when there is none, it is never closed.
pub proof fn law_block_comment_extent(s: Seq<char>, p: nat)
    requires
        p <= s.len(),
    ensures
        block_comment_len(s, p) matches Some(n) ==> {
            &&& n >= 2
            &&& p + n <= s.len()
            &&& s[p + n - 2] == '*'
            &&& s[p + n - 1] == '/'
            &&& no_close_between(s, p as int, p + n - 2)
        },
        block_comment_len(s, p) is None ==> no_close_between(s, p as int, s.len() as int),
    decreases s.len() - p,
{
    if p < s.len() {
        law_block_comment_extent(s, p + 1);
    }
}

// ---------------------------------------------------------------------------
// How kinds are named in messages
// ---------------------------------------------------------------------------

/// A message names a keyword or an operator by its text in backquotes.
pub proof fn law_kind_name_quotes_text(k: KindView)
    requires
        fixed_text(k) is Some,
        !(k is Eof),
    ensures
        kind_name(k) == "`"@ + fixed_text(k)->Some_0 + "`"@,
{
    match k {
        KindView::KwInt => {
            reveal_strlit("`int`");
            reveal_strlit("`");
            reveal_strlit("int");
            assert(kind_name(k) =~= "`"@ + fixed_text(k)->Some_0 + "`"@);
        },
        KindView::KwReturn => {
            reveal_strlit("`return`");
            reveal_strlit("`");
            reveal_strlit("return");
            assert(kind_name(k) =~= "`"@ + fixed_text(k)->Some_0 + "`"@);
        },
        KindView::KwIf => {
            reveal_strlit("`if`");
            reveal_strlit("`");
            reveal_strlit("if");
            assert(kind_name(k) =~= "`"@ + fixed_text(k)->Some_0 + "`"@);
        },
        KindView::KwElse => {
            reveal_strlit("`else`");
            reveal_strlit("`");
            reveal_strlit("else");
            assert(kind_name(k) =~= "`"@ + fixed_text(k)->Some_0 + "`"@);
        },
        KindView::KwWhile => {
            reveal_strlit("`while`");
            reveal_strlit("`");
            reveal_strlit("while");
            assert(kind_name(k) =~= "`"@ + fixed_text(k)->Some_0 + "`"@);
        },
        KindView::LParen => {
            reveal_strlit("`(`");
            reveal_strlit("`");
            assert(kind_name(k) =~= "`"@ + fixed_text(k)->Some_0 + "`"@);
        },
        KindView::RParen => {
            reveal_strlit("`)`");
            reveal_strlit("`");
            assert(kind_name(k) =~= "`"@ + fixed_text(k)->Some_0 + "`"@);
        },
        KindView::LBrace => {
            reveal_strlit("`{`");
            reveal_strlit("`");
            assert(kind_name(k) =~= "`"@ + fixed_text(k)->Some_0 + "`"@);
        },
        KindView::RBrace => {
            reveal_strlit("`}`");
            reveal_strlit("`");
            assert(kind_name(k) =~= "`"@ + fixed_text(k)->Some_0 + "`"@);
        },
        KindView::Semicolon => {
            reveal_strlit("`;`");
            reveal_strlit("`");
            assert(kind_name(k) =~= "`"@ + fixed_text(k)->Some_0 + "`"@);
        },
        KindView::Comma => {
            reveal_strlit("`,`");
            reveal_strlit("`");
            assert(kind_name(k) =~= "`"@ + fixed_text(k)->Some_0 + "`"@);
        },
        KindView::Plus => {
            reveal_strlit("`+`");
            reveal_strlit("`");
            assert(kind_name(k) =~= "`"@ + fixed_text(k)->Some_0 + "`"@);
        },
        KindView::Minus => {
            reveal_strlit("`-`");
            reveal_strlit("`");
            assert(kind_name(k) =~= "`"@ + fixed_text(k)->Some_0 + "`"@);
        },
        KindView::Star => {
            reveal_strlit("`*`");
            reveal_strlit("`");
            assert(kind_name(k) =~= "`"@ + fixed_text(k)->Some_0 + "`"@);
        },
        KindView::Slash => {
            reveal_strlit("`/`");
            reveal_strlit("`");
            assert(kind_name(k) =~= "`"@ + fixed_text(k)->Some_0 + "`"@);
        },
        KindView::Assign => {
            reveal_strlit("`=`");
            reveal_strlit("`");
            assert(kind_name(k) =~= "`"@ + fixed_text(k)->Some_0 + "`"@);
        },
        KindView::Eq => {
            reveal_strlit("`==`");
            reveal_strlit("`");
            assert(kind_name(k) =~= "`"@ + fixed_text(k)->Some_0 + "`"@);
        },
        KindView::Ne => {
            reveal_strlit("`!=`");
            reveal_strlit("`");
            assert(kind_name(k) =~= "`"@ + fixed_text(k)->Some_0 + "`"@);
        },
        KindView::Lt => {
            reveal_strlit("`<`");
            reveal_strlit("`");
            assert(kind_name(k) =~= "`"@ + fixed_text(k)->Some_0 + "`"@);
        },
        KindView::Le => {
            reveal_strlit("`<=`");
            reveal_strlit("`");
            assert(kind_name(k) =~= "`"@ + fixed_text(k)->Some_0 + "`"@);
        },
        KindView::Gt => {
            reveal_strlit("`>`");
            reveal_strlit("`");
            assert(kind_name(k) =~= "`"@ + fixed_text(k)->Some_0 + "`"@);
        },
        KindView::Ge => {
            reveal_strlit("`>=`");
            reveal_strlit("`");
            assert(kind_name(k) =~= "`"@ + fixed_text(k)->Some_0 + "`"@);
        },
        _ => {},
    }
}

/// The length and second character of a kind's name, which tell the names apart.
pub open spec fn name_key(k: KindView) -> (nat, char) {
    match k {
        KindView::KwInt => (5nat, 'i'),
        KindView::KwReturn => (8nat, 'r'),
        KindView::KwIf => (4nat, 'i'),
        KindView::KwElse => (6nat, 'e'),
        KindView::KwWhile => (7nat, 'w'),
        KindView::Ident(_) => (10nat, 'd'),
        KindView::Number(_) => (6nat, 'u'),
        KindView::LParen => (3nat, '('),
        KindView::RParen => (3nat, ')'),
        KindView::LBrace => (3nat, '{'),
        KindView::RBrace => (3nat, '}'),
        KindView::Semicolon => (3nat, ';'),
        KindView::Comma => (3nat, ','),
        KindView::Plus => (3nat, '+'),
        KindView::Minus => (3nat, '-'),
        KindView::Star => (3nat, '*'),
        KindView::Slash => (3nat, '/'),
        KindView::Assign => (3nat, '='),
        KindView::Eq => (4nat, '='),
        KindView::Ne => (4nat, '!'),
        KindView::Lt => (3nat, '<'),
        KindView::Le => (4nat, '<'),
        KindView::Gt => (3nat, '>'),
        KindView::Ge => (4nat, '>'),
        KindView::Eof => (11nat, 'n'),
    }
}

proof fn lemma_name_key(k: KindView)
    ensures
        kind_name(k).len() >= 2,
        (kind_name(k).len(), kind_name(k)[1]) == name_key(k),
{
    match k {
        KindView::KwInt => {
            reveal_strlit("`int`");
        },
        KindView::KwReturn => {
            reveal_strlit("`return`");
        },
        KindView::KwIf => {
            reveal_strlit("`if`");
        },
        KindView::KwElse => {
            reveal_strlit("`else`");
        },
        KindView::KwWhile => {
            reveal_strlit("`while`");
        },
        KindView::Ident(_) => {
            reveal_strlit("identifier");
        },
        KindView::Number(_) => {
            reveal_strlit("number");
        },
        KindView::LParen => {
            reveal_strlit("`(`");
        },
        KindView::RParen => {
            reveal_strlit("`)`");
        },
        KindView::LBrace => {
            reveal_strlit("`{`");
        },
        KindView::RBrace => {
            reveal_strlit("`}`");
        },
        KindView::Semicolon => {
            reveal_strlit("`;`");
        },
        KindView::Comma => {
            reveal_strlit("`,`");
        },
        KindView::Plus => {
            reveal_strlit("`+`");
        },
        KindView::Minus => {
            reveal_strlit("`-`");
        },
        KindView::Star => {
            reveal_strlit("`*`");
        },
        KindView::Slash => {
            reveal_strlit("`/`");
        },
        KindView::Assign => {
            reveal_strlit("`=`");
        },
        KindView::Eq => {
            reveal_strlit("`==`");
        },
        KindView::Ne => {
            reveal_strlit("`!=`");
        },
        KindView::Lt => {
            reveal_strlit("`<`");
        },
        KindView::Le => {
            reveal_strlit("`<=`");
        },
        KindView::Gt => {
            reveal_strlit("`>`");
        },
        KindView::Ge => {
            reveal_strlit("`>=`");
        },
        KindView::Eof => {
            reveal_strlit("end of file");
        },
    }
}

/// Different kinds have different names: two kinds with one name are the same
/// kind (identifiers share one name, as do numbers).
pub proof fn law_kind_names_distinct(a: KindView, b: KindView)
    requires
        kind_name(a) == kind_name(b),
    ensures
        same_kind(a, b),
{
    lemma_name_key(a);
    lemma_name_key(b);
}

} // verus!
